# splatrs

A viewer for pre-trained 3D Gaussian Splatting scenes in the GraphDECO PLY
format, whose logic is a library verified with Verus.

- `src/` is the verified library: the PLY header grammar and vertex rows
  (`loader`), ordering and thinning splats (`scene`), binning splats into
  screen tiles (`cpu_raster`), pixel buffers, digit labels, readback
  conversion and BMP encoding (`headless`), contact-sheet layout
  (`contact_sheet`), byte counts for people (`inspect`), names derived from
  scene paths (`names`), the viewer's keys, input and sorting decisions (`viewer`),
  the command-line choices (`cli`, `renderer`) and text helpers (`text`).
  Its functions carry contracts that Verus proves; a few small wrappers
  around standard-library calls (`String::push`, `str::from_utf8`,
  `sort_unstable` and `std::path`) have contracts that are trusted.
- `tests/` runs the library on concrete inputs.
- `app/` is the `splatrs` program around the library: command-line parsing,
  file and GPU work, floating-point rendering math and the interactive window.
