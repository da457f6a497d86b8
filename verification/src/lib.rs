//! Verified core of a viewer for GraphDECO-style 3D Gaussian Splatting scenes.
use vstd::prelude::*;

pub mod cli;
pub mod contact_sheet;
pub mod cpu_raster;
pub mod headless;
pub mod inspect;
pub mod loader;
pub mod names;
pub mod renderer;
pub mod scene;
pub mod text;
pub mod viewer;

verus! {
} // verus!
