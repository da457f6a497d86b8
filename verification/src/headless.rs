//! Pixel buffers for offscreen output: filling, blitting, digit labels,
//! readback conversion and BMP encoding.
use vstd::prelude::*;

use crate::loader::{le16, le32};
use crate::text::{decimal_digit_values, decimal_digits, decimal_string, decimal_values, lemma_decimal_values};

verus! {

/// The color of label ink, as RGBA bytes.
pub open spec fn ink(channel: int) -> u8 {
    if channel == 0 {
        235
    } else if channel == 1 {
        238
    } else if channel == 2 {
        242
    } else {
        255
    }
}

/// The bytes of `old` after `fill_rgba`: every whole 4-byte pixel takes
/// `color`; a trailing partial pixel is left alone.
pub open spec fn filled(old: Seq<u8>, color: [u8; 4]) -> Seq<u8> {
    Seq::new(
        old.len(),
        |k: int| if k < old.len() - old.len() % 4 { color[k % 4] } else { old[k] },
    )
}

/// Sets every whole RGBA pixel of `pixels` to `color`.
pub fn fill_rgba(pixels: &mut [u8], color: [u8; 4])
    ensures
        final(pixels)@ == filled(old(pixels)@, color),
{
    let len = pixels.len();
    let n = len / 4;
    let mut c: usize = 0;
    while c < n
        invariant
            len == old(pixels)@.len(),
            n == old(pixels)@.len() / 4,
            4 * n == old(pixels)@.len() - old(pixels)@.len() % 4,
            c <= n,
            pixels@.len() == old(pixels)@.len(),
            forall|k: int| 0 <= k < 4 * c ==> #[trigger] pixels@[k] == color[k % 4],
            forall|k: int| 4 * c <= k < pixels@.len() ==> #[trigger] pixels@[k] == old(pixels)@[k],
        decreases n - c,
    {
        let base = c * 4;
        pixels[base] = color[0];
        pixels[base + 1] = color[1];
        pixels[base + 2] = color[2];
        pixels[base + 3] = color[3];
        assert forall|k: int| 0 <= k < 4 * (c + 1) implies #[trigger] pixels@[k] == color[k % 4] by {
            if k >= 4 * c {
                assert(k == base + (k - base));
            }
        }
        c += 1;
    }
    assert(pixels@ =~= filled(old(pixels)@, color));
}


/// Column of the pixel that holds byte `k` of an image `width` pixels wide.
pub open spec fn pixel_x(k: int, width: int) -> int {
    (k / 4) % width
}

/// Row of the pixel that holds byte `k` of an image `width` pixels wide.
pub open spec fn pixel_y(k: int, width: int) -> int {
    (k / 4) / width
}

/// The RGBA image `old` (`width` x `height` pixels, row-major) after every
/// pixel of the image for which `covered` holds has been painted with ink.
pub open spec fn painted(old: Seq<u8>, width: int, height: int, covered: spec_fn(int, int) -> bool) -> Seq<u8> {
    Seq::new(
        old.len(),
        |k: int|
            if width > 0 && pixel_y(k, width) < height && covered(pixel_x(k, width), pixel_y(k, width)) {
                ink(k % 4)
            } else {
                old[k]
            },
    )
}

/// Every pixel of the image for which `covered` holds lies inside a buffer of
/// `len` bytes.
pub open spec fn paint_fits(len: int, width: int, height: int, covered: spec_fn(int, int) -> bool) -> bool {
    forall|px: int, py: int|
        0 <= px < width && 0 <= py < height && #[trigger] covered(px, py) ==> (py * width + px) * 4 + 4 <= len
}

/// The single pixel (`x`, `y`).
pub open spec fn single_pixel(x: int, y: int) -> spec_fn(int, int) -> bool {
    |px: int, py: int| px == x && py == y
}

/// No pixel at all.
pub open spec fn no_pixels() -> spec_fn(int, int) -> bool {
    |px: int, py: int| false
}

/// Pixels covered by `a` or by `b`.
pub open spec fn either(a: spec_fn(int, int) -> bool, b: spec_fn(int, int) -> bool) -> spec_fn(int, int) -> bool {
    |px: int, py: int| a(px, py) || b(px, py)
}

/// The 2 x 2 block of pixels whose top-left corner is (`x`, `y`).
pub open spec fn block_covers(x: int, y: int) -> spec_fn(int, int) -> bool {
    |px: int, py: int| x <= px < x + 2 && y <= py < y + 2
}

/// Byte `k` of the row-major image lies in pixel (`px`, `py`) exactly when it
/// lies in the four bytes starting at `(py * width + px) * 4`.
proof fn lemma_pixel_bytes(k: int, width: int, px: int, py: int)
    requires
        width > 0,
        0 <= px < width,
        0 <= py,
        0 <= k,
    ensures
        (pixel_x(k, width) == px && pixel_y(k, width) == py) <==> ((py * width + px) * 4 <= k < (py * width + px) * 4 + 4),
{
    let p = py * width + px;
    assert(0 <= py * width + px) by (nonlinear_arith)
        requires
            0 <= px,
            0 <= py,
            width > 0,
    ;
    if p * 4 <= k < p * 4 + 4 {
        assert(k / 4 == p);
        vstd::arithmetic::div_mod::lemma_fundamental_div_mod_converse(p, width, py, px);
    }
    if pixel_x(k, width) == px && pixel_y(k, width) == py {
        vstd::arithmetic::div_mod::lemma_fundamental_div_mod(k / 4, width);
        vstd::arithmetic::mul::lemma_mul_is_commutative(width, py);
        assert(k / 4 == p);
    }
}

/// Painting `a` and then `b` paints `either(a, b)`.
pub proof fn lemma_paint_twice(old: Seq<u8>, width: int, height: int, a: spec_fn(int, int) -> bool, b: spec_fn(int, int) -> bool)
    ensures
        painted(painted(old, width, height, a), width, height, b) == painted(old, width, height, either(a, b)),
{
    assert(painted(painted(old, width, height, a), width, height, b) =~= painted(old, width, height, either(a, b)));
}

/// Paints pixel (`px`, `py`) with ink when it lies inside the image.
fn paint_pixel(pixels: &mut [u8], width: u32, height: u32, px: u32, py: u32)
    requires
        paint_fits(old(pixels)@.len() as int, width as int, height as int, single_pixel(px as int, py as int)),
    ensures
        final(pixels)@ == painted(old(pixels)@, width as int, height as int, single_pixel(px as int, py as int)),
{
    if px >= width || py >= height {
        assert(pixels@ =~= painted(old(pixels)@, width as int, height as int, single_pixel(px as int, py as int)));
        return;
    }
    assert(single_pixel(px as int, py as int)(px as int, py as int));
    let len = pixels.len();
    assert((py * width + px) * 4 + 4 <= len);
    assert(0 <= py * width) by (nonlinear_arith)
        requires
            0 <= py,
            0 <= width,
    ;
    let index = (py as usize * width as usize + px as usize) * 4;
    pixels[index] = 235;
    pixels[index + 1] = 238;
    pixels[index + 2] = 242;
    pixels[index + 3] = 255;
    assert forall|k: int| 0 <= k < pixels@.len() implies #[trigger] pixels@[k] == painted(
        old(pixels)@,
        width as int,
        height as int,
        single_pixel(px as int, py as int),
    )[k] by {
        lemma_pixel_bytes(k, width as int, px as int, py as int);
    }
    assert(pixels@ =~= painted(old(pixels)@, width as int, height as int, single_pixel(px as int, py as int)));
}

/// Paints the 2 x 2 block of pixels at (`x`, `y`) with ink, skipping the
/// pixels that fall outside the image.
pub fn draw_block(pixels: &mut [u8], width: u32, height: u32, x: u32, y: u32)
    requires
        x < u32::MAX,
        y < u32::MAX,
        paint_fits(old(pixels)@.len() as int, width as int, height as int, block_covers(x as int, y as int)),
    ensures
        final(pixels)@ == painted(old(pixels)@, width as int, height as int, block_covers(x as int, y as int)),
{
    let ghost w = width as int;
    let ghost h = height as int;
    let ghost s0 = pixels@;
    assert(block_covers(x as int, y as int)(x as int, y as int));
    assert(block_covers(x as int, y as int)(x + 1, y as int));
    assert(block_covers(x as int, y as int)(x as int, y + 1));
    assert(block_covers(x as int, y as int)(x + 1, y + 1));
    paint_pixel(pixels, width, height, x, y);
    proof { assert(pixels@.len() == s0.len()); }
    paint_pixel(pixels, width, height, x + 1, y);
    paint_pixel(pixels, width, height, x, y + 1);
    paint_pixel(pixels, width, height, x + 1, y + 1);
    proof {
        let c0 = single_pixel(x as int, y as int);
        let c1 = single_pixel(x + 1, y as int);
        let c2 = single_pixel(x as int, y + 1);
        let c3 = single_pixel(x + 1, y + 1);
        lemma_paint_twice(s0, w, h, c0, c1);
        lemma_paint_twice(s0, w, h, either(c0, c1), c2);
        lemma_paint_twice(s0, w, h, either(either(c0, c1), c2), c3);
        assert(pixels@ =~= painted(s0, w, h, block_covers(x as int, y as int)));
    }
}


/// Lemma: in a buffer that holds every pixel of the image, any set of pixels
/// fits.
pub proof fn lemma_full_image_fits(len: int, width: int, height: int, covered: spec_fn(int, int) -> bool)
    requires
        0 <= width,
        0 <= height,
        width * height * 4 <= len,
    ensures
        paint_fits(len, width, height, covered),
{
    assert forall|px: int, py: int|
        0 <= px < width && 0 <= py < height && #[trigger] covered(px, py) implies (py * width + px) * 4 + 4 <= len by {
        assert((py * width + px) * 4 + 4 <= width * height * 4) by (nonlinear_arith)
            requires
                0 <= px < width,
                0 <= py < height,
        ;
    }
}

/// The 3 x 5 bitmaps of the decimal digits, one byte per row from the top;
/// bit 2 is the left column.
pub open spec fn glyph_rows(glyph: int) -> Seq<u8> {
    if glyph == 0 {
        seq![0b111u8, 0b101, 0b101, 0b101, 0b111]
    } else if glyph == 1 {
        seq![0b010u8, 0b110, 0b010, 0b010, 0b111]
    } else if glyph == 2 {
        seq![0b111u8, 0b001, 0b111, 0b100, 0b111]
    } else if glyph == 3 {
        seq![0b111u8, 0b001, 0b111, 0b001, 0b111]
    } else if glyph == 4 {
        seq![0b101u8, 0b101, 0b111, 0b001, 0b001]
    } else if glyph == 5 {
        seq![0b111u8, 0b100, 0b111, 0b001, 0b111]
    } else if glyph == 6 {
        seq![0b111u8, 0b100, 0b111, 0b101, 0b111]
    } else if glyph == 7 {
        seq![0b111u8, 0b001, 0b010, 0b010, 0b010]
    } else if glyph == 8 {
        seq![0b111u8, 0b101, 0b111, 0b101, 0b111]
    } else {
        seq![0b111u8, 0b101, 0b111, 0b001, 0b111]
    }
}

/// Law: label ink is an opaque light gray, RGBA (235, 238, 242, 255).
pub proof fn lemma_ink_color()
    ensures
        ink(0) == 235 && ink(1) == 238 && ink(2) == 242 && ink(3) == 255,
{
}

/// Law: the digit bitmaps, row by row from the top (bit 2 is the left
/// column). Each has five rows three cells wide, and no two digits share a
/// bitmap, so every digit reads differently.
pub proof fn lemma_glyph_bitmaps(a: int, b: int)
    ensures
        glyph_rows(0) =~= seq![7u8, 5, 5, 5, 7],
        glyph_rows(1) =~= seq![2u8, 6, 2, 2, 7],
        glyph_rows(2) =~= seq![7u8, 1, 7, 4, 7],
        glyph_rows(3) =~= seq![7u8, 1, 7, 1, 7],
        glyph_rows(4) =~= seq![5u8, 5, 7, 1, 1],
        glyph_rows(5) =~= seq![7u8, 4, 7, 1, 7],
        glyph_rows(6) =~= seq![7u8, 4, 7, 5, 7],
        glyph_rows(7) =~= seq![7u8, 1, 2, 2, 2],
        glyph_rows(8) =~= seq![7u8, 5, 7, 5, 7],
        glyph_rows(9) =~= seq![7u8, 5, 7, 1, 7],
        0 <= a < 10 ==> glyph_rows(a).len() == 5,
        0 <= a < 10 ==> forall|r: int| 0 <= r < 5 ==> #[trigger] glyph_rows(a)[r] < 8,
        0 <= a < 10 && 0 <= b < 10 && a != b ==> glyph_rows(a) != glyph_rows(b),
{
    if 0 <= a < 10 && 0 <= b < 10 && a != b {
        let ra = glyph_rows(a);
        let rb = glyph_rows(b);
        assert(ra[0] != rb[0] || ra[1] != rb[1] || ra[2] != rb[2] || ra[3] != rb[3] || ra[4] != rb[4]);
    }
}

/// Cell (`row`, `col`) of the bitmap of digit `glyph` is lit.
pub open spec fn glyph_lit(glyph: int, row: int, col: u32) -> bool {
    &&& 0 <= glyph < 10
    &&& 0 <= row < 5
    &&& col < 3
    &&& glyph_rows(glyph)[row] & (1u8 << (2 - col)) != 0
}

/// The pixels that `draw_glyph` paints for digit `glyph` at (`x`, `y`): each
/// lit cell of the bitmap is a 2 x 2 block, cells 3 pixels apart.
pub open spec fn glyph_covers(glyph: int, x: int, y: int) -> spec_fn(int, int) -> bool {
    |px: int, py: int|
        x <= px && y <= py && (px - x) % 3 < 2 && (py - y) % 3 < 2 && (px - x) / 3 < 3
            && glyph_lit(glyph, (py - y) / 3, ((px - x) / 3) as u32)
}

/// The cells of digit `glyph` before cell (`row`, `col`) in row-major order.
pub open spec fn glyph_covers_before(glyph: int, x: int, y: int, row: int, col: int) -> spec_fn(int, int) -> bool {
    |px: int, py: int|
        glyph_covers(glyph, x, y)(px, py) && ((py - y) / 3 < row || ((py - y) / 3 == row && (px - x) / 3 < col))
}

/// No lit cell of digit `glyph` at (`x`, `y`) overflows a `u32` coordinate.
pub open spec fn glyph_in_range(glyph: int, x: int, y: int) -> bool {
    forall|row: int, col: u32|
        #[trigger] glyph_lit(glyph, row, col) ==> x + 3 * col + 1 <= u32::MAX && y + 3 * row + 1 <= u32::MAX
}

/// Painting the same pixel sets paints the same image.
pub proof fn lemma_paint_same(old: Seq<u8>, width: int, height: int, a: spec_fn(int, int) -> bool, b: spec_fn(int, int) -> bool)
    requires
        forall|px: int, py: int| #[trigger] a(px, py) == #[trigger] b(px, py),
    ensures
        painted(old, width, height, a) == painted(old, width, height, b),
{
    assert(painted(old, width, height, a) =~= painted(old, width, height, b));
}

/// Row `row` of the bitmap of digit `glyph`.
fn glyph_row(glyph: usize, row: usize) -> (bits: u8)
    requires
        glyph < 10,
        row < 5,
    ensures
        bits == glyph_rows(glyph as int)[row as int],
{
    let rows: [u8; 5] = if glyph == 0 {
        [0b111, 0b101, 0b101, 0b101, 0b111]
    } else if glyph == 1 {
        [0b010, 0b110, 0b010, 0b010, 0b111]
    } else if glyph == 2 {
        [0b111, 0b001, 0b111, 0b100, 0b111]
    } else if glyph == 3 {
        [0b111, 0b001, 0b111, 0b001, 0b111]
    } else if glyph == 4 {
        [0b101, 0b101, 0b111, 0b001, 0b001]
    } else if glyph == 5 {
        [0b111, 0b100, 0b111, 0b001, 0b111]
    } else if glyph == 6 {
        [0b111, 0b100, 0b111, 0b101, 0b111]
    } else if glyph == 7 {
        [0b111, 0b001, 0b010, 0b010, 0b010]
    } else if glyph == 8 {
        [0b111, 0b101, 0b111, 0b101, 0b111]
    } else {
        [0b111, 0b101, 0b111, 0b001, 0b111]
    };
    assert(rows@ == glyph_rows(glyph as int));
    rows[row]
}

/// Draws decimal digit `glyph` (3 x 5 cells of 2 x 2 pixels) with its
/// top-left corner at (`x`, `y`); any other `glyph` draws nothing.
pub fn draw_glyph(pixels: &mut [u8], width: u32, height: u32, x: u32, y: u32, glyph: usize)
    requires
        glyph_in_range(glyph as int, x as int, y as int),
        paint_fits(old(pixels)@.len() as int, width as int, height as int, glyph_covers(glyph as int, x as int, y as int)),
    ensures
        final(pixels)@ == painted(old(pixels)@, width as int, height as int, glyph_covers(glyph as int, x as int, y as int)),
{
    let ghost w = width as int;
    let ghost h = height as int;
    let ghost g = glyph as int;
    let ghost s0 = pixels@;
    if glyph >= 10 {
        assert(pixels@ =~= painted(s0, w, h, glyph_covers(g, x as int, y as int)));
        return;
    }
    proof {
        lemma_paint_same(s0, w, h, no_pixels(), glyph_covers_before(g, x as int, y as int, 0, 0));
        assert(pixels@ =~= painted(s0, w, h, no_pixels()));
    }
    let mut row: usize = 0;
    while row < 5
        invariant
            glyph < 10,
            g == glyph,
            w == width,
            h == height,
            glyph_in_range(g, x as int, y as int),
            paint_fits(s0.len() as int, w, h, glyph_covers(g, x as int, y as int)),
            row <= 5,
            pixels@.len() == s0.len(),
            pixels@ == painted(s0, w, h, glyph_covers_before(g, x as int, y as int, row as int, 0)),
        decreases 5 - row,
    {
        let bits = glyph_row(glyph, row);
        let mut col: u32 = 0;
        while col < 3
            invariant
                glyph < 10,
                g == glyph,
                w == width,
                h == height,
                glyph_in_range(g, x as int, y as int),
                paint_fits(s0.len() as int, w, h, glyph_covers(g, x as int, y as int)),
                row < 5,
                col <= 3,
                bits == glyph_rows(g)[row as int],
                pixels@.len() == s0.len(),
                pixels@ == painted(s0, w, h, glyph_covers_before(g, x as int, y as int, row as int, col as int)),
            decreases 3 - col,
        {
            let ghost before = glyph_covers_before(g, x as int, y as int, row as int, col as int);
            let ghost after = glyph_covers_before(g, x as int, y as int, row as int, col + 1);
            if bits & (1 << (2 - col)) == 0 {
                proof {
                    assert(!glyph_lit(g, row as int, col));
                    assert forall|px: int, py: int| #[trigger] before(px, py) == #[trigger] after(px, py) by {
                        if after(px, py) && !before(px, py) {
                            assert((py - y) / 3 == row && (px - x) / 3 == col);
                        }
                    }
                    lemma_paint_same(s0, w, h, before, after);
                }
                col += 1;
                continue;
            }
            proof {
                assert(glyph_lit(g, row as int, col));
            }
            let bx = x + col * 3;
            let by = y + row as u32 * 3;
            let ghost block = block_covers(bx as int, by as int);
            proof {
                assert forall|px: int, py: int|
                    0 <= px < w && 0 <= py < h && #[trigger] block(px, py) implies (py * w + px) * 4 + 4 <= s0.len() by {
                    assert(glyph_covers(g, x as int, y as int)(px, py));
                }
            }
            draw_block(pixels, width, height, bx, by);
            proof {
                lemma_paint_twice(s0, w, h, before, block);
                assert forall|px: int, py: int| #[trigger] either(before, block)(px, py) == #[trigger] after(px, py) by {
                    if block(px, py) {
                        assert((px - x) / 3 == col && (py - y) / 3 == row);
                    }
                    if after(px, py) && !before(px, py) {
                        assert((py - y) / 3 == row && (px - x) / 3 == col);
                    }
                }
                lemma_paint_same(s0, w, h, either(before, block), after);
            }
            col += 1;
        }
        proof {
            lemma_paint_same(
                s0,
                w,
                h,
                glyph_covers_before(g, x as int, y as int, row as int, 3),
                glyph_covers_before(g, x as int, y as int, row + 1, 0),
            );
        }
        row += 1;
    }
    proof {
        lemma_paint_same(s0, w, h, glyph_covers_before(g, x as int, y as int, 5, 0), glyph_covers(g, x as int, y as int));
    }
}


/// The pixels that `draw_label` paints for the digit values `digits` at
/// (`x`, `y`): digit `i` is drawn as a glyph at (`x + 12 i`, `y`).
pub open spec fn label_covers(digits: Seq<u8>, x: int, y: int) -> spec_fn(int, int) -> bool {
    |px: int, py: int|
        x <= px && (px - x) / 12 < digits.len() && glyph_covers(
            digits[(px - x) / 12] as int,
            x + 12 * ((px - x) / 12),
            y,
        )(px, py)
}

/// The pixels of the first `count` digits of the label.
pub open spec fn label_covers_before(digits: Seq<u8>, x: int, y: int, count: int) -> spec_fn(int, int) -> bool {
    |px: int, py: int| label_covers(digits, x, y)(px, py) && (px - x) / 12 < count
}

/// No coordinate computed while drawing the label overflows a `u32`.
pub open spec fn label_in_range(digits: Seq<u8>, x: int, y: int) -> bool {
    &&& x + 12 * digits.len() <= u32::MAX
    &&& forall|i: int| 0 <= i < digits.len() ==> glyph_in_range(#[trigger] digits[i] as int, x + 12 * i, y)
}

/// Lemma: a label of `digits` fits the `u32` range when its last advance and
/// its bottom row do.
pub proof fn lemma_label_in_range(digits: Seq<u8>, x: int, y: int)
    requires
        x + 12 * digits.len() <= u32::MAX,
        y + 13 <= u32::MAX,
    ensures
        label_in_range(digits, x, y),
{
    assert forall|i: int| 0 <= i < digits.len() implies glyph_in_range(#[trigger] digits[i] as int, x + 12 * i, y) by {
        assert forall|row: int, col: u32| #[trigger] glyph_lit(digits[i] as int, row, col) implies x + 12 * i + 3 * col + 1
            <= u32::MAX && y + 3 * row + 1 <= u32::MAX by {
            assert(x + 12 * i + 12 <= x + 12 * digits.len()) by (nonlinear_arith)
                requires
                    0 <= i < digits.len(),
            ;
        }
    }
}

/// A pixel of the glyph drawn at `x + 12 i` lies in the `i`-th 12-pixel cell.
proof fn lemma_glyph_cell(glyph: int, x: int, y: int, i: int, px: int, py: int)
    requires
        0 <= i,
        glyph_covers(glyph, x + 12 * i, y)(px, py),
    ensures
        x <= px,
        (px - x) / 12 == i,
{
    let q = px - (x + 12 * i);
    vstd::arithmetic::div_mod::lemma_fundamental_div_mod(q, 3);
    assert(q < 12);
    vstd::arithmetic::div_mod::lemma_fundamental_div_mod_converse(px - x, 12, i, q);
}

/// Draws the decimal digits of `value` with the first digit's top-left corner
/// at (`x`, `y`), advancing 12 pixels per digit.
pub fn draw_label(pixels: &mut [u8], width: u32, height: u32, x: u32, y: u32, value: usize)
    requires
        label_in_range(decimal_values(value as nat), x as int, y as int),
        paint_fits(
            old(pixels)@.len() as int,
            width as int,
            height as int,
            label_covers(decimal_values(value as nat), x as int, y as int),
        ),
    ensures
        final(pixels)@ == painted(
            old(pixels)@,
            width as int,
            height as int,
            label_covers(decimal_values(value as nat), x as int, y as int),
        ),
{
    let ghost w = width as int;
    let ghost h = height as int;
    let ghost s0 = pixels@;
    let digits = decimal_digit_values(value as u64);
    let ghost ds = digits@;
    proof {
        lemma_decimal_values(value as nat);
        lemma_paint_same(s0, w, h, no_pixels(), label_covers_before(ds, x as int, y as int, 0));
        assert(pixels@ =~= painted(s0, w, h, no_pixels()));
    }
    let mut cursor = x;
    let mut i: usize = 0;
    while i < digits.len()
        invariant
            ds == digits@,
            ds == decimal_values(value as nat),
            forall|j: int| 0 <= j < ds.len() ==> #[trigger] ds[j] < 10,
            w == width,
            h == height,
            label_in_range(ds, x as int, y as int),
            paint_fits(s0.len() as int, w, h, label_covers(ds, x as int, y as int)),
            i <= ds.len(),
            cursor == x + 12 * i,
            pixels@.len() == s0.len(),
            pixels@ == painted(s0, w, h, label_covers_before(ds, x as int, y as int, i as int)),
        decreases ds.len() - i,
    {
        let glyph = digits[i] as usize;
        let ghost before = label_covers_before(ds, x as int, y as int, i as int);
        let ghost after = label_covers_before(ds, x as int, y as int, i + 1);
        let ghost gl = glyph_covers(glyph as int, cursor as int, y as int);
        proof {
            assert(glyph_in_range(ds[i as int] as int, x + 12 * i, y as int));
            assert forall|px: int, py: int|
                0 <= px < w && 0 <= py < h && #[trigger] gl(px, py) implies (py * w + px) * 4 + 4 <= s0.len() by {
                lemma_glyph_cell(glyph as int, x as int, y as int, i as int, px, py);
                assert(label_covers(ds, x as int, y as int)(px, py));
            }
        }
        draw_glyph(pixels, width, height, cursor, y, glyph);
        proof {
            lemma_paint_twice(s0, w, h, before, gl);
            assert forall|px: int, py: int| #[trigger] either(before, gl)(px, py) == #[trigger] after(px, py) by {
                if gl(px, py) {
                    lemma_glyph_cell(glyph as int, x as int, y as int, i as int, px, py);
                }
            }
            lemma_paint_same(s0, w, h, either(before, gl), after);
            assert(x + 12 * (i + 1) <= x + 12 * ds.len()) by (nonlinear_arith)
                requires
                    i < ds.len(),
            ;
        }
        cursor += 12;
        i += 1;
    }
    proof {
        lemma_paint_same(
            s0,
            w,
            h,
            label_covers_before(ds, x as int, y as int, ds.len() as int),
            label_covers(ds, x as int, y as int),
        );
    }
}


/// Columns that `blit_rgba` copies: the source width, clipped to the room
/// right of `dst_x`.
pub open spec fn blit_columns(dst_width: int, src_width: int, dst_x: int) -> int {
    let room = if dst_x < dst_width { dst_width - dst_x } else { 0 };
    if src_width < room { src_width } else { room }
}

/// Rows that `blit_rgba` copies: the source height, clipped to the room
/// below `dst_y`.
pub open spec fn blit_rows(dst_height: int, src_height: int, dst_y: int) -> int {
    let room = if dst_y < dst_height { dst_height - dst_y } else { 0 };
    if src_height < room { src_height } else { room }
}

/// Every row that `blit_rgba` copies lies inside both buffers.
pub open spec fn blit_fits(
    dst_len: int,
    dst_width: int,
    dst_height: int,
    src_len: int,
    src_width: int,
    src_height: int,
    dst_x: int,
    dst_y: int,
) -> bool {
    let columns = blit_columns(dst_width, src_width, dst_x);
    let rows = blit_rows(dst_height, src_height, dst_y);
    rows == 0 || (((dst_y + rows - 1) * dst_width + dst_x) * 4 + 4 * columns <= dst_len && (rows - 1)
        * src_width * 4 + 4 * columns <= src_len)
}

/// The destination after the first `rows` copied rows, and the first
/// `bytes` bytes of the next one, have been copied from the source.
pub open spec fn blit_partial(
    dst: Seq<u8>,
    dst_width: int,
    dst_height: int,
    src: Seq<u8>,
    src_width: int,
    src_height: int,
    dst_x: int,
    dst_y: int,
    rows: int,
    bytes: int,
) -> Seq<u8> {
    let columns = blit_columns(dst_width, src_width, dst_x);
    Seq::new(
        dst.len(),
        |k: int|
            {
                let row = k / (4 * dst_width) - dst_y;
                let offset = k % (4 * dst_width) - 4 * dst_x;
                if columns > 0 && 0 <= row && 0 <= offset < 4 * columns && (row < rows || (row == rows
                    && offset < bytes)) {
                    src[row * src_width * 4 + offset]
                } else {
                    dst[k]
                }
            },
    )
}

/// `dst` (`dst_width` x `dst_height` RGBA pixels) with the
/// `src_width` x `src_height` image `src` copied in at (`dst_x`, `dst_y`),
/// clipped to the right and bottom edges of `dst`.
pub open spec fn blitted(
    dst: Seq<u8>,
    dst_width: int,
    dst_height: int,
    src: Seq<u8>,
    src_width: int,
    src_height: int,
    dst_x: int,
    dst_y: int,
) -> Seq<u8> {
    blit_partial(
        dst,
        dst_width,
        dst_height,
        src,
        src_width,
        src_height,
        dst_x,
        dst_y,
        blit_rows(dst_height, src_height, dst_y),
        0,
    )
}

/// Byte `(row_start * width + x) * 4 + c` of a row-major image lies in image
/// row `row_start` at byte offset `4 x + c` within the row.
proof fn lemma_row_offset(width: int, row: int, x: int, c: int, k: int)
    requires
        0 <= row,
        0 <= x,
        0 <= c,
        4 * x + c < 4 * width,
        k == (row * width + x) * 4 + c,
    ensures
        k / (4 * width) == row,
        k % (4 * width) == 4 * x + c,
{
    assert(k == row * (4 * width) + (4 * x + c)) by (nonlinear_arith)
        requires
            k == (row * width + x) * 4 + c,
    ;
    vstd::arithmetic::div_mod::lemma_fundamental_div_mod_converse(k, 4 * width, row, 4 * x + c);
}

/// Copies the `src_width` x `src_height` RGBA image `src` into `dst`
/// (`dst_width` x `dst_height`) at (`dst_x`, `dst_y`), clipping what falls
/// past the right or bottom edge.
pub fn blit_rgba(
    dst: &mut [u8],
    dst_width: u32,
    dst_height: u32,
    src: &[u8],
    src_width: u32,
    src_height: u32,
    dst_x: u32,
    dst_y: u32,
)
    requires
        blit_fits(
            old(dst)@.len() as int,
            dst_width as int,
            dst_height as int,
            src@.len() as int,
            src_width as int,
            src_height as int,
            dst_x as int,
            dst_y as int,
        ),
    ensures
        final(dst)@ == blitted(
            old(dst)@,
            dst_width as int,
            dst_height as int,
            src@,
            src_width as int,
            src_height as int,
            dst_x as int,
            dst_y as int,
        ),
{
    let ghost d0 = dst@;
    let ghost dw = dst_width as int;
    let ghost sw = src_width as int;
    let room_x = if dst_x < dst_width { dst_width - dst_x } else { 0 };
    let room_y = if dst_y < dst_height { dst_height - dst_y } else { 0 };
    let copy_width = (if src_width < room_x { src_width } else { room_x }) as usize;
    let copy_height = (if src_height < room_y { src_height } else { room_y }) as usize;
    let ghost columns = copy_width as int;
    let ghost rows = copy_height as int;
    let dst_len = dst.len();
    let src_len = src.len();
    proof {
        assert(dst@ =~= blit_partial(d0, dw, dst_height as int, src@, sw, src_height as int, dst_x as int, dst_y as int, 0, 0));
    }
    let mut y: usize = 0;
    while y < copy_height
        invariant
            y <= copy_height,
            columns == copy_width,
            rows == copy_height,
            columns == blit_columns(dw, sw, dst_x as int),
            rows == blit_rows(dst_height as int, src_height as int, dst_y as int),
            dw == dst_width,
            sw == src_width,
            dst_len == d0.len(),
            src_len == src@.len(),
            blit_fits(d0.len() as int, dw, dst_height as int, src@.len() as int, sw, src_height as int, dst_x as int, dst_y as int),
            dst@.len() == d0.len(),
            dst@ == blit_partial(d0, dw, dst_height as int, src@, sw, src_height as int, dst_x as int, dst_y as int, y as int, 0),
        decreases copy_height - y,
    {
        proof {
            assert(((dst_y + y) * dw + dst_x) * 4 + 4 * columns <= ((dst_y + rows - 1) * dw + dst_x) * 4 + 4 * columns) by (nonlinear_arith)
                requires
                    y <= rows - 1,
                    0 <= dw,
            ;
            assert(y * sw * 4 + 4 * columns <= (rows - 1) * sw * 4 + 4 * columns) by (nonlinear_arith)
                requires
                    y <= rows - 1,
                    0 <= sw,
            ;
        }
        let src_start = y * src_width as usize * 4;
        let dst_start = ((dst_y as usize + y) * dst_width as usize + dst_x as usize) * 4;
        let byte_count = copy_width * 4;
        let mut c: usize = 0;
        while c < byte_count
            invariant
                y < copy_height,
                c <= byte_count,
                byte_count == 4 * columns,
                columns == copy_width,
                rows == copy_height,
                columns == blit_columns(dw, sw, dst_x as int),
                rows == blit_rows(dst_height as int, src_height as int, dst_y as int),
                dw == dst_width,
                sw == src_width,
                src_start == y * sw * 4,
                dst_start == ((dst_y + y) * dw + dst_x) * 4,
                dst_start + byte_count <= d0.len(),
                src_start + byte_count <= src@.len(),
                dst_len == d0.len(),
                src_len == src@.len(),
                dst@.len() == d0.len(),
                dst@ == blit_partial(d0, dw, dst_height as int, src@, sw, src_height as int, dst_x as int, dst_y as int, y as int, c as int),
            decreases byte_count - c,
        {
            let ghost before = dst@;
            dst[dst_start + c] = src[src_start + c];
            proof {
                let k = dst_start + c;
                lemma_row_offset(dw, dst_y + y, dst_x as int, c as int, k);
                assert forall|j: int| 0 <= j < dst@.len() implies #[trigger] dst@[j] == blit_partial(
                    d0,
                    dw,
                    dst_height as int,
                    src@,
                    sw,
                    src_height as int,
                    dst_x as int,
                    dst_y as int,
                    y as int,
                    c + 1,
                )[j] by {
                    if j != k {
                        assert(dst@[j] == before[j]);
                        if j / (4 * dw) - dst_y == y && j % (4 * dw) - 4 * dst_x == c {
                            vstd::arithmetic::div_mod::lemma_fundamental_div_mod(j, 4 * dw);
                            assert(j == (4 * dw) * (dst_y + y) + 4 * dst_x + c);
                            assert(j == k) by (nonlinear_arith)
                                requires
                                    j == (4 * dw) * (dst_y + y) + 4 * dst_x + c,
                                    k == ((dst_y + y) * dw + dst_x) * 4 + c,
                            ;
                        }
                    }
                }
                assert(dst@ =~= blit_partial(d0, dw, dst_height as int, src@, sw, src_height as int, dst_x as int, dst_y as int, y as int, c + 1));
            }
            c += 1;
        }
        proof {
            assert(dst@ =~= blit_partial(d0, dw, dst_height as int, src@, sw, src_height as int, dst_x as int, dst_y as int, y + 1, 0));
        }
        y += 1;
    }
}


/// The image that `convert_linear_readback` builds from GPU rows of
/// `padded_bytes_per_row` bytes: each color byte `b` becomes `srgb[b]` and
/// alpha becomes opaque.
pub open spec fn converted_readback(readback: Seq<u8>, width: int, height: int, padded_bytes_per_row: int, srgb: Seq<u8>) -> Seq<u8> {
    Seq::new(
        (width * height * 4) as nat,
        |k: int|
            {
                let x = pixel_x(k, width);
                let y = pixel_y(k, width);
                if k % 4 == 3 {
                    255u8
                } else {
                    srgb[readback[y * padded_bytes_per_row + 4 * x + k % 4] as int]
                }
            },
    )
}

/// Byte `((y * width) + x) * 4 + c` of a row-major image holds channel `c`
/// of pixel (`x`, `y`).
proof fn lemma_pixel_channel(width: int, x: int, y: int, c: int)
    requires
        0 <= x < width,
        0 <= y,
        0 <= c < 4,
    ensures
        pixel_x((y * width + x) * 4 + c, width) == x,
        pixel_y((y * width + x) * 4 + c, width) == y,
        ((y * width + x) * 4 + c) % 4 == c,
{
    let p = y * width + x;
    assert(0 <= y * width) by (nonlinear_arith)
        requires
            0 <= y,
            0 <= width,
    ;
    vstd::arithmetic::div_mod::lemma_fundamental_div_mod_converse(p * 4 + c, 4, p, c);
    vstd::arithmetic::div_mod::lemma_fundamental_div_mod_converse(p, width, y, x);
}

/// Law: the converted image is packed row-major, four bytes per pixel:
/// channel `c < 3` of pixel (`x`, `y`) is the table entry of the readback
/// byte at `y * padded_bytes_per_row + 4 * x + c`, and its alpha is opaque.
pub proof fn lemma_readback_layout(readback: Seq<u8>, width: int, height: int, padded_bytes_per_row: int, srgb: Seq<u8>)
    requires
        0 <= width,
        0 <= height,
    ensures
        converted_readback(readback, width, height, padded_bytes_per_row, srgb).len() == width * height * 4,
        forall|y: int, x: int, c: int|
            0 <= y < height && 0 <= x < width && 0 <= c < 3 ==> #[trigger] converted_readback(
                readback,
                width,
                height,
                padded_bytes_per_row,
                srgb,
            )[(y * width + x) * 4 + c] == srgb[readback[y * padded_bytes_per_row + 4 * x + c] as int],
        forall|y: int, x: int|
            0 <= y < height && 0 <= x < width ==> #[trigger] converted_readback(
                readback,
                width,
                height,
                padded_bytes_per_row,
                srgb,
            )[(y * width + x) * 4 + 3] == 255,
{
    assert(0 <= width * height * 4) by (nonlinear_arith)
        requires
            0 <= width,
            0 <= height,
    ;
    let img = converted_readback(readback, width, height, padded_bytes_per_row, srgb);
    assert forall|y: int, x: int, c: int| 0 <= y < height && 0 <= x < width && 0 <= c < 3 implies #[trigger] img[(y
        * width + x) * 4 + c] == srgb[readback[y * padded_bytes_per_row + 4 * x + c] as int] by {
        lemma_pixel_channel(width, x, y, c);
        assert(0 <= (y * width + x) * 4 + c < width * height * 4) by (nonlinear_arith)
            requires
                0 <= y < height,
                0 <= x < width,
                0 <= c < 4,
        ;
    }
    assert forall|y: int, x: int| 0 <= y < height && 0 <= x < width implies #[trigger] img[(y * width + x) * 4 + 3]
        == 255 by {
        lemma_pixel_channel(width, x, y, 3);
        assert(0 <= (y * width + x) * 4 + 3 < width * height * 4) by (nonlinear_arith)
            requires
                0 <= y < height,
                0 <= x < width,
        ;
    }
}

/// Converts a GPU readback of `height` rows, each `padded_bytes_per_row`
/// bytes apart, into a tightly packed `width` x `height` RGBA image: every
/// color byte is mapped through the linear-to-sRGB table `srgb`, and alpha is
/// set to 255.
pub fn convert_linear_readback(
    readback: &[u8],
    width: u32,
    height: u32,
    unpadded_bytes_per_row: usize,
    padded_bytes_per_row: usize,
    srgb: &[u8; 256],
) -> (pixels: Vec<u8>)
    requires
        width * height * 4 <= usize::MAX,
        height == 0 || (unpadded_bytes_per_row == 4 * width && (height - 1) * padded_bytes_per_row
            + unpadded_bytes_per_row <= readback@.len()),
    ensures
        pixels@ == converted_readback(readback@, width as int, height as int, padded_bytes_per_row as int, srgb@),
        pixels@.len() == width * height * 4,
        forall|y: int, x: int, c: int|
            0 <= y < height && 0 <= x < width && 0 <= c < 3 ==> #[trigger] pixels@[(y * width + x) * 4 + c]
                == srgb@[readback@[y * padded_bytes_per_row + 4 * x + c] as int],
        forall|y: int, x: int| 0 <= y < height && 0 <= x < width ==> #[trigger] pixels@[(y * width + x) * 4 + 3] == 255,
{
    let ghost w = width as int;
    let ghost h = height as int;
    let ghost pb = padded_bytes_per_row as int;
    let w_px = width as usize;
    let h_px = height as usize;
    let rb_len = readback.len();
    let mut pixels: Vec<u8> = Vec::new();
    let mut y: usize = 0;
    while y < h_px
        invariant
            w == width,
            h == height,
            pb == padded_bytes_per_row,
            w_px == width,
            h_px == height,
            w * h * 4 <= usize::MAX,
            h_px == 0 || (unpadded_bytes_per_row == 4 * w && (h - 1) * pb + unpadded_bytes_per_row <= readback@.len()),
            rb_len == readback@.len(),
            y <= h_px,
            pixels@.len() == y * w * 4,
            forall|k: int| 0 <= k < pixels@.len() ==> #[trigger] pixels@[k] == converted_readback(readback@, w, h, pb, srgb@)[k],
        decreases h_px - y,
    {
        proof {
            assert(y * pb + 4 * w <= (h - 1) * pb + 4 * w) by (nonlinear_arith)
                requires
                    y <= h - 1,
                    0 <= pb,
            ;
            assert((y + 1) * w * 4 <= h * w * 4) by (nonlinear_arith)
                requires
                    y + 1 <= h,
                    0 <= w,
            ;
        }
        let row_start = y * padded_bytes_per_row;
        let mut x: usize = 0;
        while x < w_px
            invariant
                w == width,
                h == height,
                pb == padded_bytes_per_row,
                w_px == width,
                h_px == height,
                w * h * 4 <= usize::MAX,
                y < h_px,
                unpadded_bytes_per_row == 4 * w,
                row_start == y * pb,
                row_start + 4 * w <= readback@.len(),
                rb_len == readback@.len(),
                (y + 1) * w * 4 <= h * w * 4,
                x <= w_px,
                pixels@.len() == (y * w + x) * 4,
                forall|k: int| 0 <= k < pixels@.len() ==> #[trigger] pixels@[k] == converted_readback(readback@, w, h, pb, srgb@)[k],
            decreases w_px - x,
        {
            proof {
                assert((y * w + x) * 4 + 4 <= (y + 1) * w * 4) by (nonlinear_arith)
                    requires
                        x < w,
                ;
                assert(h * w * 4 == w * h * 4) by (nonlinear_arith);
            }
            let src = row_start + x * 4;
            let ghost before = pixels@;
            pixels.push(srgb[readback[src] as usize]);
            pixels.push(srgb[readback[src + 1] as usize]);
            pixels.push(srgb[readback[src + 2] as usize]);
            pixels.push(255);
            proof {
                assert forall|k: int| 0 <= k < pixels@.len() implies #[trigger] pixels@[k] == converted_readback(
                    readback@,
                    w,
                    h,
                    pb,
                    srgb@,
                )[k] by {
                    if k >= before.len() {
                        lemma_pixel_channel(w, x as int, y as int, k - before.len());
                    } else {
                        assert(pixels@[k] == before[k]);
                    }
                }
                assert((y * w + x + 1) * 4 == (y * w + x) * 4 + 4);
            }
            x += 1;
        }
        proof {
            assert(y * w + w == (y + 1) * w) by (nonlinear_arith);
        }
        y += 1;
    }
    proof {
        assert(h * w * 4 == w * h * 4) by (nonlinear_arith);
        assert(pixels@ =~= converted_readback(readback@, w, h, pb, srgb@));
        lemma_readback_layout(readback@, w, h, pb, srgb@);
    }
    pixels
}

/// `value` rounded up to the next multiple of `alignment`.
pub open spec fn aligned_up(value: int, alignment: int) -> int {
    ((value + alignment - 1) / alignment) * alignment
}

/// Rounds `value` up to the next multiple of `alignment`.
pub fn align_to(value: u32, alignment: u32) -> (r: u32)
    requires
        alignment > 0,
        aligned_up(value as int, alignment as int) <= u32::MAX,
    ensures
        r == aligned_up(value as int, alignment as int),
        r % alignment == 0,
        value <= r < value + alignment,
{
    let whole = value / alignment;
    proof {
        let a = alignment as int;
        let v = value as int;
        vstd::arithmetic::div_mod::lemma_fundamental_div_mod(v, a);
        assert((v / a + 1) * a == a * (v / a) + a) by (nonlinear_arith);
        assert((v / a) * a == a * (v / a)) by (nonlinear_arith);
        if v % a == 0 {
            vstd::arithmetic::div_mod::lemma_fundamental_div_mod_converse(v + a - 1, a, v / a, a - 1);
        } else {
            vstd::arithmetic::div_mod::lemma_fundamental_div_mod_converse(v + a - 1, a, v / a + 1, v % a - 1);
            assert((v / a + 1) * a <= u32::MAX);
            assert(v / a + 1 <= (v / a + 1) * a) by (nonlinear_arith)
                requires
                    a >= 1,
                    v / a + 1 >= 0,
            ;
        }
    }
    let blocks = if value % alignment == 0 { whole } else { whole + 1 };
    proof {
        let a = alignment as int;
        assert(blocks * a == aligned_up(value as int, a));
        vstd::arithmetic::div_mod::lemma_mod_multiples_basic(blocks as int, a);
        vstd::arithmetic::mul::lemma_mul_is_commutative(blocks as int, a);
    }
    blocks * alignment
}


/// The little-endian bytes of the 32-bit value `v`.
pub open spec fn le32_bytes(v: int) -> Seq<u8> {
    seq![(v % 256) as u8, ((v / 256) % 256) as u8, ((v / 65536) % 256) as u8, ((v / 16777216) % 256) as u8]
}

/// The little-endian bytes of the 16-bit value `v`.
pub open spec fn le16_bytes(v: int) -> Seq<u8> {
    seq![(v % 256) as u8, ((v / 256) % 256) as u8]
}

/// The 54-byte header of a top-down 32-bit BMP of `width` x `height`
/// pixels: file header, then a BITMAPINFOHEADER with a negative height,
/// no compression and 2835 pixels per metre.
pub open spec fn bmp_header(width: int, height: int) -> Seq<u8> {
    let pixel_bytes = width * 4 * height;
    seq![66u8, 77u8] + le32_bytes(54 + pixel_bytes) + le32_bytes(0) + le32_bytes(54) + le32_bytes(40)
        + le32_bytes(width) + le32_bytes((0x1_0000_0000 - height) % 0x1_0000_0000) + le16_bytes(1)
        + le16_bytes(32) + le32_bytes(0) + le32_bytes(pixel_bytes) + le32_bytes(2835) + le32_bytes(
        2835,
    ) + le32_bytes(0) + le32_bytes(0)
}

/// Position within its pixel of the byte that lands at position `channel`
/// of a BGRA pixel.
pub open spec fn bgra_source(channel: int) -> int {
    if channel == 0 {
        2
    } else if channel == 2 {
        0
    } else {
        channel
    }
}

/// The RGBA bytes `rgba` reordered pixel by pixel into BGRA.
pub open spec fn bgra_pixels(rgba: Seq<u8>) -> Seq<u8> {
    Seq::new(rgba.len(), |k: int| rgba[k - k % 4 + bgra_source(k % 4)])
}

/// Reading back the little-endian bytes of a 32-bit value gives the value.
proof fn lemma_le32_round_trip(v: int)
    requires
        0 <= v < 0x1_0000_0000,
    ensures
        le32(le32_bytes(v)) == v,
{
    vstd::arithmetic::div_mod::lemma_fundamental_div_mod(v, 256);
    vstd::arithmetic::div_mod::lemma_fundamental_div_mod(v / 256, 256);
    vstd::arithmetic::div_mod::lemma_fundamental_div_mod(v / 65536, 256);
    vstd::arithmetic::div_mod::lemma_div_denominator(v, 256, 256);
    vstd::arithmetic::div_mod::lemma_div_denominator(v, 65536, 256);
    vstd::arithmetic::div_mod::lemma_div_pos_is_pos(v, 16777216);
    vstd::arithmetic::div_mod::lemma_multiply_divide_lt(v, 16777216, 256);
    vstd::arithmetic::div_mod::lemma_small_mod((v / 16777216) as nat, 256);
    vstd::arithmetic::div_mod::lemma_mod_bound(v, 256);
    vstd::arithmetic::div_mod::lemma_mod_bound(v / 256, 256);
    vstd::arithmetic::div_mod::lemma_mod_bound(v / 65536, 256);
    vstd::arithmetic::div_mod::lemma_div_pos_is_pos(v, 256);
    vstd::arithmetic::div_mod::lemma_div_pos_is_pos(v, 65536);
}

/// Reading back the little-endian bytes of a 16-bit value gives the value.
proof fn lemma_le16_round_trip(v: int)
    requires
        0 <= v < 0x1_0000,
    ensures
        le16(le16_bytes(v)) == v,
{
    vstd::arithmetic::div_mod::lemma_fundamental_div_mod(v, 256);
    vstd::arithmetic::div_mod::lemma_div_pos_is_pos(v, 256);
    vstd::arithmetic::div_mod::lemma_multiply_divide_lt(v, 256, 256);
    vstd::arithmetic::div_mod::lemma_small_mod((v / 256) as nat, 256);
    vstd::arithmetic::div_mod::lemma_mod_bound(v, 256);
}

/// Law: decoding the header field by field gives what a top-down 32-bit
/// BMP declares: the `BM` signature, the file size (header plus pixels),
/// pixel data at offset 54, a 40-byte info header, the width, the height
/// negated (rows run top to bottom), one plane, 32 bits per pixel, no
/// compression (`BI_RGB`), the pixel byte count, 2835 pixels per metre both
/// ways, and no palette.
pub proof fn lemma_bmp_header_fields(width: int, height: int)
    requires
        0 <= width <= u32::MAX,
        0 <= height <= u32::MAX,
        54 + width * 4 * height <= u32::MAX,
    ensures
        ({
            let h = bmp_header(width, height);
            &&& h.len() == 54
            &&& h[0] == 66 && h[1] == 77
            &&& le32(h.subrange(2, 6)) == 54 + width * 4 * height
            &&& le32(h.subrange(6, 10)) == 0
            &&& le32(h.subrange(10, 14)) == 54
            &&& le32(h.subrange(14, 18)) == 40
            &&& le32(h.subrange(18, 22)) == width
            &&& (le32(h.subrange(22, 26)) + height) % 0x1_0000_0000 == 0
            &&& le16(h.subrange(26, 28)) == 1
            &&& le16(h.subrange(28, 30)) == 32
            &&& le32(h.subrange(30, 34)) == 0
            &&& h[30] == 0 && h[31] == 0 && h[32] == 0 && h[33] == 0
            &&& le32(h.subrange(34, 38)) == width * 4 * height
            &&& le32(h.subrange(38, 42)) == 2835
            &&& le32(h.subrange(42, 46)) == 2835
            &&& le32(h.subrange(46, 50)) == 0
            &&& le32(h.subrange(50, 54)) == 0
        }),
{
    let pixel_bytes = width * 4 * height;
    assert(0 <= pixel_bytes) by (nonlinear_arith)
        requires
            pixel_bytes == width * 4 * height,
            0 <= width,
            0 <= height,
    ;
    let negated = (0x1_0000_0000 - height) % 0x1_0000_0000;
    if height == 0 {
        assert(negated == 0);
    } else {
        vstd::arithmetic::div_mod::lemma_small_mod((0x1_0000_0000 - height) as nat, 0x1_0000_0000);
    }
    let h = bmp_header(width, height);
    lemma_bmp_header_pieces(width, height);
    lemma_field32(h, 2, 54 + pixel_bytes);
    lemma_field32(h, 6, 0);
    lemma_field32(h, 10, 54);
    lemma_field32(h, 14, 40);
    lemma_field32(h, 18, width);
    lemma_field32(h, 22, negated);
    lemma_field16(h, 26, 1);
    lemma_field16(h, 28, 32);
    lemma_field32(h, 30, 0);
    lemma_field32(h, 34, pixel_bytes);
    lemma_field32(h, 38, 2835);
    lemma_field32(h, 42, 2835);
    lemma_field32(h, 46, 0);
    lemma_field32(h, 50, 0);
}

/// The header is its fields laid end to end.
proof fn lemma_bmp_header_pieces(width: int, height: int)
    ensures
        ({
            let h = bmp_header(width, height);
            let pixel_bytes = width * 4 * height;
            &&& h.len() == 54
            &&& h[0] == 66 && h[1] == 77
            &&& h.subrange(2, 6) == le32_bytes(54 + pixel_bytes)
            &&& h.subrange(6, 10) == le32_bytes(0)
            &&& h.subrange(10, 14) == le32_bytes(54)
            &&& h.subrange(14, 18) == le32_bytes(40)
            &&& h.subrange(18, 22) == le32_bytes(width)
            &&& h.subrange(22, 26) == le32_bytes((0x1_0000_0000 - height) % 0x1_0000_0000)
            &&& h.subrange(26, 28) == le16_bytes(1)
            &&& h.subrange(28, 30) == le16_bytes(32)
            &&& h.subrange(30, 34) == le32_bytes(0)
            &&& h.subrange(34, 38) == le32_bytes(pixel_bytes)
            &&& h.subrange(38, 42) == le32_bytes(2835)
            &&& h.subrange(42, 46) == le32_bytes(2835)
            &&& h.subrange(46, 50) == le32_bytes(0)
            &&& h.subrange(50, 54) == le32_bytes(0)
        }),
{
    let h = bmp_header(width, height);
    let pixel_bytes = width * 4 * height;
    assert(h.subrange(2, 6) =~= le32_bytes(54 + pixel_bytes));
    assert(h.subrange(6, 10) =~= le32_bytes(0));
    assert(h.subrange(10, 14) =~= le32_bytes(54));
    assert(h.subrange(14, 18) =~= le32_bytes(40));
    assert(h.subrange(18, 22) =~= le32_bytes(width));
    assert(h.subrange(22, 26) =~= le32_bytes((0x1_0000_0000 - height) % 0x1_0000_0000));
    assert(h.subrange(26, 28) =~= le16_bytes(1));
    assert(h.subrange(28, 30) =~= le16_bytes(32));
    assert(h.subrange(30, 34) =~= le32_bytes(0));
    assert(h.subrange(34, 38) =~= le32_bytes(pixel_bytes));
    assert(h.subrange(38, 42) =~= le32_bytes(2835));
    assert(h.subrange(42, 46) =~= le32_bytes(2835));
    assert(h.subrange(46, 50) =~= le32_bytes(0));
    assert(h.subrange(50, 54) =~= le32_bytes(0));
}

/// A four-byte field holding the little-endian bytes of `v` reads back as `v`.
proof fn lemma_field32(h: Seq<u8>, start: int, v: int)
    requires
        0 <= v < 0x1_0000_0000,
        h.subrange(start, start + 4) == le32_bytes(v),
    ensures
        le32(h.subrange(start, start + 4)) == v,
{
    lemma_le32_round_trip(v);
}

/// A two-byte field holding the little-endian bytes of `v` reads back as `v`.
proof fn lemma_field16(h: Seq<u8>, start: int, v: int)
    requires
        0 <= v < 0x1_0000,
        h.subrange(start, start + 2) == le16_bytes(v),
    ensures
        le16(h.subrange(start, start + 2)) == v,
{
    lemma_le16_round_trip(v);
}

/// Law: the pixels follow the header in the order given, each with its red
/// and blue bytes swapped (RGBA in, BGRA out) and green and alpha in place.
pub proof fn lemma_bgra_order(rgba: Seq<u8>)
    requires
        rgba.len() % 4 == 0,
    ensures
        bgra_pixels(rgba).len() == rgba.len(),
        forall|p: int|
            0 <= p < rgba.len() / 4 ==> {
                &&& #[trigger] bgra_pixels(rgba)[4 * p] == rgba[4 * p + 2]
                &&& bgra_pixels(rgba)[4 * p + 1] == rgba[4 * p + 1]
                &&& bgra_pixels(rgba)[4 * p + 2] == rgba[4 * p]
                &&& bgra_pixels(rgba)[4 * p + 3] == rgba[4 * p + 3]
            },
{
    assert forall|p: int| 0 <= p < rgba.len() / 4 implies {
        &&& #[trigger] bgra_pixels(rgba)[4 * p] == rgba[4 * p + 2]
        &&& bgra_pixels(rgba)[4 * p + 1] == rgba[4 * p + 1]
        &&& bgra_pixels(rgba)[4 * p + 2] == rgba[4 * p]
        &&& bgra_pixels(rgba)[4 * p + 3] == rgba[4 * p + 3]
    } by {
        vstd::arithmetic::div_mod::lemma_fundamental_div_mod(rgba.len() as int, 4);
    }
}

/// Why an image cannot be written as a BMP.
#[derive(Clone, Copy, Debug, PartialEq, Eq, Structural)]
pub enum BmpError {
    /// `width * 4` does not fit in 32 bits.
    RowBytesOverflow,
    /// `width * 4 * height` does not fit in 32 bits.
    PixelBytesOverflow,
    /// The pixel bytes and the 54-byte header do not fit in 32 bits.
    FileSizeOverflow,
    /// The pixel buffer does not hold exactly `width * 4 * height` bytes.
    LengthMismatch { actual: usize, expected: usize },
}

/// The message a BMP refusal is reported with.
pub open spec fn bmp_error_message(e: BmpError) -> Seq<char> {
    match e {
        BmpError::RowBytesOverflow => "BMP row byte count overflowed"@,
        BmpError::PixelBytesOverflow => "BMP pixel byte count overflowed"@,
        BmpError::FileSizeOverflow => "BMP file size overflowed"@,
        BmpError::LengthMismatch { actual, expected } => "RGBA buffer has "@ + decimal_digits(actual as nat)
            + " bytes, expected "@ + decimal_digits(expected as nat),
    }
}

impl BmpError {
    /// The message this refusal is reported with.
    pub fn message(&self) -> (r: String)
        ensures
            r@ == bmp_error_message(*self),
    {
        match self {
            BmpError::RowBytesOverflow => String::from_str("BMP row byte count overflowed"),
            BmpError::PixelBytesOverflow => String::from_str("BMP pixel byte count overflowed"),
            BmpError::FileSizeOverflow => String::from_str("BMP file size overflowed"),
            BmpError::LengthMismatch { actual, expected } => {
                let mut m = String::from_str("RGBA buffer has ");
                let a = decimal_string(*actual as u64);
                m.append(a.as_str());
                m.append(" bytes, expected ");
                let e = decimal_string(*expected as u64);
                m.append(e.as_str());
                m
            },
        }
    }
}

/// The outcome of `bmp_bytes` on a `width` x `height` image of `len` bytes:
/// the first check that fails, or `None` when the image can be encoded.
pub open spec fn bmp_refusal(width: int, height: int, len: int) -> Option<BmpError> {
    if width * 4 > u32::MAX {
        Some(BmpError::RowBytesOverflow)
    } else if width * 4 * height > u32::MAX {
        Some(BmpError::PixelBytesOverflow)
    } else if 54 + width * 4 * height > u32::MAX {
        Some(BmpError::FileSizeOverflow)
    } else if len != width * 4 * height {
        Some(BmpError::LengthMismatch { actual: len as usize, expected: (width * 4 * height) as usize })
    } else {
        None
    }
}

/// Appends the little-endian bytes of `v`.
fn push_le32(out: &mut Vec<u8>, v: u32)
    ensures
        final(out)@ == old(out)@ + le32_bytes(v as int),
{
    out.push((v % 256) as u8);
    out.push(((v / 256) % 256) as u8);
    out.push(((v / 65536) % 256) as u8);
    out.push(((v / 16777216) % 256) as u8);
    assert(out@ =~= old(out)@ + le32_bytes(v as int));
}

/// Appends the little-endian bytes of `v`.
fn push_le16(out: &mut Vec<u8>, v: u16)
    ensures
        final(out)@ == old(out)@ + le16_bytes(v as int),
{
    out.push((v % 256) as u8);
    out.push(((v / 256) % 256) as u8);
    assert(out@ =~= old(out)@ + le16_bytes(v as int));
}

/// The BMP header of a `width` x `height` image.
fn bmp_header_bytes(width: u32, height: u32, file_size: u32, pixel_bytes: u32) -> (out: Vec<u8>)
    requires
        pixel_bytes == width * 4 * height,
        file_size == 54 + pixel_bytes,
    ensures
        out@ == bmp_header(width as int, height as int),
{
    let negated_height: u32 = if height == 0 { 0 } else { u32::MAX - height + 1 };
    let mut out: Vec<u8> = Vec::new();
    out.push(66);
    out.push(77);
    push_le32(&mut out, file_size);
    push_le32(&mut out, 0);
    push_le32(&mut out, 54);
    push_le32(&mut out, 40);
    push_le32(&mut out, width);
    push_le32(&mut out, negated_height);
    push_le16(&mut out, 1);
    push_le16(&mut out, 32);
    push_le32(&mut out, 0);
    push_le32(&mut out, pixel_bytes);
    push_le32(&mut out, 2835);
    push_le32(&mut out, 2835);
    push_le32(&mut out, 0);
    push_le32(&mut out, 0);
    assert(out@ =~= bmp_header(width as int, height as int));
    out
}

/// Appends the RGBA pixels of `rgba` in BGRA order.
fn push_bgra(out: &mut Vec<u8>, rgba: &[u8])
    requires
        rgba@.len() % 4 == 0,
    ensures
        final(out)@ == old(out)@ + bgra_pixels(rgba@),
{
    let ghost start = out@;
    let len = rgba.len();
    let n = len / 4;
    let mut p: usize = 0;
    while p < n
        invariant
            len == rgba@.len(),
            n == rgba@.len() / 4,
            4 * n == len,
            rgba@.len() % 4 == 0,
            p <= n,
            out@.len() == start.len() + 4 * p,
            forall|k: int| 0 <= k < start.len() ==> #[trigger] out@[k] == start[k],
            forall|k: int| 0 <= k < 4 * p ==> #[trigger] out@[start.len() + k] == bgra_pixels(rgba@)[k],
        decreases n - p,
    {
        let base = p * 4;
        let ghost before = out@;
        out.push(rgba[base + 2]);
        out.push(rgba[base + 1]);
        out.push(rgba[base]);
        out.push(rgba[base + 3]);
        proof {
            assert forall|k: int| 0 <= k < start.len() implies #[trigger] out@[k] == start[k] by {
                assert(out@[k] == before[k]);
            }
            assert forall|k: int| 0 <= k < 4 * (p + 1) implies #[trigger] out@[start.len() + k] == bgra_pixels(rgba@)[k] by {
                if k < 4 * p {
                    assert(out@[start.len() + k] == before[start.len() + k]);
                } else {
                    assert(k - k % 4 == base);
                }
            }
        }
        p += 1;
    }
    assert forall|k: int| 0 <= k < out@.len() implies #[trigger] out@[k] == (start + bgra_pixels(rgba@))[k] by {
        if k >= start.len() {
            assert(out@[start.len() + (k - start.len())] == bgra_pixels(rgba@)[k - start.len()]);
        }
    }
    assert(out@ =~= start + bgra_pixels(rgba@));
}

/// Encodes the `width` x `height` RGBA image `rgba` as a top-down 32-bit BMP
/// file.
pub fn bmp_bytes(width: u32, height: u32, rgba: &[u8]) -> (r: Result<Vec<u8>, BmpError>)
    ensures
        match r {
            Ok(bytes) => bmp_refusal(width as int, height as int, rgba@.len() as int).is_none() && bytes@
                == bmp_header(width as int, height as int) + bgra_pixels(rgba@),
            Err(e) => bmp_refusal(width as int, height as int, rgba@.len() as int) == Some(e),
        },
{
    let row_bytes = match width.checked_mul(4) {
        Some(v) => v,
        None => return Err(BmpError::RowBytesOverflow),
    };
    let pixel_bytes = match row_bytes.checked_mul(height) {
        Some(v) => v,
        None => return Err(BmpError::PixelBytesOverflow),
    };
    let file_size = match 54u32.checked_add(pixel_bytes) {
        Some(v) => v,
        None => return Err(BmpError::FileSizeOverflow),
    };
    let expected_len = pixel_bytes as usize;
    if rgba.len() != expected_len {
        return Err(BmpError::LengthMismatch { actual: rgba.len(), expected: expected_len });
    }
    proof {
        let wh = width as int * height as int;
        assert(width * 4 * height == 4 * wh) by (nonlinear_arith)
            requires
                wh == width as int * height as int,
        ;
        vstd::arithmetic::div_mod::lemma_mod_multiples_basic(wh, 4);
        vstd::arithmetic::mul::lemma_mul_is_commutative(wh, 4);
    }
    let mut out = bmp_header_bytes(width, height, file_size, pixel_bytes);
    push_bgra(&mut out, rgba);
    Ok(out)
}

} // verus!
