//! Layout of a contact sheet: one labelled tile per camera, in a grid.
use vstd::prelude::*;

use crate::headless::{
    blit_rgba, blitted, draw_label, fill_rgba, filled, label_covers, lemma_full_image_fits,
    lemma_label_in_range, painted,
};
use crate::text::decimal_values;

verus! {

/// Height of the label strip above each tile, in pixels.
pub const LABEL_HEIGHT: u32 = 24;

/// Where the tiles of a contact sheet go.
#[derive(Clone, Copy, Debug, PartialEq, Eq, Structural)]
pub struct SheetLayout {
    /// Width of one rendered tile.
    pub tile_width: u32,
    /// Height of one rendered tile.
    pub tile_height: u32,
    /// Tiles per row.
    pub columns: usize,
    /// Rows of tiles.
    pub rows: usize,
    /// Width of the sheet: `tile_width * columns`.
    pub sheet_width: u32,
    /// Vertical distance between tile rows: label strip plus tile.
    pub tile_stride_y: u32,
    /// Height of the sheet: `tile_stride_y * rows`.
    pub sheet_height: u32,
}

/// Why a contact sheet cannot be laid out.
#[derive(Clone, Copy, Debug, PartialEq, Eq, Structural)]
pub enum SheetError {
    /// The sheet is wider than 32 bits can count.
    WidthOverflow,
    /// A tile with its label strip is taller than 32 bits can count.
    TileHeightOverflow,
    /// The sheet is taller than 32 bits can count.
    HeightOverflow,
}

/// The message a layout refusal is reported with.
pub open spec fn sheet_error_message(e: SheetError) -> Seq<char> {
    match e {
        SheetError::WidthOverflow => "contact sheet width overflowed"@,
        SheetError::TileHeightOverflow => "contact sheet tile height overflowed"@,
        SheetError::HeightOverflow => "contact sheet height overflowed"@,
    }
}

impl SheetError {
    /// The message this refusal is reported with.
    pub fn message(&self) -> (r: String)
        ensures
            r@ == sheet_error_message(*self),
    {
        match self {
            SheetError::WidthOverflow => String::from_str("contact sheet width overflowed"),
            SheetError::TileHeightOverflow => String::from_str("contact sheet tile height overflowed"),
            SheetError::HeightOverflow => String::from_str("contact sheet height overflowed"),
        }
    }
}

/// `a` rounded up after division by `b`.
pub open spec fn ceil_div(a: int, b: int) -> int {
    (a + b - 1) / b
}

/// The tile size, column count and row count of a sheet for `camera_count`
/// cameras with at most `columns` tiles per row; sizes and counts are at
/// least one.
pub open spec fn sheet_grid(width: u32, height: u32, columns: usize, camera_count: usize) -> (u32, u32, usize, usize) {
    let tile_width = if width < 1 { 1u32 } else { width };
    let tile_height = if height < 1 { 1u32 } else { height };
    let cameras = if camera_count < 1 { 1usize } else { camera_count };
    let wanted = if columns < 1 { 1usize } else { columns };
    let cols = if wanted < cameras { wanted } else { cameras };
    (tile_width, tile_height, cols, ceil_div(cameras as int, cols as int) as usize)
}

/// The layout `contact_sheet_layout` computes, or the first overflow it
/// meets.
pub open spec fn sheet_layout(width: u32, height: u32, columns: usize, camera_count: usize) -> Result<SheetLayout, SheetError> {
    let (tile_width, tile_height, cols, rows) = sheet_grid(width, height, columns, camera_count);
    let sheet_width = tile_width * (cols as u32);
    let stride = tile_height + LABEL_HEIGHT;
    if sheet_width > u32::MAX {
        Err(SheetError::WidthOverflow)
    } else if stride > u32::MAX {
        Err(SheetError::TileHeightOverflow)
    } else if stride * (rows as u32) > u32::MAX {
        Err(SheetError::HeightOverflow)
    } else {
        Ok(
            SheetLayout {
                tile_width,
                tile_height,
                columns: cols,
                rows,
                sheet_width: sheet_width as u32,
                tile_stride_y: stride as u32,
                sheet_height: (stride * (rows as u32)) as u32,
            },
        )
    }
}

/// `a / b`, rounded up.
fn div_round_up(a: usize, b: usize) -> (r: usize)
    requires
        b >= 1,
    ensures
        r == ceil_div(a as int, b as int),
{
    let q = a / b;
    proof {
        let c = a as int;
        let d = b as int;
        vstd::arithmetic::div_mod::lemma_fundamental_div_mod(c, d);
        if c % d == 0 {
            vstd::arithmetic::div_mod::lemma_fundamental_div_mod_converse(c + d - 1, d, c / d, d - 1);
        } else {
            assert((c / d + 1) * d == d * (c / d) + d) by (nonlinear_arith);
            vstd::arithmetic::div_mod::lemma_fundamental_div_mod_converse(c + d - 1, d, c / d + 1, c % d - 1);
            assert(d >= 2);
            vstd::arithmetic::div_mod::lemma_div_is_ordered_by_denominator(c, 2, d);
        }
    }
    if a % b == 0 {
        q
    } else {
        q + 1
    }
}

/// Lays out a contact sheet of `width` x `height` tiles for `camera_count`
/// cameras, at most `columns` per row.
pub fn contact_sheet_layout(width: u32, height: u32, columns: usize, camera_count: usize) -> (r: Result<SheetLayout, SheetError>)
    ensures
        r == sheet_layout(width, height, columns, camera_count),
{
    let tile_width = if width < 1 { 1u32 } else { width };
    let tile_height = if height < 1 { 1u32 } else { height };
    let cameras = if camera_count < 1 { 1usize } else { camera_count };
    let wanted = if columns < 1 { 1usize } else { columns };
    let cols = if wanted < cameras { wanted } else { cameras };
    let rows = div_round_up(cameras, cols);
    let sheet_width = match tile_width.checked_mul(cols as u32) {
        Some(v) => v,
        None => return Err(SheetError::WidthOverflow),
    };
    let tile_stride_y = match tile_height.checked_add(LABEL_HEIGHT) {
        Some(v) => v,
        None => return Err(SheetError::TileHeightOverflow),
    };
    let sheet_height = match tile_stride_y.checked_mul(rows as u32) {
        Some(v) => v,
        None => return Err(SheetError::HeightOverflow),
    };
    Ok(SheetLayout { tile_width, tile_height, columns: cols, rows, sheet_width, tile_stride_y, sheet_height })
}

impl SheetLayout {
    /// The layout is one that `contact_sheet_layout` can produce, with its
    /// counts inside the 32-bit range.
    pub open spec fn wf(self) -> bool {
        &&& self.tile_width >= 1
        &&& self.tile_height >= 1
        &&& 1 <= self.columns <= u32::MAX
        &&& 1 <= self.rows <= u32::MAX
        &&& self.sheet_width == self.tile_width * self.columns
        &&& self.tile_stride_y == self.tile_height + LABEL_HEIGHT
        &&& self.sheet_height == self.tile_stride_y * self.rows
    }

    /// Left edge of tile `index`.
    pub open spec fn tile_x(self, index: int) -> int {
        (index % (self.columns as int)) * self.tile_width
    }

    /// Top edge of the label strip of tile `index`.
    pub open spec fn tile_y(self, index: int) -> int {
        (index / (self.columns as int)) * self.tile_stride_y
    }
}

/// A layout computed for at most `u32::MAX` cameras is well formed, and its
/// grid has a slot for every camera.
pub proof fn lemma_layout_wf(width: u32, height: u32, columns: usize, camera_count: usize)
    requires
        camera_count <= u32::MAX,
        sheet_layout(width, height, columns, camera_count) is Ok,
    ensures
        sheet_layout(width, height, columns, camera_count)->Ok_0.wf(),
        camera_count <= sheet_layout(width, height, columns, camera_count)->Ok_0.columns
            * sheet_layout(width, height, columns, camera_count)->Ok_0.rows,
{
    let (tw, th, cols, rows) = sheet_grid(width, height, columns, camera_count);
    let cameras = if camera_count < 1 { 1int } else { camera_count as int };
    let c = cols as int;
    let r = (cameras + c - 1) / c;
    assert(cameras + c - 1 < c * (cameras + 1)) by (nonlinear_arith)
        requires
            cameras >= 1,
            c >= 1,
    ;
    vstd::arithmetic::div_mod::lemma_multiply_divide_lt(cameras + c - 1, c, cameras + 1);
    vstd::arithmetic::div_mod::lemma_div_pos_is_pos(cameras + c - 1, c);
    assert(r <= cameras);
    assert(rows == r);
    vstd::arithmetic::div_mod::lemma_fundamental_div_mod(cameras + c - 1, c);
    assert(cameras <= c * r && r >= 1) by (nonlinear_arith)
        requires
            cameras + c - 1 == c * r + (cameras + c - 1) % c,
            (cameras + c - 1) % c < c,
            cameras >= 1,
            c >= 1,
    ;
    vstd::arithmetic::mul::lemma_mul_is_commutative(c, rows as int);
    assert(cols <= cameras);
}

/// Law: every slot of a laid-out sheet lies inside the sheet, and two
/// different slots (label strip and tile) do not overlap.
pub proof fn lemma_slots_disjoint(layout: SheetLayout, i: int, j: int)
    requires
        layout.wf(),
        0 <= i < layout.columns * layout.rows,
        0 <= j < layout.columns * layout.rows,
        i != j,
    ensures
        0 <= layout.tile_x(i) && layout.tile_x(i) + layout.tile_width <= layout.sheet_width,
        0 <= layout.tile_y(i) && layout.tile_y(i) + layout.tile_stride_y <= layout.sheet_height,
        layout.tile_x(i) + layout.tile_width <= layout.tile_x(j) || layout.tile_x(j) + layout.tile_width
            <= layout.tile_x(i) || layout.tile_y(i) + layout.tile_stride_y <= layout.tile_y(j) || layout.tile_y(j)
            + layout.tile_stride_y <= layout.tile_y(i),
{
    let c = layout.columns as int;
    let r = layout.rows as int;
    let tw = layout.tile_width as int;
    let st = layout.tile_stride_y as int;
    vstd::arithmetic::div_mod::lemma_fundamental_div_mod(i, c);
    vstd::arithmetic::div_mod::lemma_fundamental_div_mod(j, c);
    vstd::arithmetic::div_mod::lemma_mod_bound(i, c);
    vstd::arithmetic::div_mod::lemma_mod_bound(j, c);
    vstd::arithmetic::div_mod::lemma_div_pos_is_pos(i, c);
    vstd::arithmetic::div_mod::lemma_div_pos_is_pos(j, c);
    vstd::arithmetic::mul::lemma_mul_is_commutative(c, r);
    vstd::arithmetic::div_mod::lemma_multiply_divide_lt(i, c, r);
    assert((i % c) * tw + tw <= c * tw && 0 <= (i % c) * tw) by (nonlinear_arith)
        requires
            0 <= i % c < c,
            0 <= tw,
    ;
    assert((i / c) * st + st <= r * st && 0 <= (i / c) * st) by (nonlinear_arith)
        requires
            0 <= i / c < r,
            0 <= st,
    ;
    assert(c * tw == tw * c && r * st == st * r) by (nonlinear_arith);
    if i % c != j % c {
        assert((i % c) * tw + tw <= (j % c) * tw || (j % c) * tw + tw <= (i % c) * tw) by (nonlinear_arith)
            requires
                i % c != j % c,
                0 <= tw,
        ;
    } else {
        assert(i / c != j / c);
        assert((i / c) * st + st <= (j / c) * st || (j / c) * st + st <= (i / c) * st) by (nonlinear_arith)
            requires
                i / c != j / c,
                0 <= st,
        ;
    }
}

/// The background color of a contact sheet.
pub open spec fn sheet_background() -> [u8; 4] {
    [18, 20, 24, 255]
}

/// Law: a blank sheet is an opaque dark gray, RGBA (18, 20, 24, 255), and
/// the label strip above each tile is 24 pixels tall.
pub proof fn lemma_sheet_constants()
    ensures
        sheet_background()[0] == 18 && sheet_background()[1] == 20 && sheet_background()[2] == 24
            && sheet_background()[3] == 255,
        LABEL_HEIGHT == 24,
{
}

/// A blank sheet for `layout`: every pixel has the background color.
pub fn new_sheet(layout: &SheetLayout) -> (sheet: Vec<u8>)
    requires
        layout.sheet_width * layout.sheet_height * 4 <= usize::MAX,
    ensures
        sheet@.len() == layout.sheet_width * layout.sheet_height * 4,
        forall|k: int| 0 <= k < sheet@.len() ==> #[trigger] sheet@[k] == sheet_background()[k % 4],
{
    let area = layout.sheet_width as usize * layout.sheet_height as usize;
    let n = area * 4;
    let mut sheet: Vec<u8> = vec![0u8; n];
    let color: [u8; 4] = [18, 20, 24, 255];
    let ghost blank = sheet@;
    fill_rgba(sheet.as_mut_slice(), color);
    proof {
        vstd::arithmetic::div_mod::lemma_mod_multiples_basic(area as int, 4);
        vstd::arithmetic::mul::lemma_mul_is_commutative(area as int, 4);
        assert(sheet@ == filled(blank, color));
        assert(color == sheet_background());
    }
    sheet
}

/// Draws the label of camera `camera_index` and copies its rendered tile
/// `pixels` into slot `tile_index` of the sheet.
pub fn place_tile(sheet: &mut Vec<u8>, layout: &SheetLayout, tile_index: usize, camera_index: usize, pixels: &[u8])
    requires
        layout.wf(),
        tile_index < layout.columns * layout.rows,
        old(sheet)@.len() == layout.sheet_width * layout.sheet_height * 4,
        pixels@.len() >= layout.tile_width * layout.tile_height * 4,
        layout.tile_x(tile_index as int) + 8 + 12 * decimal_values(camera_index as nat).len() <= u32::MAX,
    ensures
        final(sheet)@ == blitted(
            painted(
                old(sheet)@,
                layout.sheet_width as int,
                layout.sheet_height as int,
                label_covers(
                    decimal_values(camera_index as nat),
                    layout.tile_x(tile_index as int) + 8,
                    layout.tile_y(tile_index as int) + 6,
                ),
            ),
            layout.sheet_width as int,
            layout.sheet_height as int,
            pixels@,
            layout.tile_width as int,
            layout.tile_height as int,
            layout.tile_x(tile_index as int),
            layout.tile_y(tile_index as int) + LABEL_HEIGHT,
        ),
{
    let ghost cols = layout.columns as int;
    let ghost rows = layout.rows as int;
    let ghost tw = layout.tile_width as int;
    let ghost stride = layout.tile_stride_y as int;
    let ghost i = tile_index as int;
    proof {
        vstd::arithmetic::div_mod::lemma_mod_bound(i, cols);
        vstd::arithmetic::div_mod::lemma_div_pos_is_pos(i, cols);
        vstd::arithmetic::mul::lemma_mul_is_commutative(cols, rows);
        vstd::arithmetic::div_mod::lemma_multiply_divide_lt(i, cols, rows);
        assert((i % cols) * tw + tw <= cols * tw) by (nonlinear_arith)
            requires
                i % cols < cols,
                0 <= tw,
        ;
        assert((i / cols) * stride + stride <= rows * stride) by (nonlinear_arith)
            requires
                i / cols < rows,
                0 <= stride,
        ;
        assert(cols * tw == tw * cols) by (nonlinear_arith);
        assert(rows * stride == stride * rows) by (nonlinear_arith);
    }
    let tile_x = (tile_index % layout.columns) as u32 * layout.tile_width;
    let tile_y = (tile_index / layout.columns) as u32 * layout.tile_stride_y;
    let ghost digits = decimal_values(camera_index as nat);
    proof {
        lemma_label_in_range(digits, tile_x + 8, tile_y + 6);
        lemma_full_image_fits(
            sheet@.len() as int,
            layout.sheet_width as int,
            layout.sheet_height as int,
            label_covers(digits, tile_x + 8, tile_y + 6),
        );
    }
    draw_label(sheet.as_mut_slice(), layout.sheet_width, layout.sheet_height, tile_x + 8, tile_y + 6, camera_index);
    proof {
        assert(((tile_y + LABEL_HEIGHT + layout.tile_height - 1) * layout.sheet_width + tile_x) * 4 + 4 * tw
            <= layout.sheet_width * layout.sheet_height * 4) by (nonlinear_arith)
            requires
                tile_y + LABEL_HEIGHT + layout.tile_height <= layout.sheet_height,
                tile_x + tw <= layout.sheet_width,
                layout.tile_height >= 1,
        ;
        assert((layout.tile_height - 1) * tw * 4 + 4 * tw <= layout.tile_width * layout.tile_height * 4) by (nonlinear_arith)
            requires
                tw == layout.tile_width,
                layout.tile_height >= 1,
        ;
    }
    blit_rgba(
        sheet.as_mut_slice(),
        layout.sheet_width,
        layout.sheet_height,
        pixels,
        layout.tile_width,
        layout.tile_height,
        tile_x,
        tile_y + LABEL_HEIGHT,
    );
}

} // verus!
