use splatrs::contact_sheet::{contact_sheet_layout, new_sheet, place_tile, SheetError, LABEL_HEIGHT};
use splatrs::headless::{
    align_to, blit_rgba, bmp_bytes, convert_linear_readback, draw_block, draw_glyph, draw_label,
    fill_rgba, BmpError,
};

const INK: [u8; 4] = [235, 238, 242, 255];

fn pixel(buf: &[u8], width: usize, x: usize, y: usize) -> [u8; 4] {
    let i = (y * width + x) * 4;
    [buf[i], buf[i + 1], buf[i + 2], buf[i + 3]]
}

fn inked(buf: &[u8], width: usize, height: usize) -> Vec<(usize, usize)> {
    let mut out = Vec::new();
    for y in 0..height {
        for x in 0..width {
            if pixel(buf, width, x, y) == INK {
                out.push((x, y));
            }
        }
    }
    out
}

#[test]
fn fill_rgba_sets_whole_pixels_only() {
    let mut buf = vec![0u8; 10];
    fill_rgba(&mut buf, [1, 2, 3, 4]);
    assert_eq!(buf, vec![1, 2, 3, 4, 1, 2, 3, 4, 0, 0]);
}

#[test]
fn draw_block_paints_two_by_two_pixels() {
    let mut buf = vec![0u8; 4 * 4 * 4];
    draw_block(&mut buf, 4, 4, 1, 2);
    assert_eq!(inked(&buf, 4, 4), vec![(1, 2), (2, 2), (1, 3), (2, 3)]);
}

#[test]
fn draw_block_clips_at_the_image_edge() {
    let mut buf = vec![0u8; 3 * 3 * 4];
    draw_block(&mut buf, 3, 3, 2, 2);
    assert_eq!(inked(&buf, 3, 3), vec![(2, 2)]);
}

#[test]
fn draw_glyph_draws_digit_one() {
    let mut buf = vec![0u8; 10 * 16 * 4];
    draw_glyph(&mut buf, 10, 16, 0, 0, 1);
    let lit = inked(&buf, 10, 16);
    // Row 0 of the glyph for 1 is 0b010: one block at column cell 1.
    assert!(lit.contains(&(3, 0)) && lit.contains(&(4, 1)));
    assert!(!lit.contains(&(0, 0)));
    // Row 4 is 0b111: three blocks at y = 12.
    assert!(lit.contains(&(0, 12)) && lit.contains(&(3, 12)) && lit.contains(&(6, 13)));
    // 1 has 2 + 1 + 1 + 1 + 3 = 8 lit cells of 4 pixels each.
    assert_eq!(lit.len(), 32);
}

#[test]
fn draw_glyph_ignores_non_digits() {
    let mut buf = vec![0u8; 10 * 16 * 4];
    draw_glyph(&mut buf, 10, 16, 0, 0, 10);
    assert!(inked(&buf, 10, 16).is_empty());
}

#[test]
fn draw_label_advances_twelve_pixels_per_digit() {
    let mut buf = vec![0u8; 40 * 20 * 4];
    draw_label(&mut buf, 40, 20, 2, 1, 10);
    let lit = inked(&buf, 40, 20);
    let mut one = vec![0u8; 40 * 20 * 4];
    draw_glyph(&mut one, 40, 20, 2, 1, 1);
    draw_glyph(&mut one, 40, 20, 14, 1, 0);
    assert_eq!(lit, inked(&one, 40, 20));
    assert!(lit.iter().all(|&(x, _)| x >= 2 && x < 22));
}

#[test]
fn blit_copies_rows_into_place() {
    let mut dst = vec![0u8; 4 * 3 * 4];
    let src: Vec<u8> = (1..=16).collect();
    blit_rgba(&mut dst, 4, 3, &src, 2, 2, 1, 1);
    assert_eq!(pixel(&dst, 4, 1, 1), [1, 2, 3, 4]);
    assert_eq!(pixel(&dst, 4, 2, 1), [5, 6, 7, 8]);
    assert_eq!(pixel(&dst, 4, 1, 2), [9, 10, 11, 12]);
    assert_eq!(pixel(&dst, 4, 2, 2), [13, 14, 15, 16]);
    assert_eq!(pixel(&dst, 4, 0, 0), [0, 0, 0, 0]);
    assert_eq!(pixel(&dst, 4, 3, 2), [0, 0, 0, 0]);
}

#[test]
fn blit_clips_to_the_destination() {
    let mut dst = vec![0u8; 3 * 2 * 4];
    let src: Vec<u8> = (1..=16).collect();
    blit_rgba(&mut dst, 3, 2, &src, 2, 2, 2, 1);
    assert_eq!(pixel(&dst, 3, 2, 1), [1, 2, 3, 4]);
    let changed = dst.iter().filter(|&&b| b != 0).count();
    assert_eq!(changed, 4);
}

#[test]
fn readback_drops_row_padding_and_maps_colors() {
    let mut srgb = [0u8; 256];
    for (i, v) in srgb.iter_mut().enumerate() {
        *v = 255 - i as u8;
    }
    // Two rows of one pixel each, 8 bytes apart.
    let readback = [10, 20, 30, 0, 99, 99, 99, 99, 40, 50, 60, 7];
    let pixels = convert_linear_readback(&readback, 1, 2, 4, 8, &srgb);
    assert_eq!(pixels, vec![245, 235, 225, 255, 215, 205, 195, 255]);
}

#[test]
fn align_to_rounds_up_to_a_multiple() {
    assert_eq!(align_to(0, 256), 0);
    assert_eq!(align_to(1, 256), 256);
    assert_eq!(align_to(256, 256), 256);
    assert_eq!(align_to(1280 * 4, 256), 5120);
    assert_eq!(align_to(100 * 4, 256), 512);
}

#[test]
fn bmp_bytes_writes_top_down_bgra() {
    let rgba = [1, 2, 3, 4, 5, 6, 7, 8];
    let bytes = bmp_bytes(2, 1, &rgba).unwrap();
    assert_eq!(bytes.len(), 54 + 8);
    assert_eq!(&bytes[0..2], b"BM");
    assert_eq!(u32::from_le_bytes(bytes[2..6].try_into().unwrap()), 62);
    assert_eq!(u32::from_le_bytes(bytes[10..14].try_into().unwrap()), 54);
    assert_eq!(u32::from_le_bytes(bytes[14..18].try_into().unwrap()), 40);
    assert_eq!(i32::from_le_bytes(bytes[18..22].try_into().unwrap()), 2);
    assert_eq!(i32::from_le_bytes(bytes[22..26].try_into().unwrap()), -1);
    assert_eq!(u16::from_le_bytes(bytes[26..28].try_into().unwrap()), 1);
    assert_eq!(u16::from_le_bytes(bytes[28..30].try_into().unwrap()), 32);
    assert_eq!(u32::from_le_bytes(bytes[34..38].try_into().unwrap()), 8);
    assert_eq!(i32::from_le_bytes(bytes[38..42].try_into().unwrap()), 2835);
    assert_eq!(&bytes[54..], &[3, 2, 1, 4, 7, 6, 5, 8]);
}

#[test]
fn bmp_bytes_refuses_a_short_buffer() {
    let err = bmp_bytes(2, 2, &[0; 8]).unwrap_err();
    assert_eq!(err, BmpError::LengthMismatch { actual: 8, expected: 16 });
    assert_eq!(err.message(), "RGBA buffer has 8 bytes, expected 16");
}

#[test]
fn bmp_bytes_refuses_overflowing_sizes() {
    assert_eq!(bmp_bytes(u32::MAX / 2, 1, &[]).unwrap_err(), BmpError::RowBytesOverflow);
    assert_eq!(bmp_bytes(1 << 20, 1 << 12, &[]).unwrap_err(), BmpError::PixelBytesOverflow);
    assert_eq!(bmp_bytes((u32::MAX / 4) - 1, 1, &[]).unwrap_err(), BmpError::FileSizeOverflow);
    assert_eq!(BmpError::RowBytesOverflow.message(), "BMP row byte count overflowed");
    assert_eq!(BmpError::PixelBytesOverflow.message(), "BMP pixel byte count overflowed");
    assert_eq!(BmpError::FileSizeOverflow.message(), "BMP file size overflowed");
}

#[test]
fn contact_sheet_layout_fits_the_cameras() {
    let layout = contact_sheet_layout(100, 50, 3, 4).unwrap();
    assert_eq!(layout.columns, 3);
    assert_eq!(layout.rows, 2);
    assert_eq!(layout.sheet_width, 300);
    assert_eq!(layout.tile_stride_y, 50 + LABEL_HEIGHT);
    assert_eq!(layout.sheet_height, 2 * 74);
}

#[test]
fn contact_sheet_layout_clamps_columns_and_sizes() {
    let layout = contact_sheet_layout(0, 0, 10, 2).unwrap();
    assert_eq!((layout.tile_width, layout.tile_height), (1, 1));
    assert_eq!((layout.columns, layout.rows), (2, 1));
    let single = contact_sheet_layout(8, 8, 0, 0).unwrap();
    assert_eq!((single.columns, single.rows), (1, 1));
}

#[test]
fn contact_sheet_layout_reports_overflow() {
    let wide = contact_sheet_layout(u32::MAX, 8, 2, 2).unwrap_err();
    assert_eq!(wide, SheetError::WidthOverflow);
    assert_eq!(wide.message(), "contact sheet width overflowed");
    let tall = contact_sheet_layout(8, u32::MAX - 3, 1, 1).unwrap_err();
    assert_eq!(tall, SheetError::TileHeightOverflow);
    assert_eq!(tall.message(), "contact sheet tile height overflowed");
    let rows = contact_sheet_layout(8, u32::MAX / 2, 1, 3).unwrap_err();
    assert_eq!(rows, SheetError::HeightOverflow);
    assert_eq!(rows.message(), "contact sheet height overflowed");
}

#[test]
fn place_tile_labels_and_copies_each_camera() {
    let layout = contact_sheet_layout(4, 2, 2, 3).unwrap();
    let mut sheet = new_sheet(&layout);
    assert_eq!(sheet.len(), 8 * 52 * 4);
    assert_eq!(pixel(&sheet, 8, 7, 51), [18, 20, 24, 255]);
    let tile = vec![9u8; 4 * 2 * 4];
    place_tile(&mut sheet, &layout, 1, 7, &tile);
    assert_eq!(pixel(&sheet, 8, 4, LABEL_HEIGHT as usize), [9, 9, 9, 9]);
    assert_eq!(pixel(&sheet, 8, 7, LABEL_HEIGHT as usize + 1), [9, 9, 9, 9]);
    assert_eq!(pixel(&sheet, 8, 3, LABEL_HEIGHT as usize), [18, 20, 24, 255]);
    assert_eq!(pixel(&sheet, 8, 4, 50), [18, 20, 24, 255]);
}

#[test]
fn place_tile_draws_the_camera_number_above_the_tile() {
    let layout = contact_sheet_layout(40, 20, 1, 1).unwrap();
    let mut sheet = new_sheet(&layout);
    let tile = vec![1u8; 40 * 20 * 4];
    place_tile(&mut sheet, &layout, 0, 3, &tile);
    assert_eq!(pixel(&sheet, 40, 8, 6), INK);
    assert_eq!(pixel(&sheet, 40, 14, 6), INK);
    assert_eq!(pixel(&sheet, 40, 7, 6), [18, 20, 24, 255]);
    assert_eq!(pixel(&sheet, 40, 0, 24), [1, 1, 1, 1]);
    assert_eq!(pixel(&sheet, 40, 39, 43), [1, 1, 1, 1]);
}

#[test]
fn contact_sheet_slots_do_not_overlap() {
    let layout = contact_sheet_layout(3, 2, 2, 4).unwrap();
    let mut sheet = new_sheet(&layout);
    for (index, value) in [1u8, 2, 3, 4].iter().enumerate() {
        place_tile(&mut sheet, &layout, index, 0, &vec![*value; 3 * 2 * 4]);
    }
    for (index, value) in [1u8, 2, 3, 4].iter().enumerate() {
        let x = (index % 2) * 3;
        let y = (index / 2) * (2 + LABEL_HEIGHT as usize) + LABEL_HEIGHT as usize;
        assert_eq!(pixel(&sheet, 6, x, y), [*value; 4]);
        assert_eq!(pixel(&sheet, 6, x + 2, y + 1), [*value; 4]);
    }
}
