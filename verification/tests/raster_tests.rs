use splatrs::cpu_raster::{bin_splats, PixelBox};

#[test]
fn bins_splats_into_every_tile_they_touch() {
    let boxes = [
        PixelBox { min_x: 0, min_y: 0, max_x: 4, max_y: 4 },
        PixelBox { min_x: 10, min_y: 10, max_x: 20, max_y: 18 },
        PixelBox { min_x: 30, min_y: 0, max_x: 100, max_y: 40 },
    ];
    let tiles = bin_splats(&boxes, 3, 2);
    assert_eq!(tiles.len(), 6);
    assert_eq!(tiles[0], vec![0, 1]);
    assert_eq!(tiles[1], vec![1, 2]);
    assert_eq!(tiles[2], vec![2]);
    assert_eq!(tiles[3], vec![1]);
    assert_eq!(tiles[4], vec![1, 2]);
    assert_eq!(tiles[5], vec![2]);
}

#[test]
fn bins_nothing_for_no_splats() {
    let tiles = bin_splats(&[], 2, 2);
    assert!(tiles.iter().all(|t| t.is_empty()));
    assert!(bin_splats(&[], 0, 0).is_empty());
}

use splatrs::cpu_raster::tile_grid;

#[test]
fn tile_grid_rounds_up_to_whole_tiles() {
    assert_eq!(tile_grid(64, 64), (4, 4));
    assert_eq!(tile_grid(65, 1), (5, 1));
    assert_eq!(tile_grid(0, 0), (0, 0));
    assert_eq!(tile_grid(1280, 720), (80, 45));
}
