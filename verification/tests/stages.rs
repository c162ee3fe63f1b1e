use splat_render::bins::{tile_bin_edges, TileBin};
use splat_render::dispatch::{buffer_bytes, calc_cube_count, CubeCount};
use splat_render::error::RenderError;
use splat_render::intersect::{count_hits, map_intersections, pack_key, tile_of_key};
use splat_render::scan::{prefix_sum, SCAN_BLOCK};
use splat_render::sh::to_interleaved_idx;
use splat_render::tiles::{TileGrid, TileRect};

#[test]
fn grid_rounds_partial_tiles_up() {
    let grid = TileGrid::new(33, 16).unwrap();
    assert_eq!((grid.cols, grid.rows), (3, 1));
    assert_eq!(grid.tile_count(), 3);
    let grid = TileGrid::new(1, 17).unwrap();
    assert_eq!((grid.cols, grid.rows), (1, 2));
}

#[test]
fn grid_refuses_an_image_without_pixels() {
    assert_eq!(TileGrid::new(0, 10), Err(RenderError::ZeroResolution));
    assert_eq!(TileGrid::new(10, 0), Err(RenderError::ZeroResolution));
}

#[test]
fn grid_refuses_more_tiles_than_ids() {
    assert_eq!(TileGrid::new(u32::MAX, u32::MAX), Err(RenderError::GridTooLarge));
    assert!(TileGrid::new(u32::MAX, 15 * 16).is_ok());
    assert_eq!(TileGrid::new(u32::MAX, 15 * 16 + 1), Err(RenderError::GridTooLarge));
}

#[test]
fn tile_ids_run_row_by_row() {
    let grid = TileGrid::new(64, 48).unwrap();
    assert_eq!(grid.tile_id(0, 0), 0);
    assert_eq!(grid.tile_id(3, 0), 3);
    assert_eq!(grid.tile_id(0, 1), 4);
    assert_eq!(grid.tile_id(3, 2), 11);
}

#[test]
fn clip_covers_the_tiles_that_hold_a_pixel_of_the_box() {
    let grid = TileGrid::new(64, 48).unwrap();
    let rect = grid.clip(15, 16, 32, 31);
    assert_eq!(rect, TileRect { min_x: 0, min_y: 1, max_x: 3, max_y: 2 });
    assert_eq!(rect.hit_count(&grid), 3);
}

#[test]
fn clip_cuts_a_box_at_the_image_border() {
    let grid = TileGrid::new(64, 48).unwrap();
    let rect = grid.clip(-100, -1, 1000, 20);
    assert_eq!(rect, TileRect { min_x: 0, min_y: 0, max_x: 4, max_y: 2 });
    assert_eq!(rect.hit_count(&grid), 8);
}

#[test]
fn clip_gives_no_tiles_off_screen_or_for_an_empty_box() {
    let grid = TileGrid::new(64, 48).unwrap();
    assert_eq!(grid.clip(-50, 0, -1, 10).hit_count(&grid), 0);
    assert_eq!(grid.clip(64, 0, 70, 10).hit_count(&grid), 0);
    assert_eq!(grid.clip(0, 48, 10, 90).hit_count(&grid), 0);
    assert_eq!(grid.clip(10, 10, 9, 10), TileRect::empty());
    assert_eq!(grid.clip(i64::MIN, i64::MIN, i64::MAX, i64::MAX).hit_count(&grid), 12);
}

#[test]
fn prefix_sum_gives_offsets_and_total() {
    let scan = prefix_sum(&vec![3, 0, 2, 5]).unwrap();
    assert_eq!(scan.offsets, vec![0, 3, 3, 5]);
    assert_eq!(scan.total, 10);
}

#[test]
fn prefix_sum_of_nothing_is_zero() {
    let scan = prefix_sum(&Vec::new()).unwrap();
    assert_eq!(scan.offsets, Vec::<u32>::new());
    assert_eq!(scan.total, 0);
}

#[test]
fn prefix_sum_carries_across_blocks_and_a_partial_last_block() {
    let n = 2 * SCAN_BLOCK + 7;
    let counts: Vec<u32> = (0..n as u32).map(|i| i % 5).collect();
    let scan = prefix_sum(&counts).unwrap();
    let mut sum = 0u32;
    for i in 0..n {
        assert_eq!(scan.offsets[i], sum);
        sum += counts[i];
    }
    assert_eq!(scan.offsets.len(), n);
    assert_eq!(scan.total, sum);
}

#[test]
fn prefix_sum_refuses_a_total_beyond_32_bits() {
    let r = prefix_sum(&vec![u32::MAX, 1]);
    assert_eq!(r.err(), Some(RenderError::IntersectionOverflow));
    let scan = prefix_sum(&vec![u32::MAX - 1, 1, 0]).unwrap();
    assert_eq!(scan.total, u32::MAX);
    assert_eq!(scan.offsets, vec![0, u32::MAX - 1, u32::MAX]);
}

#[test]
fn keys_hold_tile_above_depth() {
    assert_eq!(pack_key(2, 7), 0x0000_0002_0000_0007);
    assert_eq!(tile_of_key(pack_key(9, u32::MAX)), 9);
    assert!(pack_key(1, u32::MAX) < pack_key(2, 0));
    assert!(pack_key(2, 3) < pack_key(2, 4));
}

#[test]
fn mapper_writes_one_record_per_touched_tile_at_the_scan_offsets() {
    let grid = TileGrid::new(48, 32).unwrap();
    let rects = vec![
        TileRect { min_x: 1, min_y: 0, max_x: 3, max_y: 2 },
        TileRect::empty(),
        TileRect { min_x: 0, min_y: 1, max_x: 1, max_y: 2 },
    ];
    let depths = vec![50u32, 60, 40];
    let counts = count_hits(&grid, &rects);
    assert_eq!(counts, vec![4, 0, 1]);
    let scan = prefix_sum(&counts).unwrap();
    let (keys, ids) = map_intersections(&grid, &rects, &depths, &scan);
    assert_eq!(
        keys,
        vec![pack_key(1, 50), pack_key(2, 50), pack_key(4, 50), pack_key(5, 50), pack_key(3, 40)]
    );
    assert_eq!(ids, vec![0, 0, 0, 0, 2]);
}

#[test]
fn bin_edges_cut_sorted_records_by_tile() {
    let keys = vec![pack_key(1, 5), pack_key(1, 9), pack_key(3, 0), pack_key(4, 1), pack_key(4, 1)];
    let bins = tile_bin_edges(&keys, 6);
    assert_eq!(
        bins,
        vec![
            TileBin { start: 0, end: 0 },
            TileBin { start: 0, end: 2 },
            TileBin { start: 0, end: 0 },
            TileBin { start: 2, end: 3 },
            TileBin { start: 3, end: 5 },
            TileBin { start: 0, end: 0 },
        ]
    );
    assert_eq!(bins[4].len(), 2);
}

#[test]
fn bin_edges_without_records_are_all_empty() {
    let bins = tile_bin_edges(&Vec::new(), 3);
    assert_eq!(bins, vec![TileBin { start: 0, end: 0 }; 3]);
}

#[test]
fn interleaved_index_puts_channels_side_by_side() {
    assert_eq!(to_interleaved_idx(0), 3);
    assert_eq!(to_interleaved_idx(1), 6);
    assert_eq!(to_interleaved_idx(14), 45);
    assert_eq!(to_interleaved_idx(15), 3);
    assert_eq!(to_interleaved_idx(16), 7);
    assert_eq!(to_interleaved_idx(44), 47);
}

#[test]
fn cube_count_rounds_up_and_fills_missing_axes_with_one() {
    assert_eq!(calc_cube_count([1000u32], [256, 1, 1]), CubeCount { x: 4, y: 1, z: 1 });
    assert_eq!(calc_cube_count([512u32, 17], [256, 16, 1]), CubeCount { x: 2, y: 2, z: 1 });
    assert_eq!(calc_cube_count([0u32, 1, 9], [8, 8, 4]), CubeCount { x: 0, y: 1, z: 3 });
    let none: [u32; 0] = [];
    assert_eq!(calc_cube_count(none, [8, 8, 8]), CubeCount { x: 1, y: 1, z: 1 });
    assert_eq!(calc_cube_count([u32::MAX], [2, 1, 1]), CubeCount { x: 1 << 31, y: 1, z: 1 });
    assert_eq!(calc_cube_count([1u32, 2, 3, 4], [1, 1, 1]), CubeCount { x: 1, y: 2, z: 3 });
}

#[test]
fn bounding_rect_spans_the_radius_round_the_centre() {
    let grid = TileGrid::new(64, 64).unwrap();
    assert_eq!(grid.bounding_rect(32, 32, 10), TileRect { min_x: 1, min_y: 1, max_x: 3, max_y: 3 });
    assert_eq!(grid.bounding_rect(8, 8, 7), TileRect { min_x: 0, min_y: 0, max_x: 1, max_y: 1 });
    assert_eq!(grid.bounding_rect(8, 8, 8), TileRect { min_x: 0, min_y: 0, max_x: 2, max_y: 2 });
    assert_eq!(grid.bounding_rect(-5, 70, 6), TileRect { min_x: 0, min_y: 4, max_x: 1, max_y: 4 });
    assert_eq!(
        grid.bounding_rect(i32::MAX, i32::MIN, u32::MAX),
        TileRect { min_x: 0, min_y: 0, max_x: 4, max_y: 4 }
    );
}

#[test]
fn a_splat_of_radius_zero_is_culled() {
    let grid = TileGrid::new(64, 64).unwrap();
    assert_eq!(grid.bounding_rect(32, 32, 0), TileRect::empty());
    assert_eq!(grid.bounding_rect(32, 32, 0).hit_count(&grid), 0);
}

#[test]
fn pixels_resolve_to_the_tile_that_holds_them() {
    let grid = TileGrid::new(64, 48).unwrap();
    assert_eq!(grid.pixel_tile(0, 0), 0);
    assert_eq!(grid.pixel_tile(15, 15), 0);
    assert_eq!(grid.pixel_tile(16, 15), 1);
    assert_eq!(grid.pixel_tile(63, 47), 11);
}

#[test]
fn buffer_size_is_the_element_count_times_the_element_size() {
    assert_eq!(buffer_bytes(&vec![7, 4], 4), Some(112));
    assert_eq!(buffer_bytes(&vec![3], 2), Some(6));
    assert_eq!(buffer_bytes(&Vec::new(), 4), Some(4));
    assert_eq!(buffer_bytes(&vec![5, 0, 9], 4), Some(0));
    assert_eq!(buffer_bytes(&vec![5, 9], 0), Some(0));
}

#[test]
fn buffer_size_beyond_the_address_space_is_refused() {
    assert_eq!(buffer_bytes(&vec![usize::MAX, 2], 1), None);
    assert_eq!(buffer_bytes(&vec![usize::MAX], 2), None);
    assert_eq!(buffer_bytes(&vec![usize::MAX], 1), Some(usize::MAX));
    assert_eq!(buffer_bytes(&vec![usize::MAX, usize::MAX, 0], 4), Some(0));
    assert_eq!(buffer_bytes(&vec![usize::MAX, 2], 0), Some(0));
}
