use splat_render::binning::{bin_splats, rects_fit, TileBinning};
use splat_render::bins::TileBin;
use splat_render::error::RenderError;
use splat_render::intersect::{pack_key, tile_of_key};
use splat_render::tiles::{TileGrid, TileRect};

fn composite(binning: &TileBinning, tile: usize, alphas: &[f32], colors: &[f32], background: f32) -> f32 {
    let bin = binning.tile_bins[tile];
    let mut color = 0.0f32;
    let mut transmittance = 1.0f32;
    for q in bin.start..bin.end {
        let id = binning.ids[q as usize] as usize;
        color += alphas[id] * transmittance * colors[id];
        transmittance *= 1.0 - alphas[id];
    }
    color + transmittance * background
}

#[test]
fn no_splats_leave_every_bin_empty_and_the_background_untouched() {
    let grid = TileGrid::new(40, 40).unwrap();
    let out = bin_splats(&grid, &Vec::new(), &Vec::new()).unwrap();
    assert_eq!(out.num_intersects, 0);
    assert!(out.keys.is_empty());
    assert!(out.ids.is_empty());
    assert_eq!(out.tile_bins, vec![TileBin { start: 0, end: 0 }; 9]);
    for tile in 0..9 {
        assert_eq!(composite(&out, tile, &[], &[], 0.25), 0.25);
    }
}

#[test]
fn a_single_centred_splat_is_listed_in_the_tiles_round_the_centre() {
    let grid = TileGrid::new(64, 64).unwrap();
    let rect = grid.clip(32 - 10, 32 - 10, 32 + 10, 32 + 10);
    assert_eq!(rect, TileRect { min_x: 1, min_y: 1, max_x: 3, max_y: 3 });
    let out = bin_splats(&grid, &vec![rect], &vec![1000]).unwrap();
    assert_eq!(out.num_intersects, 4);
    assert_eq!(out.ids, vec![0, 0, 0, 0]);
    assert_eq!(
        out.keys,
        vec![pack_key(5, 1000), pack_key(6, 1000), pack_key(9, 1000), pack_key(10, 1000)]
    );
    for tile in 0..16usize {
        let expected = match tile {
            5 => TileBin { start: 0, end: 1 },
            6 => TileBin { start: 1, end: 2 },
            9 => TileBin { start: 2, end: 3 },
            10 => TileBin { start: 3, end: 4 },
            _ => TileBin { start: 0, end: 0 },
        };
        assert_eq!(out.tile_bins[tile], expected);
    }
    let shade = composite(&out, 5, &[0.9], &[1.0], 0.0);
    assert!((shade - 0.9).abs() < 1e-6);
    assert_eq!(composite(&out, 0, &[0.9], &[1.0], 0.0), 0.0);
}

#[test]
fn swapping_the_depths_of_two_overlapping_splats_changes_the_colour() {
    let grid = TileGrid::new(16, 16).unwrap();
    let rects = vec![TileRect { min_x: 0, min_y: 0, max_x: 1, max_y: 1 }; 2];
    let alphas = [0.5f32, 0.5];
    let colors = [1.0f32, 0.0];

    let near_first = bin_splats(&grid, &rects, &vec![10, 20]).unwrap();
    assert_eq!(near_first.ids, vec![0, 1]);
    let near_second = bin_splats(&grid, &rects, &vec![20, 10]).unwrap();
    assert_eq!(near_second.ids, vec![1, 0]);
    assert_eq!(near_first.tile_bins, near_second.tile_bins);

    let a = composite(&near_first, 0, &alphas, &colors, 0.0);
    let b = composite(&near_second, 0, &alphas, &colors, 0.0);
    assert_eq!(a, 0.5);
    assert_eq!(b, 0.25);
    assert_ne!(a, b);
}

#[test]
fn splats_at_the_same_depth_keep_the_order_of_their_ids() {
    let grid = TileGrid::new(16, 16).unwrap();
    let rects = vec![TileRect { min_x: 0, min_y: 0, max_x: 1, max_y: 1 }; 4];
    let out = bin_splats(&grid, &rects, &vec![7, 3, 7, 3]).unwrap();
    assert_eq!(out.ids, vec![1, 3, 0, 2]);
}

fn scene() -> (TileGrid, Vec<TileRect>, Vec<u32>) {
    let grid = TileGrid::new(100, 70).unwrap();
    let mut rects = Vec::new();
    let mut depths = Vec::new();
    let mut state: u32 = 12345;
    for _ in 0..200 {
        state = state.wrapping_mul(1664525).wrapping_add(1013904223);
        let cx = (state >> 8) % 140;
        state = state.wrapping_mul(1664525).wrapping_add(1013904223);
        let cy = (state >> 8) % 110;
        state = state.wrapping_mul(1664525).wrapping_add(1013904223);
        let radius = (state >> 8) % 30;
        state = state.wrapping_mul(1664525).wrapping_add(1013904223);
        let depth = (state >> 8) % 16;
        let (cx, cy, radius) = (cx as i64 - 20, cy as i64 - 20, radius as i64);
        let rect = if radius == 0 {
            TileRect::empty()
        } else {
            grid.clip(cx - radius, cy - radius, cx + radius, cy + radius)
        };
        rects.push(rect);
        depths.push(depth);
    }
    (grid, rects, depths)
}

#[test]
fn intersection_count_is_the_sum_of_the_tile_hit_counts() {
    let (grid, rects, depths) = scene();
    let out = bin_splats(&grid, &rects, &depths).unwrap();
    let sum: u32 = rects.iter().map(|r| r.hit_count(&grid)).sum();
    assert!(sum > 0);
    assert_eq!(out.num_intersects, sum);
    assert_eq!(out.keys.len(), sum as usize);
    assert_eq!(out.ids.len(), sum as usize);
}

#[test]
fn sorted_records_ascend_by_tile_then_depth_with_duplicate_depths() {
    let (grid, rects, depths) = scene();
    let out = bin_splats(&grid, &rects, &depths).unwrap();
    for q in 1..out.keys.len() {
        let (a, b) = (out.keys[q - 1], out.keys[q]);
        let (ta, tb) = (tile_of_key(a), tile_of_key(b));
        let (da, db) = (a as u32, b as u32);
        assert!(ta < tb || (ta == tb && da <= db));
        assert_eq!(db, depths[out.ids[q] as usize]);
    }
}

#[test]
fn tile_bins_cover_the_records_without_gap_or_overlap() {
    let (grid, rects, depths) = scene();
    let out = bin_splats(&grid, &rects, &depths).unwrap();
    assert_eq!(out.tile_bins.len(), grid.tile_count() as usize);
    let mut covered = vec![0u32; out.num_intersects as usize];
    for (tile, bin) in out.tile_bins.iter().enumerate() {
        assert!(bin.start <= bin.end && bin.end <= out.num_intersects);
        if bin.start == bin.end {
            assert_eq!(*bin, TileBin { start: 0, end: 0 });
        }
        for q in bin.start..bin.end {
            covered[q as usize] += 1;
            assert_eq!(tile_of_key(out.keys[q as usize]) as usize, tile);
        }
    }
    assert!(covered.iter().all(|&c| c == 1));
    let total: u32 = out.tile_bins.iter().map(|bin| bin.len()).sum();
    assert_eq!(total, out.num_intersects);
}

#[test]
fn every_bin_lists_exactly_the_splats_that_touch_its_tile() {
    let (grid, rects, depths) = scene();
    let out = bin_splats(&grid, &rects, &depths).unwrap();
    for ty in 0..grid.rows {
        for tx in 0..grid.cols {
            let bin = out.tile_bins[grid.tile_id(tx, ty) as usize];
            let mut listed: Vec<u32> =
                (bin.start..bin.end).map(|q| out.ids[q as usize]).collect();
            listed.sort();
            let touching: Vec<u32> = (0..rects.len() as u32)
                .filter(|&i| {
                    let r = rects[i as usize];
                    r.min_x <= tx && tx < r.max_x && r.min_y <= ty && ty < r.max_y
                })
                .collect();
            assert_eq!(listed, touching);
        }
    }
}

#[test]
fn culled_splats_appear_in_no_bin() {
    let grid = TileGrid::new(32, 32).unwrap();
    let rects = vec![TileRect::empty(), grid.clip(0, 0, 31, 31), grid.clip(-9, -9, -1, -1)];
    let out = bin_splats(&grid, &rects, &vec![1, 2, 3]).unwrap();
    assert_eq!(out.num_intersects, 4);
    assert_eq!(out.ids, vec![1, 1, 1, 1]);
}

#[test]
fn binning_refuses_arrays_of_different_lengths() {
    let grid = TileGrid::new(32, 32).unwrap();
    let r = bin_splats(&grid, &vec![TileRect::empty()], &vec![1, 2]);
    assert_eq!(r.err(), Some(RenderError::ShapeMismatch));
}

#[test]
fn binning_refuses_a_rectangle_beyond_the_grid() {
    let grid = TileGrid::new(32, 32).unwrap();
    let outside = vec![TileRect { min_x: 0, min_y: 0, max_x: 3, max_y: 1 }];
    assert!(!rects_fit(&grid, &outside));
    assert_eq!(bin_splats(&grid, &outside, &vec![1]).err(), Some(RenderError::RectOutsideGrid));
    let inverted = vec![TileRect { min_x: 2, min_y: 0, max_x: 1, max_y: 1 }];
    assert_eq!(bin_splats(&grid, &inverted, &vec![1]).err(), Some(RenderError::RectOutsideGrid));
    assert!(rects_fit(&grid, &vec![TileRect { min_x: 0, min_y: 0, max_x: 2, max_y: 2 }]));
}

#[test]
fn binning_refuses_more_intersections_than_32_bits_count() {
    let grid = TileGrid::new(65536, 65536).unwrap();
    let full = TileRect { min_x: 0, min_y: 0, max_x: 4096, max_y: 4096 };
    let rects = vec![full; 256];
    let depths = vec![0u32; 256];
    assert_eq!(bin_splats(&grid, &rects, &depths).err(), Some(RenderError::IntersectionOverflow));
}
