use splat_render::bins::TileBin;
use splat_render::raster::{backward_span, run_walk, PixelWalk, Step};

#[test]
fn walk_through_an_empty_bin_is_over_at_once() {
    let bin = TileBin { start: 0, end: 0 };
    let walk = PixelWalk::begin(&bin);
    assert_eq!(walk, PixelWalk { next: 0, end: 0, final_index: 0, done: true });
    assert_eq!(run_walk(&bin, &Vec::new()), walk);
}

#[test]
fn final_index_is_the_last_blended_record() {
    let bin = TileBin { start: 10, end: 15 };
    let steps = vec![Step::Skip, Step::Blend, Step::Blend, Step::Skip, Step::Skip];
    let walk = run_walk(&bin, &steps);
    assert_eq!(walk, PixelWalk { next: 15, end: 15, final_index: 12, done: true });
}

#[test]
fn walk_ends_where_the_pixel_is_saturated() {
    let bin = TileBin { start: 4, end: 9 };
    let steps = vec![Step::Blend, Step::Skip, Step::BlendAndStop, Step::Blend, Step::BlendAndStop];
    let walk = run_walk(&bin, &steps);
    assert_eq!(walk, PixelWalk { next: 7, end: 9, final_index: 6, done: true });
}

#[test]
fn a_pixel_without_contribution_keeps_the_start_of_its_bin() {
    let bin = TileBin { start: 7, end: 10 };
    let walk = run_walk(&bin, &vec![Step::Skip; 3]);
    assert_eq!(walk.final_index, 7);
    assert_eq!(walk.next, 10);
}

#[test]
fn advance_moves_one_record_at_a_time() {
    let bin = TileBin { start: 2, end: 4 };
    let mut walk = PixelWalk::begin(&bin);
    assert!(!walk.done);
    walk.advance(Step::Skip);
    assert_eq!(walk, PixelWalk { next: 3, end: 4, final_index: 2, done: false });
    walk.advance(Step::Blend);
    assert_eq!(walk, PixelWalk { next: 4, end: 4, final_index: 3, done: true });
}

fn blend(bin: &TileBin, steps: &[Step], alphas: &[f32], colors: &[f32], upto: u32) -> (f32, u32) {
    let mut walk = PixelWalk::begin(bin);
    let mut color = 0.0f32;
    let mut transmittance = 1.0f32;
    while !walk.done && walk.next <= upto {
        let k = (walk.next - bin.start) as usize;
        if steps[k] != Step::Skip {
            color += alphas[k] * transmittance * colors[k];
            transmittance *= 1.0 - alphas[k];
        }
        walk.advance(steps[k]);
    }
    (color, walk.final_index)
}

#[test]
fn walking_only_to_the_final_index_gives_the_same_colour() {
    let bin = TileBin { start: 3, end: 9 };
    let alphas = [0.3f32, 0.0, 0.6, 0.99, 0.5, 0.5];
    let colors = [1.0f32, 0.5, 0.25, 0.75, 1.0, 1.0];
    let steps =
        [Step::Blend, Step::Skip, Step::Blend, Step::BlendAndStop, Step::Blend, Step::Blend];
    let (full, final_index) = blend(&bin, &steps, &alphas, &colors, u32::MAX);
    assert_eq!(final_index, 6);
    assert_eq!(run_walk(&bin, &steps.to_vec()).final_index, 6);
    let (replayed, _) = blend(&bin, &steps, &alphas, &colors, final_index);
    assert_eq!(full, replayed);
    let (short, _) = blend(&bin, &steps, &alphas, &colors, final_index - 1);
    assert_ne!(full, short);
}

#[test]
fn backward_pass_starts_at_the_final_index_and_ends_at_the_bin_start() {
    assert_eq!(backward_span(&TileBin { start: 3, end: 9 }, 6), (6, 4));
    assert_eq!(backward_span(&TileBin { start: 3, end: 9 }, 3), (3, 1));
    assert_eq!(backward_span(&TileBin { start: 0, end: 0 }, 0), (0, 0));
}
