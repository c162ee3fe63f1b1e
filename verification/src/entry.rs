//! What a render call decides before any kernel runs, and what its backward
//! pass hands to the differentiation engine.
use vstd::prelude::*;
use crate::error::RenderError;
use crate::tiles::{tiles_across, TileGrid};

verus! {

/// Shapes of the per-splat input arrays of a render call, rows first.
#[derive(Clone, Copy, Debug)]
pub struct SplatShapes {
    /// Positions: one row of 3 per splat.
    pub means: (usize, usize),
    /// Log-scales: one row of 3 per splat.
    pub scales: (usize, usize),
    /// Rotation quaternions: one row of 4 per splat.
    pub quats: (usize, usize),
    /// Colour coefficients: one row of `3 * K` per splat, `K >= 1`.
    pub colors: (usize, usize),
    /// Raw opacities: one value per splat.
    pub opacities: usize,
}

impl SplatShapes {
    /// All arrays describe the same number of splats and every row has the
    /// width that its array calls for.
    pub open spec fn consistent(&self) -> bool {
        &&& self.means.1 == 3
        &&& self.scales == (self.means.0, 3usize)
        &&& self.quats == (self.means.0, 4usize)
        &&& self.colors.0 == self.means.0
        &&& self.colors.1 >= 3
        &&& self.colors.1 % 3 == 0
        &&& self.opacities == self.means.0
    }

    /// Number of splats that the arrays describe.
    pub open spec fn count(&self) -> usize {
        self.means.0
    }
}

/// Lengths of the flat arrays that an import hands over for one batch of
/// splats.
#[derive(Clone, Copy, Debug, PartialEq, Eq, Structural)]
pub struct BatchLengths {
    pub means: usize,
    pub sh_coeffs: usize,
    pub rotation: usize,
    pub opacity: usize,
    pub scales: usize,
}

impl BatchLengths {
    /// Number of splats in the batch: a third of the position values.
    pub open spec fn splats(&self) -> int {
        self.means as int / 3
    }

    /// The arrays hold whole splats, at least one, and all the same number
    /// of them, with the same number of colour coefficients for each.
    pub open spec fn whole(&self) -> bool {
        let n = self.splats();
        &&& n > 0
        &&& self.means == 3 * n
        &&& self.scales == 3 * n
        &&& self.rotation == 4 * n
        &&& self.opacity == n
        &&& self.sh_coeffs % (n as usize) == 0
    }
}

/// The shapes of the arrays of a batch: one row per splat.
pub open spec fn shapes_of(lengths: BatchLengths) -> SplatShapes {
    let n = (lengths.means / 3) as usize;
    SplatShapes {
        means: (n, 3),
        scales: (n, 3),
        quats: (n, 4),
        colors: (n, (lengths.sh_coeffs / n) as usize),
        opacities: n,
    }
}

/// The shapes of the arrays of a batch of imported splats, where the arrays
/// hold whole splats and at least one; nothing otherwise.
pub fn batch_shapes(lengths: &BatchLengths) -> (r: Option<SplatShapes>)
    ensures
        match r {
            Some(shapes) => lengths.whole() && shapes == shapes_of(*lengths),
            None => !lengths.whole(),
        },
{
    let n = lengths.means / 3;
    if n == 0 || lengths.means % 3 != 0 || lengths.scales != lengths.means || lengths.opacity != n
        || lengths.rotation / 4 != n || lengths.rotation % 4 != 0 {
        return None;
    }
    let per_splat = lengths.sh_coeffs / n;
    if lengths.sh_coeffs % n != 0 {
        return None;
    }
    Some(
        SplatShapes {
            means: (n, 3),
            scales: (n, 3),
            quats: (n, 4),
            colors: (n, per_splat),
            opacities: n,
        },
    )
}

/// Number of splats after which an import hands over what it has read.
pub const UPDATE_EVERY: usize = 50000;

/// Whether an import hands over the splats read so far once it has read
/// splat number `i`, counted from zero: it does behind every 50000th splat.
/// What is left at the end of the file is handed over whatever its number.
pub fn batch_is_due(i: usize) -> (due: bool)
    ensures
        due == (i % 50000 == 49999),
{
    i % UPDATE_EVERY == UPDATE_EVERY - 1
}

/// Sizes of the buffers of one forward pass.
#[derive(Clone, Copy, Debug)]
pub struct ForwardPlan {
    /// Number of splats.
    pub num_points: u32,
    /// The tile grid of the image.
    pub grid: TileGrid,
    /// Shape of the tile bins: rows of tiles, tiles per row, 2.
    pub tile_bins: (usize, usize, usize),
    /// Shape of the output image: height, width, 4.
    pub out_img: (usize, usize, usize),
    /// Shape of the per-pixel final index: height, width.
    pub final_index: (usize, usize),
}

/// The reason for which a forward pass is refused before it starts, if there
/// is one. Shapes are checked first, then the resolution.
pub open spec fn forward_error(shapes: SplatShapes, width: u32, height: u32) -> Option<
    RenderError,
> {
    if !shapes.consistent() {
        Some(RenderError::ShapeMismatch)
    } else if shapes.count() > u32::MAX {
        Some(RenderError::TooManySplats)
    } else if width == 0 || height == 0 {
        Some(RenderError::ZeroResolution)
    } else if tiles_across(width) * tiles_across(height) > u32::MAX {
        Some(RenderError::GridTooLarge)
    } else {
        None
    }
}

/// The plan of a forward pass that is not refused.
pub open spec fn forward_plan(shapes: SplatShapes, width: u32, height: u32) -> ForwardPlan {
    ForwardPlan {
        num_points: shapes.count() as u32,
        grid: TileGrid { cols: tiles_across(width) as u32, rows: tiles_across(height) as u32 },
        tile_bins: (tiles_across(height) as usize, tiles_across(width) as usize, 2),
        out_img: (height as usize, width as usize, 4),
        final_index: (height as usize, width as usize),
    }
}

/// Checks the inputs of a forward pass and sizes its buffers.
pub fn plan_forward(shapes: &SplatShapes, width: u32, height: u32) -> (r: Result<
    ForwardPlan,
    RenderError,
>)
    ensures
        match r {
            Ok(plan) => forward_error(*shapes, width, height) == None::<RenderError> && plan
                == forward_plan(*shapes, width, height) && plan.grid.wf(),
            Err(e) => forward_error(*shapes, width, height) == Some(e),
        },
{
    let n = shapes.means.0;
    if !(shapes.means.1 == 3 && shapes.scales.0 == n && shapes.scales.1 == 3 && shapes.quats.0 == n
        && shapes.quats.1 == 4 && shapes.colors.0 == n && shapes.colors.1 >= 3 && shapes.colors.1
        % 3 == 0 && shapes.opacities == n) {
        return Err(RenderError::ShapeMismatch);
    }
    if n > 0xffff_ffff {
        return Err(RenderError::TooManySplats);
    }
    let grid = match TileGrid::new(width, height) {
        Ok(grid) => grid,
        Err(e) => {
            return Err(e);
        },
    };
    Ok(
        ForwardPlan {
            num_points: n as u32,
            grid,
            tile_bins: (grid.rows as usize, grid.cols as usize, 2),
            out_img: (height as usize, width as usize, 4),
            final_index: (height as usize, width as usize),
        },
    )
}

/// Checks the output gradient that a backward pass is handed, and gives the
/// shapes of the gradients that the pass produces.
///
/// The output gradient has to have the shape of the image of the forward
/// pass. Every gradient has the shape of the input that it belongs to.
pub fn plan_backward(
    shapes: &SplatShapes,
    plan: &ForwardPlan,
    v_output: (usize, usize, usize),
) -> (r: Result<SplatShapes, RenderError>)
    ensures
        v_output != plan.out_img ==> r == Err::<SplatShapes, RenderError>(
            RenderError::ShapeMismatch,
        ),
        v_output == plan.out_img ==> r == Ok::<SplatShapes, RenderError>(*shapes),
{
    if v_output.0 != plan.out_img.0 || v_output.1 != plan.out_img.1 || v_output.2
        != plan.out_img.2 {
        return Err(RenderError::ShapeMismatch);
    }
    Ok(*shapes)
}

/// The five inputs of a render call that can receive a gradient.
#[derive(Clone, Copy, Debug, PartialEq, Eq, Structural)]
pub enum SplatInput {
    Means,
    Scales,
    Quats,
    Colors,
    Opacity,
}

/// The input that stands at place `k` among the parents of a render call.
pub open spec fn input_at(k: int) -> SplatInput {
    if k == 0 {
        SplatInput::Means
    } else if k == 1 {
        SplatInput::Scales
    } else if k == 2 {
        SplatInput::Quats
    } else if k == 3 {
        SplatInput::Colors
    } else {
        SplatInput::Opacity
    }
}

/// The gradients to register for the first `k` parents: one for every parent
/// that is tracked, under that parent's node id, in the order of the parents.
pub open spec fn registrations_upto(parents: Seq<Option<u64>>, k: int) -> Seq<(u64, SplatInput)>
    decreases k,
{
    if k <= 0 {
        Seq::empty()
    } else {
        match parents[k - 1] {
            Some(id) => registrations_upto(parents, k - 1).push((id, input_at(k - 1))),
            None => registrations_upto(parents, k - 1),
        }
    }
}

/// The input that stands at place `k` among the parents of a render call.
fn input_of(k: usize) -> (input: SplatInput)
    ensures
        input == input_at(k as int),
{
    if k == 0 {
        SplatInput::Means
    } else if k == 1 {
        SplatInput::Scales
    } else if k == 2 {
        SplatInput::Quats
    } else if k == 3 {
        SplatInput::Colors
    } else {
        SplatInput::Opacity
    }
}

/// The gradients that a backward pass registers.
///
/// `parents` holds, for means, scales, quaternions, colours and opacity in
/// this order, the node id of the input if the input is tracked. A tracked
/// input gets exactly one gradient, under its own node id; an input that is
/// not tracked gets none.
pub fn gradient_registrations(parents: &[Option<u64>; 5]) -> (out: Vec<(u64, SplatInput)>)
    ensures
        out@ == registrations_upto(parents@, 5),
{
    let mut out: Vec<(u64, SplatInput)> = Vec::new();
    let mut k: usize = 0;
    while k < 5
        invariant
            k <= 5,
            out@ == registrations_upto(parents@, k as int),
        decreases 5 - k,
    {
        match parents[k] {
            Some(id) => {
                out.push((id, input_of(k)));
            },
            None => {},
        }
        k += 1;
    }
    out
}

/// Whether a forward pass has to keep its state for a backward pass: it has
/// to as soon as one input is tracked.
pub fn needs_backward_state(parents: &[Option<u64>; 5]) -> (needed: bool)
    ensures
        needed == exists|k: int| 0 <= k < 5 && (#[trigger] parents@[k]) is Some,
{
    let mut k: usize = 0;
    while k < 5
        invariant
            k <= 5,
            forall|j: int| 0 <= j < k ==> (#[trigger] parents@[j]) is None,
        decreases 5 - k,
    {
        if parents[k].is_some() {
            return true;
        }
        k += 1;
    }
    false
}

/// The five inputs in the order in which a render call takes them.
pub open spec fn all_inputs() -> Seq<SplatInput> {
    seq![
        SplatInput::Means,
        SplatInput::Scales,
        SplatInput::Quats,
        SplatInput::Colors,
        SplatInput::Opacity,
    ]
}

/// The inputs that a forward pass checkpoints before it returns.
///
/// As soon as one input is tracked the backward pass will run, and it needs
/// all five inputs: the pass checkpoints every one of them, in the order
/// means, scales, quaternions, colours, opacity. Where no input is tracked it
/// checkpoints none and keeps no state.
pub fn checkpoint_inputs(parents: &[Option<u64>; 5]) -> (out: Vec<SplatInput>)
    ensures
        (exists|k: int| 0 <= k < 5 && (#[trigger] parents@[k]) is Some) ==> out@ == all_inputs(),
        !(exists|k: int| 0 <= k < 5 && (#[trigger] parents@[k]) is Some) ==> out@
            == Seq::<SplatInput>::empty(),
{
    let mut out: Vec<SplatInput> = Vec::new();
    if needs_backward_state(parents) {
        out.push(SplatInput::Means);
        out.push(SplatInput::Scales);
        out.push(SplatInput::Quats);
        out.push(SplatInput::Colors);
        out.push(SplatInput::Opacity);
        assert(out@ =~= all_inputs());
    }
    out
}

} // verus!
