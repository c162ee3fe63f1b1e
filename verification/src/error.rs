//! Why a render call is refused.
use vstd::prelude::*;

verus! {

/// The reasons for which a render call ends before any tile is filled.
#[derive(Clone, Copy, Debug, PartialEq, Eq, Structural)]
pub enum RenderError {
    /// The output image has no pixels: its width or its height is zero.
    ZeroResolution,
    /// The per-splat arrays do not all describe the same number of splats, or
    /// one of them has the wrong number of columns.
    ShapeMismatch,
    /// There are more splats than a 32-bit splat id can number.
    TooManySplats,
    /// A splat's tile rectangle reaches beyond the tile grid.
    RectOutsideGrid,
    /// The image has more tiles than a 32-bit tile id can number.
    GridTooLarge,
    /// The splats overlap more tiles in total than a 32-bit count can hold, so
    /// the intersection buffers cannot be sized.
    IntersectionOverflow,
}

} // verus!
