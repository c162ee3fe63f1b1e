//! The walk of one pixel through the bin of its tile.
//!
//! The colours are blended in floating point by the caller. What is decided
//! here is which records a pixel visits, where the walk ends, and which index
//! is kept for the backward pass.
use vstd::prelude::*;
use crate::bins::TileBin;

verus! {

/// What blending one record did to a pixel.
#[derive(Clone, Copy, Debug, PartialEq, Eq, Structural)]
pub enum Step {
    /// The record added nothing.
    Skip,
    /// The record was blended and light still passes.
    Blend,
    /// The record was blended and the transmittance fell below the threshold:
    /// the walk ends here.
    BlendAndStop,
}

/// The state of a pixel's walk through a bin.
#[derive(Clone, Copy, Debug, PartialEq, Eq, Structural)]
pub struct PixelWalk {
    /// Index of the record to visit next.
    pub next: u32,
    /// End of the bin.
    pub end: u32,
    /// Index of the last record that was blended; the start of the bin while
    /// none was.
    pub final_index: u32,
    /// The walk is over.
    pub done: bool,
}

/// The walk reaches record `k` of the bin: no earlier record ended it.
pub open spec fn visited(steps: Seq<Step>, k: int) -> bool {
    &&& 0 <= k < steps.len()
    &&& forall|j: int| 0 <= j < k ==> #[trigger] steps[j] != Step::BlendAndStop
}

/// Record `k` of the bin is blended into the pixel.
pub open spec fn contributes(steps: Seq<Step>, k: int) -> bool {
    visited(steps, k) && steps[k] != Step::Skip
}

/// `index` is the final index of a walk over a bin that starts at `start`,
/// where visiting the bin's records has the outcomes `steps`: the index of
/// the last record that is blended, or `start` where none is.
pub open spec fn is_final_index(steps: Seq<Step>, start: int, index: int) -> bool {
    let k = index - start;
    ||| (contributes(steps, k) && forall|j: int| k < j ==> !#[trigger] contributes(steps, j))
    ||| (k == 0 && forall|j: int| !#[trigger] contributes(steps, j))
}

impl PixelWalk {
    /// The walk at the start of `bin`. In an empty bin it is over at once.
    pub fn begin(bin: &TileBin) -> (walk: PixelWalk)
        ensures
            walk == (PixelWalk {
                next: bin.start,
                end: bin.end,
                final_index: bin.start,
                done: bin.start >= bin.end,
            }),
    {
        PixelWalk { next: bin.start, end: bin.end, final_index: bin.start, done: bin.start >= bin.end }
    }

    /// Takes in what blending the record at `next` did, and moves on. A
    /// blended record becomes the final index. The walk is over after a
    /// record that ends it and after the last record of the bin.
    pub fn advance(&mut self, step: Step)
        requires
            !old(self).done,
            old(self).next < old(self).end,
        ensures
            final(self).next == old(self).next + 1,
            final(self).end == old(self).end,
            final(self).final_index == if step == Step::Skip {
                old(self).final_index
            } else {
                old(self).next
            },
            final(self).done == (step == Step::BlendAndStop || old(self).next + 1 == old(self).end),
    {
        match step {
            Step::Skip => {},
            Step::Blend => {
                self.final_index = self.next;
            },
            Step::BlendAndStop => {
                self.final_index = self.next;
                self.done = true;
            },
        }
        self.next = self.next + 1;
        if self.next == self.end {
            self.done = true;
        }
    }
}

/// Walks a pixel through `bin`, where visiting record `bin.start + k` has the
/// outcome `steps[k]`, and returns the state at the end of the walk.
pub fn run_walk(bin: &TileBin, steps: &Vec<Step>) -> (walk: PixelWalk)
    requires
        bin.start <= bin.end,
        steps.len() == bin.end - bin.start,
    ensures
        walk.done,
        walk.end == bin.end,
        is_final_index(steps@, bin.start as int, walk.final_index as int),
        bin.start <= walk.next <= bin.end,
        forall|k: int| 0 <= k < steps.len() ==> (visited(steps@, k) <==> bin.start + k < walk.next),
{
    let mut walk = PixelWalk::begin(bin);
    let mut k: usize = 0;
    while !walk.done
        invariant
            bin.start <= bin.end,
            steps.len() == bin.end - bin.start,
            walk.end == bin.end,
            walk.next == bin.start + k,
            k <= steps.len(),
            !walk.done ==> k < steps.len(),
            walk.done ==> (k == steps.len() || (k > 0 && steps@[k - 1] == Step::BlendAndStop)),
            forall|j: int| 0 <= j < k - 1 ==> #[trigger] steps@[j] != Step::BlendAndStop,
            !walk.done && k > 0 ==> steps@[k - 1] != Step::BlendAndStop,
            bin.start <= walk.final_index,
            walk.final_index - bin.start < k || walk.final_index == bin.start,
            ({
                let f = walk.final_index - bin.start;
                ||| (f < k && steps@[f] != Step::Skip && forall|j: int|
                    f < j < k ==> #[trigger] steps@[j] == Step::Skip)
                ||| (f == 0 && forall|j: int| 0 <= j < k ==> #[trigger] steps@[j] == Step::Skip)
            }),
        decreases steps.len() - k,
    {
        walk.advance(steps[k]);
        k += 1;
    }
    proof {
        let f = walk.final_index - bin.start;
        assert forall|j: int| 0 <= j < steps.len() implies (visited(steps@, j) <==> j < k) by {
            if j >= k {
                assert(steps@[k - 1] == Step::BlendAndStop);
            }
        }
        if f < k && steps@[f] != Step::Skip {
            assert(contributes(steps@, f));
            assert forall|j: int| f < j implies !#[trigger] contributes(steps@, j) by {
                if contributes(steps@, j) {
                    assert(visited(steps@, j));
                    assert(j < k);
                }
            }
        } else {
            assert forall|j: int| !#[trigger] contributes(steps@, j) by {
                if contributes(steps@, j) {
                    assert(visited(steps@, j));
                    assert(j < k);
                }
            }
        }
    }
    walk
}

/// The records that the backward pass of a pixel visits, last first: it
/// starts at the final index of the forward walk and goes back to the start
/// of the bin. In an empty bin it visits nothing.
pub fn backward_span(bin: &TileBin, final_index: u32) -> (span: (u32, u32))
    requires
        bin.start <= bin.end,
        bin.start <= final_index,
        final_index < bin.end || final_index == bin.start,
    ensures
        span.0 == final_index,
        span.1 == if bin.start < bin.end {
            final_index - bin.start + 1
        } else {
            0
        },
{
    if bin.start < bin.end {
        (final_index, final_index - bin.start + 1)
    } else {
        (final_index, 0)
    }
}

/// The outcomes of a walk that is cut off behind the record at `index`: the
/// records from the start of the bin up to and including that one.
pub open spec fn cut_behind(steps: Seq<Step>, start: int, index: int) -> Seq<Step> {
    if index - start + 1 <= steps.len() {
        steps.take(index - start + 1)
    } else {
        steps
    }
}

/// Stopping early loses nothing: a walk from the start of the bin to the
/// final index blends the same records as the whole walk, so it gives the
/// pixel the same colour.
pub proof fn lemma_early_exit_is_idempotent(steps: Seq<Step>, start: int, index: int, k: int)
    requires
        is_final_index(steps, start, index),
    ensures
        contributes(steps, k) ==> k <= index - start,
        contributes(cut_behind(steps, start, index), k) <==> contributes(steps, k),
{
    let f = index - start;
    let cut = cut_behind(steps, start, index);
    assert(0 <= f);
    if contributes(steps, k) {
        assert(k <= f);
        assert(visited(cut, k)) by {
            assert forall|j: int| 0 <= j < k implies #[trigger] cut[j] != Step::BlendAndStop by {
                assert(steps[j] != Step::BlendAndStop);
            }
        }
    }
    if contributes(cut, k) {
        assert(visited(steps, k)) by {
            assert forall|j: int| 0 <= j < k implies #[trigger] steps[j] != Step::BlendAndStop by {
                assert(cut[j] != Step::BlendAndStop);
            }
        }
    }
}

} // verus!
