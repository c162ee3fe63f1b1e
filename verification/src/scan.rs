//! Exclusive prefix sum over per-splat tile-hit counts.
use vstd::prelude::*;
use crate::error::RenderError;

verus! {

/// Number of elements that one block of the scan covers.
pub const SCAN_BLOCK: usize = 256;

/// Sum of the first `k` counts.
pub open spec fn sum_upto(counts: Seq<u32>, k: int) -> int
    decreases k,
{
    if k <= 0 {
        0
    } else {
        sum_upto(counts, k - 1) + counts[k - 1]
    }
}

/// Sum of all counts.
pub open spec fn sum_all(counts: Seq<u32>) -> int {
    sum_upto(counts, counts.len() as int)
}

/// The sums grow with the number of counts taken.
pub proof fn lemma_sum_upto_mono(counts: Seq<u32>, k1: int, k2: int)
    requires
        0 <= k1 <= k2,
    ensures
        0 <= sum_upto(counts, k1) <= sum_upto(counts, k2),
    decreases k2,
{
    if k1 < k2 {
        lemma_sum_upto_mono(counts, k1, k2 - 1);
    } else if k1 > 0 {
        lemma_sum_upto_mono(counts, k1 - 1, k2 - 1);
    }
}

/// The result of a scan: one write offset per input and the grand total.
pub struct Scan {
    /// `offsets[i]` is the sum of the counts before `i`.
    pub offsets: Vec<u32>,
    /// Sum of all counts.
    pub total: u32,
}

/// `offsets` is the exclusive prefix sum of `counts`: every offset is the sum
/// of the counts before it.
pub open spec fn is_offsets_of(offsets: Seq<u32>, counts: Seq<u32>) -> bool {
    &&& offsets.len() == counts.len()
    &&& forall|i: int| 0 <= i < counts.len() ==> (#[trigger] offsets[i]) == sum_upto(counts, i)
}

impl Scan {
    /// This scan is the exclusive prefix sum of `counts`, with their total.
    pub open spec fn is_scan_of(&self, counts: Seq<u32>) -> bool {
        &&& is_offsets_of(self.offsets@, counts)
        &&& self.total == sum_all(counts)
    }
}

/// Where block `b` starts in an input of `n` elements; the end of the input
/// for a block that lies behind it.
pub open spec fn block_start(b: int, n: int) -> int {
    if b * 256 <= n {
        b * 256
    } else {
        n
    }
}

/// Sum of the counts of block `b`. The last block may be filled in part: the
/// elements that it lacks count as zero.
pub open spec fn block_sum(counts: Seq<u32>, b: int) -> int {
    sum_upto(counts, block_start(b + 1, counts.len() as int)) - sum_upto(
        counts,
        block_start(b, counts.len() as int),
    )
}

/// Sum of the counts that stand before `i` in the block of `i`.
pub open spec fn local_sum(counts: Seq<u32>, i: int) -> int {
    sum_upto(counts, i) - sum_upto(counts, (i / 256) * 256)
}

/// Number of blocks that an input of `n` elements takes.
fn block_count(n: usize) -> (blocks: usize)
    ensures
        blocks * 256 >= n,
        n > 0 ==> (blocks - 1) * 256 < n,
        n == 0 ==> blocks == 0,
{
    if n % SCAN_BLOCK == 0 {
        n / SCAN_BLOCK
    } else {
        n / SCAN_BLOCK + 1
    }
}

/// First pass: scans every block on its own. Gives, for every element, the
/// sum of the counts before it in its block, and for every block the sum of
/// its counts; nothing where a block's sum does not fit in 32 bits.
fn scan_blocks(counts: &Vec<u32>) -> (r: Option<(Vec<u32>, Vec<u32>)>)
    ensures
        match r {
            Some((local, sums)) => {
                &&& local.len() == counts.len()
                &&& forall|i: int|
                    0 <= i < counts.len() ==> (#[trigger] local@[i]) == local_sum(counts@, i)
                &&& sums.len() * 256 >= counts.len()
                &&& forall|b: int|
                    0 <= b < sums.len() ==> (#[trigger] sums@[b]) == block_sum(counts@, b)
            },
            None => sum_all(counts@) > u32::MAX,
        },
{
    let n = counts.len();
    let blocks = block_count(n);
    let mut local: Vec<u32> = Vec::with_capacity(n);
    let mut sums: Vec<u32> = Vec::with_capacity(blocks);
    let mut b: usize = 0;
    let mut base: usize = 0;
    while b < blocks
        invariant
            b <= blocks,
            n == counts.len(),
            blocks * 256 >= n,
            n > 0 ==> (blocks - 1) * 256 < n,
            n == 0 ==> blocks == 0,
            base == block_start(b as int, n as int),
            local.len() == base,
            sums.len() == b,
            forall|i: int| 0 <= i < base ==> (#[trigger] local@[i]) == local_sum(counts@, i),
            forall|c: int| 0 <= c < b ==> (#[trigger] sums@[c]) == block_sum(counts@, c),
        decreases blocks - b,
    {
        let end: usize = if n - base < SCAN_BLOCK {
            n
        } else {
            base + SCAN_BLOCK
        };
        assert(base == b * 256);
        assert(end == block_start(b + 1, n as int));
        let mut acc: u32 = 0;
        let mut i: usize = base;
        while i < end
            invariant
                base <= i <= end,
                end <= n,
                end <= base + 256,
                base == b * 256,
                n == counts.len(),
                local.len() == i,
                acc == sum_upto(counts@, i as int) - sum_upto(counts@, base as int),
                forall|j: int| 0 <= j < i ==> (#[trigger] local@[j]) == local_sum(counts@, j),
            decreases end - i,
        {
            assert(i / 256 == b);
            local.push(acc);
            let c: u32 = counts[i];
            if c > u32::MAX - acc {
                proof {
                    lemma_sum_upto_mono(counts@, 0, base as int);
                    lemma_sum_upto_mono(counts@, i + 1, n as int);
                }
                return None;
            }
            acc = acc + c;
            i += 1;
        }
        sums.push(acc);
        base = end;
        b += 1;
    }
    assert(base == n);
    Some((local, sums))
}

/// Second pass: scans the block sums. Gives, for every block, the sum of all
/// counts before the block, and the grand total; nothing where the total does
/// not fit in 32 bits.
fn scan_carries(counts: &Vec<u32>, sums: &Vec<u32>) -> (r: Option<(Vec<u32>, u32)>)
    requires
        sums.len() * 256 >= counts.len(),
        forall|b: int| 0 <= b < sums.len() ==> (#[trigger] sums@[b]) == block_sum(counts@, b),
    ensures
        match r {
            Some((carries, total)) => {
                &&& carries.len() == sums.len()
                &&& forall|b: int|
                    0 <= b < sums.len() ==> (#[trigger] carries@[b]) == sum_upto(
                        counts@,
                        block_start(b, counts.len() as int),
                    )
                &&& total == sum_all(counts@)
            },
            None => sum_all(counts@) > u32::MAX,
        },
{
    let n = counts.len();
    let blocks = sums.len();
    let mut carries: Vec<u32> = Vec::with_capacity(blocks);
    let mut carry: u32 = 0;
    let mut b: usize = 0;
    while b < blocks
        invariant
            b <= blocks,
            blocks == sums.len(),
            n == counts.len(),
            blocks * 256 >= n,
            forall|c: int| 0 <= c < sums.len() ==> (#[trigger] sums@[c]) == block_sum(counts@, c),
            carries.len() == b,
            carry == sum_upto(counts@, block_start(b as int, n as int)),
            forall|c: int|
                0 <= c < b ==> (#[trigger] carries@[c]) == sum_upto(
                    counts@,
                    block_start(c, n as int),
                ),
        decreases blocks - b,
    {
        carries.push(carry);
        let s: u32 = sums[b];
        if s > u32::MAX - carry {
            proof {
                lemma_sum_upto_mono(counts@, block_start(b + 1, n as int), n as int);
            }
            return None;
        }
        carry = carry + s;
        b += 1;
    }
    Some((carries, carry))
}

/// Exclusive prefix sum of `counts`, with the grand total.
///
/// The scan runs in three passes over blocks of [`SCAN_BLOCK`] elements:
/// every block is scanned on its own, the sums of the blocks are scanned into
/// one carry per block, and every element is shifted by the carry of its
/// block. A last block that is filled only in part is scanned as far as it
/// goes. Fails when the total does not fit in 32 bits.
pub fn prefix_sum(counts: &Vec<u32>) -> (r: Result<Scan, RenderError>)
    ensures
        match r {
            Ok(scan) => sum_all(counts@) <= u32::MAX && scan.is_scan_of(counts@),
            Err(e) => sum_all(counts@) > u32::MAX && e == RenderError::IntersectionOverflow,
        },
{
    let n = counts.len();
    let (local, sums) = match scan_blocks(counts) {
        Some(pair) => pair,
        None => {
            return Err(RenderError::IntersectionOverflow);
        },
    };
    let (carries, total) = match scan_carries(counts, &sums) {
        Some(pair) => pair,
        None => {
            return Err(RenderError::IntersectionOverflow);
        },
    };
    let mut offsets: Vec<u32> = Vec::with_capacity(n);
    let mut i: usize = 0;
    while i < n
        invariant
            i <= n,
            n == counts.len(),
            local.len() == n,
            carries.len() == sums.len(),
            sums.len() * 256 >= n,
            total == sum_all(counts@),
            forall|j: int| 0 <= j < n ==> (#[trigger] local@[j]) == local_sum(counts@, j),
            forall|b: int|
                0 <= b < carries.len() ==> (#[trigger] carries@[b]) == sum_upto(
                    counts@,
                    block_start(b, n as int),
                ),
            offsets.len() == i,
            forall|j: int| 0 <= j < i ==> (#[trigger] offsets@[j]) == sum_upto(counts@, j),
        decreases n - i,
    {
        let b = i / SCAN_BLOCK;
        proof {
            lemma_sum_upto_mono(counts@, i as int, n as int);
            assert(block_start(b as int, n as int) == b * 256);
        }
        offsets.push(carries[b] + local[i]);
        i += 1;
    }
    Ok(Scan { offsets, total })
}

} // verus!
