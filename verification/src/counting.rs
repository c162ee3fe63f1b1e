//! Counting facts behind a stable distribution pass.
//!
//! For a sequence of digits `d`, [`slot`] is the place where position `j`
//! lands when the positions are regrouped by digit without reordering equal
//! digits. The lemmas show that `slot` is a bijection on `0..d.len()` that is
//! strictly monotone in `(digit, position)`.
use vstd::prelude::*;

verus! {

/// Number of positions below `k` whose digit equals `b`.
pub open spec fn count_eq(d: Seq<int>, b: int, k: int) -> int
    decreases k,
{
    if k <= 0 {
        0
    } else {
        count_eq(d, b, k - 1) + if d[k - 1] == b { 1int } else { 0int }
    }
}

/// Number of positions below `k` whose digit is smaller than `b`.
pub open spec fn count_lt(d: Seq<int>, b: int, k: int) -> int
    decreases k,
{
    if k <= 0 {
        0
    } else {
        count_lt(d, b, k - 1) + if d[k - 1] < b { 1int } else { 0int }
    }
}

/// Where position `j` lands: behind every smaller digit, and behind the equal
/// digits that stand before it.
pub open spec fn slot(d: Seq<int>, j: int) -> int {
    count_lt(d, d[j], d.len() as int) + count_eq(d, d[j], j)
}

/// `(d[i], i)` comes before `(d[j], j)` in lexicographic order.
pub open spec fn digit_before(d: Seq<int>, i: int, j: int) -> bool {
    d[i] < d[j] || (d[i] == d[j] && i < j)
}

pub proof fn lemma_count_eq_bounds(d: Seq<int>, b: int, k: int)
    requires
        0 <= k,
    ensures
        0 <= count_eq(d, b, k) <= k,
    decreases k,
{
    if k > 0 {
        lemma_count_eq_bounds(d, b, k - 1);
    }
}

pub proof fn lemma_count_eq_mono(d: Seq<int>, b: int, k1: int, k2: int)
    requires
        0 <= k1 <= k2,
    ensures
        count_eq(d, b, k1) <= count_eq(d, b, k2),
    decreases k2,
{
    if k1 < k2 {
        lemma_count_eq_mono(d, b, k1, k2 - 1);
    }
}

pub proof fn lemma_count_lt_bounds(d: Seq<int>, b: int, k: int)
    requires
        0 <= k,
    ensures
        0 <= count_lt(d, b, k) <= k,
    decreases k,
{
    if k > 0 {
        lemma_count_lt_bounds(d, b, k - 1);
    }
}

/// Raising the bound by one digit adds exactly the positions that hold it.
pub proof fn lemma_count_lt_step(d: Seq<int>, b: int, k: int)
    requires
        0 <= k,
    ensures
        count_lt(d, b + 1, k) == count_lt(d, b, k) + count_eq(d, b, k),
    decreases k,
{
    if k > 0 {
        lemma_count_lt_step(d, b, k - 1);
    }
}

pub proof fn lemma_count_lt_mono(d: Seq<int>, b1: int, b2: int, k: int)
    requires
        0 <= k,
        b1 <= b2,
    ensures
        count_lt(d, b1, k) <= count_lt(d, b2, k),
    decreases k,
{
    if k > 0 {
        lemma_count_lt_mono(d, b1, b2, k - 1);
    }
}

/// No digit is below the smallest one.
pub proof fn lemma_count_lt_floor(d: Seq<int>, b: int, k: int)
    requires
        0 <= k <= d.len(),
        forall|i: int| 0 <= i < d.len() ==> b <= #[trigger] d[i],
    ensures
        count_lt(d, b, k) == 0,
    decreases k,
{
    if k > 0 {
        lemma_count_lt_floor(d, b, k - 1);
    }
}

/// Every digit is below a bound that lies above them all.
pub proof fn lemma_count_lt_all(d: Seq<int>, b: int, k: int)
    requires
        0 <= k <= d.len(),
        forall|i: int| 0 <= i < d.len() ==> (#[trigger] d[i]) < b,
    ensures
        count_lt(d, b, k) == k,
    decreases k,
{
    if k > 0 {
        lemma_count_lt_all(d, b, k - 1);
    }
}

/// Where the positions that hold `b` are exactly those of `start..end`, the
/// number of them below `k` is the part of that range that lies below `k`.
pub proof fn lemma_count_eq_range(d: Seq<int>, b: int, start: int, end: int, k: int)
    requires
        0 <= start <= end <= d.len(),
        0 <= k <= d.len(),
        forall|i: int| 0 <= i < d.len() ==> ((#[trigger] d[i]) == b <==> start <= i < end),
    ensures
        count_eq(d, b, k) == if k <= start {
            0
        } else if k <= end {
            k - start
        } else {
            end - start
        },
    decreases k,
{
    if k > 0 {
        lemma_count_eq_range(d, b, start, end, k - 1);
    }
}

/// Every slot lies inside the sequence.
pub proof fn lemma_slot_bounds(d: Seq<int>, j: int)
    requires
        0 <= j < d.len(),
    ensures
        0 <= slot(d, j) < d.len(),
{
    let n = d.len() as int;
    let b = d[j];
    lemma_count_lt_bounds(d, b, n);
    lemma_count_eq_bounds(d, b, j);
    lemma_count_eq_mono(d, b, j + 1, n);
    lemma_count_lt_step(d, b, n);
    lemma_count_lt_bounds(d, b + 1, n);
}

/// `slot` is strictly monotone in `(digit, position)`.
pub proof fn lemma_slot_ordered(d: Seq<int>, i: int, j: int)
    requires
        0 <= i < d.len(),
        0 <= j < d.len(),
        digit_before(d, i, j),
    ensures
        slot(d, i) < slot(d, j),
{
    let n = d.len() as int;
    if d[i] < d[j] {
        lemma_count_eq_mono(d, d[i], i + 1, n);
        lemma_count_lt_step(d, d[i], n);
        lemma_count_lt_mono(d, d[i] + 1, d[j], n);
        lemma_count_eq_bounds(d, d[j], j);
    } else {
        lemma_count_eq_mono(d, d[i], i + 1, j);
    }
}

/// A sequence of `n` distinct values below `n` holds every value below `n`.
pub proof fn lemma_distinct_is_onto(f: Seq<int>, v: int)
    requires
        forall|i: int| 0 <= i < f.len() ==> 0 <= #[trigger] f[i] < f.len(),
        forall|i: int, j: int| 0 <= i < j < f.len() ==> f[i] != f[j],
        0 <= v < f.len(),
    ensures
        exists|i: int| 0 <= i < f.len() && f[i] == v,
{
    let n = f.len() as int;
    assert(f.no_duplicates());
    f.unique_seq_to_set();
    vstd::set_lib::lemma_int_range(0, n);
    let range = vstd::set_lib::set_int_range(0, n);
    assert(f.to_set().subset_of(range)) by {
        assert forall|x: int| f.to_set().contains(x) implies range.contains(x) by {
            let i = choose|i: int| 0 <= i < f.len() && f[i] == x;
            assert(0 <= f[i] < f.len());
        }
    }
    vstd::set_lib::lemma_len_subset(f.to_set(), range);
    vstd::set_lib::lemma_subset_equality(f.to_set(), range);
    assert(range.contains(v));
    assert(f.to_set().contains(v));
    assert(f.contains(v));
}

/// Some place of `order` holds the index `j`.
pub open spec fn names(order: Seq<usize>, j: int) -> bool {
    exists|p: int| 0 <= p < order.len() && order[p] == j
}

/// `order` names every index of `0..order.len()`.
pub open spec fn covers_all(order: Seq<usize>) -> bool {
    forall|j: int| 0 <= j < order.len() ==> #[trigger] names(order, j)
}

/// The index that stands at place `p` of `order`.
pub open spec fn index_at(order: Seq<usize>, p: int) -> int {
    order[p] as int
}

/// A list of as many distinct indices as it is long, each below its length,
/// names every index.
pub proof fn lemma_distinct_covers(order: Seq<usize>)
    requires
        forall|p: int| 0 <= p < order.len() ==> (#[trigger] order[p]) < order.len(),
        forall|p: int, q: int| 0 <= p < q < order.len() ==> order[p] != order[q],
    ensures
        covers_all(order),
{
    let f = Seq::new(order.len(), |p: int| order[p] as int);
    assert forall|j: int| 0 <= j < order.len() implies #[trigger] names(order, j) by {
        assert forall|i: int| 0 <= i < f.len() implies 0 <= #[trigger] f[i] < f.len() by {
            assert(order[i] < order.len());
        }
        lemma_distinct_is_onto(f, j);
        let p = choose|p: int| 0 <= p < f.len() && f[p] == j;
        assert(order[p] == j);
    }
}

/// Every place of the sequence is the slot of some position.
pub proof fn lemma_slot_onto(d: Seq<int>, q: int)
    requires
        0 <= q < d.len(),
    ensures
        exists|j: int| 0 <= j < d.len() && slot(d, j) == q,
{
    let f = Seq::new(d.len(), |j: int| slot(d, j));
    assert forall|i: int| 0 <= i < f.len() implies 0 <= #[trigger] f[i] < f.len() by {
        lemma_slot_bounds(d, i);
    }
    assert forall|i: int, j: int| 0 <= i < j < f.len() implies f[i] != f[j] by {
        if digit_before(d, i, j) {
            lemma_slot_ordered(d, i, j);
        } else {
            lemma_slot_ordered(d, j, i);
        }
    }
    lemma_distinct_is_onto(f, q);
    let j = choose|j: int| 0 <= j < f.len() && f[j] == q;
    assert(slot(d, j) == q);
}

} // verus!
