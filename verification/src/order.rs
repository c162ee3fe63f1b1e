//! Sorting order of a slice.
use std::cmp::Ordering;
use vstd::prelude::*;
use vstd::std_specs::cmp::OrdSpec;
use crate::counting::{covers_all, index_at, lemma_distinct_covers};

verus! {

/// `x` is not greater than `y`.
pub open spec fn at_most<T: Ord>(x: T, y: T) -> bool {
    x.cmp_spec(&y) != Ordering::Greater
}

/// Comparing two items of `T` gives what `cmp_spec` says, any two items can
/// be compared, and "not greater" carries over from pair to pair.
pub open spec fn is_total_order<T: Ord>() -> bool {
    &&& T::obeys_cmp_spec()
    &&& forall|x: T, y: T| #[trigger] at_most(x, y) || at_most(y, x)
    &&& forall|x: T, y: T, z: T| #[trigger]
        at_most(x, y) && #[trigger] at_most(y, z) ==> at_most(x, z)
}

/// Item `a` comes before item `b` once `items` is sorted: it is smaller, or
/// the two are equal and `a` stands first in `items`.
pub open spec fn item_before<T: Ord>(items: Seq<T>, a: int, b: int) -> bool {
    if at_most(items[b], items[a]) {
        at_most(items[a], items[b]) && a < b
    } else {
        true
    }
}

/// Every index of `order` comes before `x`.
pub open spec fn all_before<T: Ord>(items: Seq<T>, order: Seq<usize>, x: int) -> bool {
    forall|p: int| 0 <= p < order.len() ==> item_before(items, #[trigger] index_at(order, p), x)
}

/// `order` lists indices of `items` in sorted order: of two places the first
/// holds the smaller item, or an equal item that stands first in `items`.
pub open spec fn ascending<T: Ord>(items: Seq<T>, order: Seq<usize>) -> bool {
    forall|p: int, q: int|
        0 <= p < q < order.len() ==> item_before(
            items,
            #[trigger] index_at(order, p),
            #[trigger] index_at(order, q),
        )
}

/// Every index of `order` lies in `lo..hi`.
pub open spec fn within(order: Seq<usize>, lo: int, hi: int) -> bool {
    forall|p: int| 0 <= p < order.len() ==> lo <= #[trigger] index_at(order, p) < hi
}

/// `order` is the stable sorting order of `items`.
pub open spec fn is_argsort<T: Ord>(items: Seq<T>, order: Seq<usize>) -> bool {
    &&& order.len() == items.len()
    &&& within(order, 0, items.len() as int)
    &&& ascending(items, order)
    &&& covers_all(order)
}

/// The unsigned 64-bit integers are totally ordered.
pub proof fn lemma_u64_is_total_order()
    ensures
        is_total_order::<u64>(),
{
}

/// What comes before an item comes before everything behind that item.
proof fn lemma_before_carries<T: Ord>(items: Seq<T>, a: int, b: int, c: int)
    requires
        is_total_order::<T>(),
        item_before(items, a, b),
        item_before(items, b, c),
    ensures
        item_before(items, a, c),
{
    let (x, y, z) = (items[a], items[b], items[c]);
    assert(at_most(x, y) || at_most(y, x));
    assert(at_most(y, z) || at_most(z, y));
    assert(at_most(x, z) || at_most(z, x));
    if at_most(z, x) {
        if at_most(x, y) {
            assert(at_most(z, y));
        }
        if at_most(y, z) {
            assert(at_most(y, x));
        }
    }
}

/// No item comes before itself.
proof fn lemma_before_differs<T: Ord>(items: Seq<T>, a: int)
    requires
        is_total_order::<T>(),
    ensures
        !item_before(items, a, a),
{
    assert(at_most(items[a], items[a]) || at_most(items[a], items[a]));
}

/// Adding an index behind a sorted list that lies before it keeps the list
/// sorted, and what the index lies before, the whole list lies before.
proof fn lemma_push_keeps_order<T: Ord>(items: Seq<T>, order: Seq<usize>, z: usize)
    requires
        is_total_order::<T>(),
        ascending(items, order),
        all_before(items, order, z as int),
    ensures
        ascending(items, order.push(z)),
        forall|x: int| item_before(items, z as int, x) ==> all_before(items, order.push(z), x),
{
    let longer = order.push(z);
    assert forall|p: int, q: int| 0 <= p < q < longer.len() implies item_before(
        items,
        #[trigger] index_at(longer, p),
        #[trigger] index_at(longer, q),
    ) by {
        if q < order.len() {
            assert(index_at(longer, p) == index_at(order, p));
            assert(index_at(longer, q) == index_at(order, q));
        } else {
            assert(index_at(longer, p) == index_at(order, p));
        }
    }
    assert forall|x: int| item_before(items, z as int, x) implies all_before(items, longer, x) by {
        assert forall|p: int| 0 <= p < longer.len() implies item_before(
            items,
            #[trigger] index_at(longer, p),
            x,
        ) by {
            if p < order.len() {
                assert(index_at(longer, p) == index_at(order, p));
                lemma_before_carries(items, index_at(order, p), z as int, x);
            }
        }
    }
}

/// Whether `a` is greater than `b`.
fn is_greater<T: Ord>(a: &T, b: &T) -> (greater: bool)
    requires
        is_total_order::<T>(),
    ensures
        greater == !at_most(*a, *b),
{
    match a.cmp(b) {
        Ordering::Greater => true,
        _ => false,
    }
}

/// Merges two sorted lists of indices, the first of which holds the smaller
/// indices. Of two equal items the one from the first list goes first.
fn merge<T: Ord>(
    data: &[T],
    left: &Vec<usize>,
    right: &Vec<usize>,
    Ghost(lo): Ghost<int>,
    Ghost(mid): Ghost<int>,
    Ghost(hi): Ghost<int>,
) -> (out: Vec<usize>)
    requires
        is_total_order::<T>(),
        0 <= lo <= mid <= hi <= data.len(),
        within(left@, lo, mid),
        within(right@, mid, hi),
        ascending(data@, left@),
        ascending(data@, right@),
        left.len() + right.len() <= usize::MAX,
    ensures
        out.len() == left.len() + right.len(),
        within(out@, lo, hi),
        ascending(data@, out@),
{
    let n = left.len();
    let m = right.len();
    let mut out: Vec<usize> = Vec::with_capacity(n + m);
    let mut i: usize = 0;
    let mut j: usize = 0;
    while i < n || j < m
        invariant
            is_total_order::<T>(),
            0 <= lo <= mid <= hi <= data.len(),
            n == left.len(),
            m == right.len(),
            i <= n,
            j <= m,
            out.len() == i + j,
            within(left@, lo, mid),
            within(right@, mid, hi),
            ascending(data@, left@),
            ascending(data@, right@),
            within(out@, lo, hi),
            ascending(data@, out@),
            i < n ==> all_before(data@, out@, index_at(left@, i as int)),
            j < m ==> all_before(data@, out@, index_at(right@, j as int)),
        decreases (n - i) + (m - j),
    {
        let from_left = if j == m {
            true
        } else if i == n {
            false
        } else {
            assert(lo <= index_at(left@, i as int) < mid);
            assert(mid <= index_at(right@, j as int) < hi);
            !is_greater(&data[left[i]], &data[right[j]])
        };
        let ghost before = out@;
        if from_left {
            let z = left[i];
            proof {
                assert(index_at(left@, i as int) == z);
                assert(lo <= index_at(left@, i as int) < mid);
                lemma_push_keeps_order(data@, before, z);
                if j < m {
                    assert(mid <= index_at(right@, j as int) < hi);
                    assert(item_before(data@, z as int, index_at(right@, j as int)));
                    assert(all_before(data@, before.push(z), index_at(right@, j as int)));
                }
                if i + 1 < n {
                    assert(item_before(
                        data@,
                        index_at(left@, i as int),
                        index_at(left@, i + 1),
                    ));
                    assert(all_before(data@, before.push(z), index_at(left@, i + 1)));
                }
            }
            out.push(z);
            i += 1;
        } else {
            let z = right[j];
            proof {
                assert(index_at(right@, j as int) == z);
                assert(mid <= index_at(right@, j as int) < hi);
                lemma_push_keeps_order(data@, before, z);
                if i < n {
                    assert(lo <= index_at(left@, i as int) < mid);
                    assert(item_before(data@, z as int, index_at(left@, i as int)));
                    assert(all_before(data@, before.push(z), index_at(left@, i as int)));
                }
                if j + 1 < m {
                    assert(item_before(
                        data@,
                        index_at(right@, j as int),
                        index_at(right@, j + 1),
                    ));
                    assert(all_before(data@, before.push(z), index_at(right@, j + 1)));
                }
            }
            out.push(z);
            j += 1;
        }
        proof {
            assert forall|p: int| 0 <= p < out@.len() implies lo <= #[trigger] index_at(out@, p)
                < hi by {
                if p < before.len() {
                    assert(index_at(out@, p) == index_at(before, p));
                }
            }
        }
    }
    out
}

/// The stable sorting order of the items `lo..hi` of `data`, by merge sort.
fn sort_range<T: Ord>(data: &[T], lo: usize, hi: usize) -> (out: Vec<usize>)
    requires
        is_total_order::<T>(),
        lo <= hi <= data.len(),
    ensures
        out.len() == hi - lo,
        within(out@, lo as int, hi as int),
        ascending(data@, out@),
    decreases hi - lo,
{
    if hi - lo == 0 {
        Vec::new()
    } else if hi - lo == 1 {
        let mut out: Vec<usize> = Vec::new();
        out.push(lo);
        assert(index_at(out@, 0) == lo);
        out
    } else {
        let mid = lo + (hi - lo) / 2;
        let left = sort_range(data, lo, mid);
        let right = sort_range(data, mid, hi);
        merge(data, &left, &right, Ghost(lo as int), Ghost(mid as int), Ghost(hi as int))
    }
}

/// The indices of `data` in the order that sorts it: `data[order[0]]` is the
/// smallest item, and equal items are listed in the order in which they stand
/// in `data`. Every index is listed once.
pub fn argsort<T: Ord>(data: &[T]) -> (order: Vec<usize>)
    requires
        is_total_order::<T>(),
    ensures
        is_argsort(data@, order@),
{
    let order = sort_range(data, 0, data.len());
    proof {
        assert forall|p: int, q: int| 0 <= p < q < order@.len() implies order@[p] != order@[q] by {
            assert(item_before(data@, index_at(order@, p), index_at(order@, q)));
            lemma_before_differs(data@, index_at(order@, p));
        }
        assert forall|p: int| 0 <= p < order@.len() implies (#[trigger] order@[p])
            < order@.len() by {
            assert(0 <= index_at(order@, p) < data@.len());
        }
        lemma_distinct_covers(order@);
    }
    order
}

} // verus!
