//! Stable least-significant-digit radix sort of 64-bit keys.
//!
//! The sort works on an index array: eight distribution passes, one per
//! 8-bit digit, each regrouping the indices by the digit of the key they point
//! at without reordering equal digits. After the pass for digit `k` the
//! indices are ordered by the low `8 * (k + 1)` bits of their keys, ties
//! broken by the index itself.
use vstd::prelude::*;
use crate::counting::{
    count_eq, count_lt, covers_all, digit_before, lemma_count_eq_bounds, lemma_count_lt_bounds,
    lemma_count_lt_floor, lemma_count_lt_step, lemma_distinct_covers, lemma_slot_bounds,
    lemma_slot_onto, lemma_slot_ordered, names, slot,
};

verus! {

/// Width of one digit, in bits.
pub const DIGIT_BITS: u64 = 8;

/// Number of values a digit can take.
pub const RADIX: usize = 256;

/// The low `bits` bits of `key`; the whole key from 64 bits on.
pub open spec fn low_bits(key: u64, bits: u64) -> u64 {
    if bits >= 64 {
        key
    } else {
        key & !(0xffff_ffff_ffff_ffffu64 << bits)
    }
}

/// The 8-bit digit of `key` that starts at bit `shift`.
pub open spec fn digit_of(key: u64, shift: u64) -> u64 {
    (key >> shift) & 0xff
}

/// Record `a` comes before record `b` when only the low `bits` bits of the
/// keys count and equal keys keep the order of their indices.
pub open spec fn record_before(keys: Seq<u64>, bits: u64, a: int, b: int) -> bool {
    low_bits(keys[a], bits) < low_bits(keys[b], bits) || (low_bits(keys[a], bits) == low_bits(
        keys[b],
        bits,
    ) && a < b)
}

/// `order` lists indices into `keys`, strictly ascending by
/// `(low bits of key, index)`.
pub open spec fn ordered_upto(keys: Seq<u64>, order: Seq<usize>, bits: u64) -> bool {
    &&& order.len() == keys.len()
    &&& forall|p: int| 0 <= p < order.len() ==> (#[trigger] order[p]) < keys.len()
    &&& forall|pa: int, pb: int|
        0 <= pa < pb < order.len() ==> record_before(
            keys,
            bits,
            #[trigger] order[pa] as int,
            #[trigger] order[pb] as int,
        )
}

/// `order` is the stable sorting order of `keys`: ascending by key, equal
/// keys in the order of their indices.
pub open spec fn is_stable_order(keys: Seq<u64>, order: Seq<usize>) -> bool {
    ordered_upto(keys, order, 64)
}

/// `keys` is in non-decreasing order.
pub open spec fn is_sorted(keys: Seq<u64>) -> bool {
    forall|i: int, j: int| 0 <= i <= j < keys.len() ==> keys[i] <= keys[j]
}

/// The items of `items` picked in the order that `order` gives.
pub open spec fn gather<T>(items: Seq<T>, order: Seq<usize>) -> Seq<T> {
    Seq::new(order.len(), |p: int| items[order[p] as int])
}

/// The digit sequence that a pass at `shift` distributes by.
pub open spec fn pass_digits(keys: Seq<u64>, order: Seq<usize>, shift: u64) -> Seq<int> {
    Seq::new(order.len(), |p: int| digit_of(keys[order[p] as int], shift) as int)
}

/// With no bits counted all keys are equal.
proof fn lemma_low_bits_none(a: u64)
    ensures
        low_bits(a, 0) == 0,
{
    assert(a & !(0xffff_ffff_ffff_ffffu64 << 0u64) == 0) by (bit_vector);
}

/// Comparing by the low `shift + 8` bits is comparing by the digit at `shift`
/// first and by the low `shift` bits second.
proof fn lemma_digit_extends(a: u64, b: u64, shift: u64)
    requires
        shift <= 56,
    ensures
        low_bits(a, (shift + 8) as u64) < low_bits(b, (shift + 8) as u64) <==> (digit_of(a, shift)
            < digit_of(b, shift) || (digit_of(a, shift) == digit_of(b, shift) && low_bits(a, shift)
            < low_bits(b, shift))),
        low_bits(a, (shift + 8) as u64) == low_bits(b, (shift + 8) as u64) <==> (digit_of(a, shift)
            == digit_of(b, shift) && low_bits(a, shift) == low_bits(b, shift)),
{
    let m: u64 = 0xffff_ffff_ffff_ffff;
    let da: u64 = (a >> shift) & 0xff;
    let db: u64 = (b >> shift) & 0xff;
    let la: u64 = a & !(m << shift);
    let lb: u64 = b & !(m << shift);
    if shift < 56 {
        let next: u64 = (shift + 8) as u64;
        let na: u64 = a & !(m << next);
        let nb: u64 = b & !(m << next);
        assert((na < nb <==> (da < db || (da == db && la < lb))) && (na == nb <==> (da == db && la
            == lb))) by (bit_vector)
            requires
                m == 0xffff_ffff_ffff_ffffu64,
                shift < 56,
                next == shift + 8,
                da == (a >> shift) & 0xff,
                db == (b >> shift) & 0xff,
                la == a & !(m << shift),
                lb == b & !(m << shift),
                na == a & !(m << next),
                nb == b & !(m << next),
        ;
    } else {
        assert((a < b <==> (da < db || (da == db && la < lb))) && (a == b <==> (da == db && la
            == lb))) by (bit_vector)
            requires
                m == 0xffff_ffff_ffff_ffffu64,
                shift == 56,
                da == (a >> shift) & 0xff,
                db == (b >> shift) & 0xff,
                la == a & !(m << shift),
                lb == b & !(m << shift),
        ;
    }
}

/// The digit of `key` at `shift`, as a bucket number.
fn bucket_of(key: u64, shift: u64) -> (b: usize)
    requires
        shift < 64,
    ensures
        b == digit_of(key, shift),
        b < RADIX,
{
    let v: u64 = (key >> shift) & 0xff;
    assert(v < 256) by (bit_vector)
        requires
            v == (key >> shift) & 0xff,
    ;
    v as usize
}

/// One distribution pass: regroups `cur` by the digit at `shift`, keeping
/// the order of entries whose digits are equal.
fn distribute(keys: &Vec<u64>, cur: &Vec<usize>, shift: u64) -> (next: Vec<usize>)
    requires
        shift % 8 == 0,
        shift <= 56,
        ordered_upto(keys@, cur@, shift),
    ensures
        ordered_upto(keys@, next@, (shift + 8) as u64),
{
    let n = cur.len();
    let ghost d = pass_digits(keys@, cur@, shift);
    let mut hist: Vec<usize> = vec![0usize; 256];
    let mut i: usize = 0;
    while i < n
        invariant
            i <= n,
            n == cur.len(),
            n == keys.len(),
            shift <= 56,
            d == pass_digits(keys@, cur@, shift),
            forall|p: int| 0 <= p < n ==> (#[trigger] cur@[p]) < n,
            hist.len() == 256,
            forall|b: int| 0 <= b < 256 ==> (#[trigger] hist@[b]) == count_eq(d, b, i as int),
        decreases n - i,
    {
        let b = bucket_of(keys[cur[i]], shift);
        proof {
            lemma_count_eq_bounds(d, b as int, i as int);
        }
        let h: usize = hist[b];
        hist.set(b, h + 1);
        i += 1;
    }
    proof {
        lemma_count_lt_floor(d, 0, n as int);
    }
    let mut pos: Vec<usize> = vec![0usize; 256];
    let mut running: usize = 0;
    let mut b: usize = 0;
    while b < 256
        invariant
            b <= 256,
            pos.len() == 256,
            hist.len() == 256,
            n == d.len(),
            forall|c: int| 0 <= c < 256 ==> (#[trigger] hist@[c]) == count_eq(d, c, n as int),
            running == count_lt(d, b as int, n as int),
            forall|c: int| 0 <= c < b ==> (#[trigger] pos@[c]) == count_lt(d, c, n as int),
        decreases 256 - b,
    {
        proof {
            lemma_count_lt_step(d, b as int, n as int);
            lemma_count_lt_bounds(d, b + 1, n as int);
        }
        pos.set(b, running);
        running = running + hist[b];
        b += 1;
    }
    let mut next: Vec<usize> = vec![0usize; n];
    i = 0;
    while i < n
        invariant
            i <= n,
            n == cur.len(),
            n == keys.len(),
            n == d.len(),
            shift <= 56,
            d == pass_digits(keys@, cur@, shift),
            forall|p: int| 0 <= p < n ==> (#[trigger] cur@[p]) < n,
            pos.len() == 256,
            next.len() == n,
            forall|c: int|
                0 <= c < 256 ==> (#[trigger] pos@[c]) == count_lt(d, c, n as int) + count_eq(
                    d,
                    c,
                    i as int,
                ),
            forall|p: int| 0 <= p < i ==> next@[#[trigger] slot(d, p)] == cur@[p],
        decreases n - i,
    {
        let b = bucket_of(keys[cur[i]], shift);
        let q: usize = pos[b];
        proof {
            lemma_slot_bounds(d, i as int);
            assert(q == slot(d, i as int));
            assert forall|p: int| 0 <= p < i implies 0 <= #[trigger] slot(d, p) < n && slot(d, p)
                != q by {
                lemma_slot_bounds(d, p);
                if digit_before(d, p, i as int) {
                    lemma_slot_ordered(d, p, i as int);
                } else {
                    lemma_slot_ordered(d, i as int, p);
                }
            }
        }
        next.set(q, cur[i]);
        pos.set(b, q + 1);
        i += 1;
    }
    proof {
        let bits = (shift + 8) as u64;
        assert forall|q: int| 0 <= q < next@.len() implies (#[trigger] next@[q]) < keys@.len() by {
            lemma_slot_onto(d, q);
            let p = choose|p: int| 0 <= p < d.len() && slot(d, p) == q;
            assert(next@[slot(d, p)] == cur@[p]);
        }
        assert forall|q1: int, q2: int| 0 <= q1 < q2 < next@.len() implies record_before(
            keys@,
            bits,
            #[trigger] next@[q1] as int,
            #[trigger] next@[q2] as int,
        ) by {
            lemma_slot_onto(d, q1);
            lemma_slot_onto(d, q2);
            let pa = choose|p: int| 0 <= p < d.len() && slot(d, p) == q1;
            let pb = choose|p: int| 0 <= p < d.len() && slot(d, p) == q2;
            assert(next@[slot(d, pa)] == cur@[pa]);
            assert(next@[slot(d, pb)] == cur@[pb]);
            if digit_before(d, pb, pa) {
                lemma_slot_ordered(d, pb, pa);
            }
            assert(digit_before(d, pa, pb));
            let a = keys@[cur@[pa] as int];
            let b = keys@[cur@[pb] as int];
            lemma_digit_extends(a, b, shift);
            if d[pa] == d[pb] {
                assert(record_before(keys@, shift, cur@[pa] as int, cur@[pb] as int));
            }
        }
    }
    next
}

/// The stable sorting order of `keys`: `order[p]` is the index of the key that
/// stands at place `p` once the keys are sorted.
pub fn radix_order(keys: &Vec<u64>) -> (order: Vec<usize>)
    ensures
        is_stable_order(keys@, order@),
        covers_all(order@),
{
    let n = keys.len();
    let mut order: Vec<usize> = Vec::with_capacity(n);
    let mut i: usize = 0;
    while i < n
        invariant
            i <= n,
            n == keys.len(),
            order.len() == i,
            forall|p: int| 0 <= p < i ==> (#[trigger] order@[p]) == p,
        decreases n - i,
    {
        order.push(i);
        i += 1;
    }
    proof {
        assert forall|pa: int, pb: int| 0 <= pa < pb < order@.len() implies record_before(
            keys@,
            0,
            #[trigger] order@[pa] as int,
            #[trigger] order@[pb] as int,
        ) by {
            lemma_low_bits_none(keys@[pa]);
            lemma_low_bits_none(keys@[pb]);
        }
    }
    let mut shift: u64 = 0;
    while shift < 64
        invariant
            shift % 8 == 0,
            shift <= 64,
            ordered_upto(keys@, order@, shift),
        decreases 64 - shift,
    {
        order = distribute(keys, &order, shift);
        shift += DIGIT_BITS;
    }
    proof {
        lemma_order_covers(keys@, order@);
    }
    order
}

/// `out_keys` and `out_values` hold the records `(keys[i], values[i])` in
/// stable sorted order.
pub open spec fn is_sorted_copy(
    keys: Seq<u64>,
    values: Seq<u32>,
    out_keys: Seq<u64>,
    out_values: Seq<u32>,
) -> bool {
    exists|order: Seq<usize>| #[trigger]
        is_stable_order(keys, order) && covers_all(order) && out_keys == gather(keys, order)
            && out_values == gather(values, order)
}

/// Sorts the records `(keys[i], values[i])` by key, ascending; records with
/// equal keys keep their relative order.
pub fn radix_argsort(keys: &Vec<u64>, values: &Vec<u32>) -> (out: (Vec<u64>, Vec<u32>))
    requires
        keys.len() == values.len(),
    ensures
        out.0.len() == keys.len(),
        out.1.len() == keys.len(),
        is_sorted(out.0@),
        is_sorted_copy(keys@, values@, out.0@, out.1@),
{
    let n = keys.len();
    let order = radix_order(keys);
    let mut out_keys: Vec<u64> = Vec::with_capacity(n);
    let mut out_values: Vec<u32> = Vec::with_capacity(n);
    let mut p: usize = 0;
    while p < n
        invariant
            p <= n,
            n == keys.len(),
            n == values.len(),
            n == order.len(),
            forall|q: int| 0 <= q < n ==> (#[trigger] order@[q]) < n,
            out_keys.len() == p,
            out_values.len() == p,
            forall|q: int| 0 <= q < p ==> (#[trigger] out_keys@[q]) == keys@[order@[q] as int],
            forall|q: int| 0 <= q < p ==> (#[trigger] out_values@[q]) == values@[order@[q] as int],
        decreases n - p,
    {
        let j = order[p];
        out_keys.push(keys[j]);
        out_values.push(values[j]);
        p += 1;
    }
    proof {
        assert(out_keys@ =~= gather(keys@, order@));
        assert(out_values@ =~= gather(values@, order@));
        lemma_stable_is_sorted(keys@, order@);
    }
    (out_keys, out_values)
}

/// Keys picked in a stable order are in non-decreasing order.
pub proof fn lemma_stable_is_sorted(keys: Seq<u64>, order: Seq<usize>)
    requires
        is_stable_order(keys, order),
    ensures
        is_sorted(gather(keys, order)),
{
    let out = gather(keys, order);
    assert forall|i: int, j: int| 0 <= i <= j < out.len() implies out[i] <= out[j] by {
        if i < j {
            assert(record_before(keys, 64, order[i] as int, order[j] as int));
        }
    }
}

/// A stable order names every index exactly once.
pub proof fn lemma_order_covers(keys: Seq<u64>, order: Seq<usize>)
    requires
        is_stable_order(keys, order),
    ensures
        covers_all(order),
        forall|pa: int, pb: int| 0 <= pa < pb < order.len() ==> order[pa] != order[pb],
{
    assert forall|pa: int, pb: int| 0 <= pa < pb < order.len() implies order[pa] != order[pb] by {
        assert(record_before(keys, 64, order[pa] as int, order[pb] as int));
    }
    lemma_distinct_covers(order);
}

/// There is one stable order: two orders that both sort `keys` stably agree
/// up to place `upto`, so the result of the sort does not depend on how it is
/// computed.
pub proof fn lemma_stable_order_is_unique(
    keys: Seq<u64>,
    first: Seq<usize>,
    second: Seq<usize>,
    upto: int,
)
    requires
        is_stable_order(keys, first),
        is_stable_order(keys, second),
        0 <= upto <= keys.len(),
    ensures
        forall|p: int| 0 <= p < upto ==> first[p] == second[p],
    decreases upto,
{
    if upto > 0 {
        lemma_stable_order_is_unique(keys, first, second, upto - 1);
        lemma_order_covers(keys, first);
        lemma_order_covers(keys, second);
        let p = upto - 1;
        let a = first[p] as int;
        let b = second[p] as int;
        if a != b {
            assert(first[p] < keys.len() && second[p] < keys.len());
            assert(names(first, b));
            assert(names(second, a));
            let pb = choose|q: int| 0 <= q < first.len() && first[q] == b;
            let pa = choose|q: int| 0 <= q < second.len() && second[q] == a;
            // Neither index can stand before `p`, where the orders agree.
            assert(pb > p) by {
                if pb < p {
                    assert(second[pb] == second[p]);
                }
            }
            assert(pa > p) by {
                if pa < p {
                    assert(first[pa] == first[p]);
                }
            }
            assert(record_before(keys, 64, first[p] as int, first[pb] as int));
            assert(record_before(keys, 64, second[p] as int, second[pa] as int));
        }
    }
}

} // verus!
