//! Tile bins: for every tile, the range of the sorted intersection records
//! that belong to it.
use vstd::prelude::*;
use crate::counting::{
    count_lt, lemma_count_eq_range, lemma_count_lt_all, lemma_count_lt_floor, lemma_count_lt_step,
};
use crate::intersect::{key_tile, lemma_key_order, tile_of_key};
use crate::radix::is_sorted;

verus! {

/// The half-open range `start..end` of sorted records that belong to one
/// tile. A tile without records has the range `0..0`.
#[derive(Clone, Copy, Debug, PartialEq, Eq, Structural)]
pub struct TileBin {
    pub start: u32,
    pub end: u32,
}

impl TileBin {
    /// Record `i` lies in the range.
    pub open spec fn holds(&self, i: int) -> bool {
        self.start <= i < self.end
    }

    /// Among the first `upto` records of `keys`, the range holds exactly
    /// those of tile `t`; a range without records is `0..0`.
    pub open spec fn matches_upto(&self, keys: Seq<u64>, t: int, upto: int) -> bool {
        &&& self.start <= self.end <= upto
        &&& forall|i: int| 0 <= i < upto ==> (self.holds(i) <==> key_tile(#[trigger] keys[i]) == t)
        &&& self.start == self.end ==> self.start == 0
    }

    /// The range holds exactly the records of tile `t`.
    pub open spec fn matches(&self, keys: Seq<u64>, t: int) -> bool {
        self.matches_upto(keys, t, keys.len() as int)
    }

    /// Number of records in the range.
    pub fn len(&self) -> (n: u32)
        requires
            self.start <= self.end,
        ensures
            n == self.end - self.start,
    {
        self.end - self.start
    }
}

/// `bins[t]` is the range of the records of tile `t`, for every tile.
pub open spec fn bins_match(keys: Seq<u64>, bins: Seq<TileBin>) -> bool {
    forall|t: int| 0 <= t < bins.len() ==> (#[trigger] bins[t]).matches(keys, t)
}

/// Every record names a tile below `num_tiles`.
pub open spec fn tiles_below(keys: Seq<u64>, num_tiles: int) -> bool {
    forall|i: int| 0 <= i < keys.len() ==> key_tile(#[trigger] keys[i]) < num_tiles
}

/// Finds the range of every tile in the sorted records.
///
/// Each record is compared with its left neighbour: where the tile changes,
/// the left tile's range ends and the record's own tile's range starts. The
/// first record starts a range and the last one ends one.
pub fn tile_bin_edges(keys: &Vec<u64>, num_tiles: u32) -> (bins: Vec<TileBin>)
    requires
        is_sorted(keys@),
        keys.len() <= u32::MAX,
        tiles_below(keys@, num_tiles as int),
    ensures
        bins.len() == num_tiles,
        bins_match(keys@, bins@),
{
    let n = keys.len();
    let mut bins: Vec<TileBin> = Vec::with_capacity(num_tiles as usize);
    let mut t: u32 = 0;
    while t < num_tiles
        invariant
            t <= num_tiles,
            bins.len() == t,
            forall|u: int| 0 <= u < t ==> (#[trigger] bins@[u]) == (TileBin { start: 0, end: 0 }),
        decreases num_tiles - t,
    {
        bins.push(TileBin { start: 0, end: 0 });
        t += 1;
    }
    if n == 0 {
        return bins;
    }
    let first = tile_of_key(keys[0]);
    let mut cur: u32 = first;
    let mut start: u32 = 0;
    let mut i: usize = 1;
    while i < n
        invariant
            1 <= i <= n,
            n == keys.len(),
            n <= u32::MAX,
            is_sorted(keys@),
            tiles_below(keys@, num_tiles as int),
            bins.len() == num_tiles,
            cur == key_tile(keys@[i - 1]),
            start < i,
            forall|j: int| start <= j < i ==> key_tile(#[trigger] keys@[j]) == cur,
            forall|j: int| 0 <= j < start ==> key_tile(#[trigger] keys@[j]) < cur,
            bins@[cur as int] == (TileBin { start: 0, end: 0 }),
            forall|u: int|
                0 <= u < num_tiles && u != cur ==> (#[trigger] bins@[u]).matches_upto(
                    keys@,
                    u,
                    i as int,
                ),
        decreases n - i,
    {
        let tile = tile_of_key(keys[i]);
        proof {
            lemma_key_order(keys@[i - 1], keys@[i as int]);
            assert forall|j: int| 0 <= j < i implies key_tile(#[trigger] keys@[j]) <= cur by {
                lemma_key_order(keys@[j], keys@[i - 1]);
            }
        }
        if tile != cur {
            proof {
                let fresh = bins@[tile as int];
                assert(fresh.matches_upto(keys@, tile as int, i as int));
                if fresh.start < fresh.end {
                    assert(fresh.holds(fresh.start as int));
                    assert(key_tile(keys@[fresh.start as int]) <= cur);
                }
            }
            bins.set(cur as usize, TileBin { start, end: i as u32 });
            cur = tile;
            start = i as u32;
        }
        i += 1;
    }
    bins.set(cur as usize, TileBin { start, end: n as u32 });
    bins
}

/// Sum of the lengths of the first `k` bins.
pub open spec fn bins_total(bins: Seq<TileBin>, k: int) -> int
    decreases k,
{
    if k <= 0 {
        0
    } else {
        bins_total(bins, k - 1) + (bins[k - 1].end - bins[k - 1].start)
    }
}

/// The tile of every record.
pub open spec fn record_tiles(keys: Seq<u64>) -> Seq<int> {
    Seq::new(keys.len(), |i: int| key_tile(keys[i]) as int)
}

/// The lengths of the first `k` bins add up to the number of records of the
/// first `k` tiles.
proof fn lemma_bins_total_counts(keys: Seq<u64>, bins: Seq<TileBin>, k: int)
    requires
        bins_match(keys, bins),
        0 <= k <= bins.len(),
    ensures
        bins_total(bins, k) == count_lt(record_tiles(keys), k, keys.len() as int),
    decreases k,
{
    let d = record_tiles(keys);
    let n = keys.len() as int;
    if k == 0 {
        lemma_count_lt_floor(d, 0, n);
    } else {
        lemma_bins_total_counts(keys, bins, k - 1);
        let bin = bins[k - 1];
        assert(bin.matches(keys, k - 1));
        assert forall|i: int| 0 <= i < d.len() implies ((#[trigger] d[i]) == k - 1 <==> bin.start
            <= i < bin.end) by {
            assert(bin.holds(i) <==> key_tile(keys[i]) == k - 1);
        }
        lemma_count_eq_range(d, k - 1, bin.start as int, bin.end as int, n);
        lemma_count_lt_step(d, k - 1, n);
    }
}

/// The lengths of all bins add up to the number of records.
pub proof fn lemma_bin_lengths_add_up(keys: Seq<u64>, bins: Seq<TileBin>)
    requires
        bins_match(keys, bins),
        tiles_below(keys, bins.len() as int),
    ensures
        bins_total(bins, bins.len() as int) == keys.len(),
{
    let d = record_tiles(keys);
    lemma_bins_total_counts(keys, bins, bins.len() as int);
    assert forall|i: int| 0 <= i < d.len() implies (#[trigger] d[i]) < bins.len() by {
        assert(key_tile(keys[i]) < bins.len());
    }
    lemma_count_lt_all(d, bins.len() as int, keys.len() as int);
}

/// The ranges of the tiles cut the records into pieces without gap and
/// without overlap: every record lies in the range of one tile, its own, and
/// no range reaches beyond the records.
pub proof fn lemma_bins_partition(keys: Seq<u64>, bins: Seq<TileBin>)
    requires
        bins_match(keys, bins),
        tiles_below(keys, bins.len() as int),
    ensures
        forall|i: int|
            0 <= i < keys.len() ==> 0 <= key_tile(#[trigger] keys[i]) < bins.len() && bins[key_tile(
                keys[i],
            ) as int].holds(i),
        forall|t1: int, t2: int, i: int|
            0 <= t1 < bins.len() && 0 <= t2 < bins.len() && #[trigger] bins[t1].holds(i)
                && #[trigger] bins[t2].holds(i) ==> t1 == t2,
        forall|t: int, i: int|
            0 <= t < bins.len() && #[trigger] bins[t].holds(i) ==> 0 <= i < keys.len(),
{
    assert forall|i: int| 0 <= i < keys.len() implies 0 <= key_tile(#[trigger] keys[i])
        < bins.len() && bins[key_tile(keys[i]) as int].holds(i) by {
        let t = key_tile(keys[i]) as int;
        assert(bins[t].matches(keys, t));
    }
    assert forall|t1: int, t2: int, i: int|
        0 <= t1 < bins.len() && 0 <= t2 < bins.len() && #[trigger] bins[t1].holds(i)
            && #[trigger] bins[t2].holds(i) implies t1 == t2 by {
        assert(bins[t1].matches(keys, t1));
        assert(bins[t2].matches(keys, t2));
        assert(key_tile(keys[i]) == t1);
    }
    assert forall|t: int, i: int| 0 <= t < bins.len() && #[trigger] bins[t].holds(i) implies 0
        <= i < keys.len() by {
        assert(bins[t].matches(keys, t));
    }
}

} // verus!
