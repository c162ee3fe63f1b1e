//! From projected splats to tile bins: count, scan, map, sort and cut.
use vstd::prelude::*;
use crate::bins::{
    bins_match, bins_total, lemma_bin_lengths_add_up, lemma_bins_partition, tile_bin_edges,
    tiles_below, TileBin,
};
use crate::error::RenderError;
use crate::intersect::{
    count_hits, emitted, genuine, hit_counts, is_intersection_list, key_depth, key_tile,
    lemma_key_parts, lemma_key_whole, lemma_same_tile_in_splat_order,
    lemma_sorted_by_tile_then_depth, make_key, map_intersections,
};
use crate::counting::{covers_all, names};
use crate::radix::{
    gather, is_sorted, is_sorted_copy, is_stable_order, radix_argsort, record_before,
};
use crate::scan::{is_offsets_of, prefix_sum, sum_all};
use crate::tiles::{lemma_covering_rect_hits, lemma_id_in_grid, TileGrid, TileRect};

verus! {

/// What the rasterizer needs of one render call: the sorted intersection
/// records and the range of every tile in them.
pub struct TileBinning {
    /// Number of intersection records.
    pub num_intersects: u32,
    /// Sort keys of the records, ascending.
    pub keys: Vec<u64>,
    /// Splat id of every record, in the order of `keys`.
    pub ids: Vec<u32>,
    /// Range of every tile in the sorted records, by tile id.
    pub tile_bins: Vec<TileBin>,
}

/// Every rectangle lies inside the grid.
pub open spec fn all_fit(grid: TileGrid, rects: Seq<TileRect>) -> bool {
    forall|i: int| 0 <= i < rects.len() ==> (#[trigger] rects[i]).fits(grid)
}

/// The reason for which binning is refused, if there is one. The checks are
/// made in this order.
pub open spec fn binning_error(grid: TileGrid, rects: Seq<TileRect>, depths: Seq<u32>) -> Option<
    RenderError,
> {
    if rects.len() != depths.len() {
        Some(RenderError::ShapeMismatch)
    } else if rects.len() > u32::MAX {
        Some(RenderError::TooManySplats)
    } else if !all_fit(grid, rects) {
        Some(RenderError::RectOutsideGrid)
    } else if sum_all(hit_counts(rects)) > u32::MAX {
        Some(RenderError::IntersectionOverflow)
    } else {
        None
    }
}

/// The sorted record `q` belongs to a splat that touches the record's tile,
/// and carries that splat's depth.
pub open spec fn record_ok(
    grid: TileGrid,
    rects: Seq<TileRect>,
    depths: Seq<u32>,
    keys: Seq<u64>,
    ids: Seq<u32>,
    q: int,
) -> bool {
    let i = ids[q] as int;
    &&& i < rects.len()
    &&& key_depth(keys[q]) == depths[i]
    &&& key_tile(keys[q]) < grid.num_tiles()
    &&& exists|tx: int, ty: int| #[trigger]
        rects[i].covers(tx, ty) && key_tile(keys[q]) == grid.id_of(tx, ty)
}

/// The bin of tile `(tx, ty)` lists splat `i`, with its depth.
pub open spec fn lists(
    grid: TileGrid,
    depths: Seq<u32>,
    keys: Seq<u64>,
    ids: Seq<u32>,
    bins: Seq<TileBin>,
    i: int,
    tx: int,
    ty: int,
) -> bool {
    exists|q: int| #[trigger]
        bins[grid.id_of(tx, ty)].holds(q) && 0 <= q < keys.len() && ids[q] == i && keys[q]
            == make_key(grid.id_of(tx, ty) as u32, depths[i])
}

/// Records with the same key stand in the order of their splat ids.
pub open spec fn ties_by_id(keys: Seq<u64>, ids: Seq<u32>) -> bool {
    forall|q1: int, q2: int|
        0 <= q1 < q2 < keys.len() && #[trigger] keys[q1] == #[trigger] keys[q2] ==> ids[q1]
            < ids[q2]
}

impl TileBinning {
    /// The sorted records are the intersection records of the splats,
    /// written at the offsets of the scan and then sorted by key, records
    /// with equal keys staying in the order in which they were written.
    pub open spec fn is_sorted_list_of(
        &self,
        grid: TileGrid,
        rects: Seq<TileRect>,
        depths: Seq<u32>,
    ) -> bool {
        exists|offsets: Seq<u32>, keys: Seq<u64>, ids: Seq<u32>|
            is_offsets_of(offsets, hit_counts(rects)) && #[trigger] is_intersection_list(
                grid,
                rects,
                depths,
                offsets,
                keys,
                ids,
            ) && is_sorted_copy(keys, ids, self.keys@, self.ids@)
    }

    /// This is the binning of the splats with tile rectangles `rects` and
    /// depth keys `depths` on `grid`.
    pub open spec fn describes(&self, grid: TileGrid, rects: Seq<TileRect>, depths: Seq<u32>) -> bool {
        &&& self.num_intersects == sum_all(hit_counts(rects))
        &&& self.keys.len() == self.num_intersects
        &&& self.ids.len() == self.num_intersects
        &&& is_sorted(self.keys@)
        &&& self.tile_bins.len() == grid.num_tiles()
        &&& bins_match(self.keys@, self.tile_bins@)
        &&& self.is_sorted_list_of(grid, rects, depths)
        &&& ties_by_id(self.keys@, self.ids@)
        &&& forall|q: int|
            0 <= q < self.keys.len() ==> #[trigger] record_ok(
                grid,
                rects,
                depths,
                self.keys@,
                self.ids@,
                q,
            )
        &&& forall|i: int, tx: int, ty: int|
            0 <= i < rects.len() && #[trigger] rects[i].covers(tx, ty) ==> lists(
                grid,
                depths,
                self.keys@,
                self.ids@,
                self.tile_bins@,
                i,
                tx,
                ty,
            )
    }
}

/// Whether every rectangle lies inside the grid.
pub fn rects_fit(grid: &TileGrid, rects: &Vec<TileRect>) -> (ok: bool)
    ensures
        ok == all_fit(*grid, rects@),
{
    let n = rects.len();
    let mut i: usize = 0;
    while i < n
        invariant
            i <= n,
            n == rects.len(),
            forall|j: int| 0 <= j < i ==> (#[trigger] rects@[j]).fits(*grid),
        decreases n - i,
    {
        let r = rects[i];
        if !(r.min_x <= r.max_x && r.max_x <= grid.cols && r.min_y <= r.max_y && r.max_y
            <= grid.rows) {
            assert(!rects@[i as int].fits(*grid));
            return false;
        }
        i += 1;
    }
    true
}

/// A sorted copy of the intersection records keeps what holds of each
/// record: its splat touches its tile and gave it its depth.
proof fn lemma_sorted_records_ok(
    grid: TileGrid,
    rects: Seq<TileRect>,
    depths: Seq<u32>,
    offsets: Seq<u32>,
    keys: Seq<u64>,
    ids: Seq<u32>,
    out_keys: Seq<u64>,
    out_ids: Seq<u32>,
)
    requires
        is_intersection_list(grid, rects, depths, offsets, keys, ids),
        is_sorted_copy(keys, ids, out_keys, out_ids),
    ensures
        out_keys.len() == keys.len(),
        out_ids.len() == keys.len(),
        forall|q: int|
            0 <= q < out_keys.len() ==> #[trigger] record_ok(
                grid,
                rects,
                depths,
                out_keys,
                out_ids,
                q,
            ),
        tiles_below(out_keys, grid.num_tiles()),
{
    let order = choose|order: Seq<usize>| #[trigger]
        is_stable_order(keys, order) && covers_all(order) && out_keys == gather(keys, order)
            && out_ids == gather(ids, order);
    assert forall|q: int| 0 <= q < out_keys.len() implies #[trigger] record_ok(
        grid,
        rects,
        depths,
        out_keys,
        out_ids,
        q,
    ) by {
        let u = order[q] as int;
        assert(order[q] < keys.len());
        assert(out_keys[q] == keys[u]);
        assert(out_ids[q] == ids[u]);
        assert(genuine(grid, rects, depths, offsets, keys, ids, u));
        let i = ids[u] as int;
        let (tx, ty) = choose|tx: int, ty: int| #[trigger]
            rects[i].covers(tx, ty) && key_tile(keys[u]) == grid.id_of(tx, ty);
        assert(rects[i].covers(tx, ty) && key_tile(out_keys[q]) == grid.id_of(tx, ty));
    }
    assert forall|q: int| 0 <= q < out_keys.len() implies key_tile(#[trigger] out_keys[q])
        < grid.num_tiles() by {
        assert(record_ok(grid, rects, depths, out_keys, out_ids, q));
    }
}

/// A stable sort leaves records with the same key in the order in which they
/// were written, which is the order of their splat ids.
proof fn lemma_sorted_ties_by_id(
    grid: TileGrid,
    rects: Seq<TileRect>,
    depths: Seq<u32>,
    offsets: Seq<u32>,
    keys: Seq<u64>,
    ids: Seq<u32>,
    out_keys: Seq<u64>,
    out_ids: Seq<u32>,
)
    requires
        grid.wf(),
        all_fit(grid, rects),
        is_offsets_of(offsets, hit_counts(rects)),
        is_intersection_list(grid, rects, depths, offsets, keys, ids),
        is_sorted_copy(keys, ids, out_keys, out_ids),
    ensures
        ties_by_id(out_keys, out_ids),
{
    let order = choose|order: Seq<usize>| #[trigger]
        is_stable_order(keys, order) && covers_all(order) && out_keys == gather(keys, order)
            && out_ids == gather(ids, order);
    assert forall|q1: int, q2: int|
        0 <= q1 < q2 < out_keys.len() && #[trigger] out_keys[q1] == #[trigger] out_keys[q2]
        implies out_ids[q1] < out_ids[q2] by {
        let u1 = order[q1] as int;
        let u2 = order[q2] as int;
        assert(order[q1] < keys.len() && order[q2] < keys.len());
        assert(record_before(keys, 64, u1, u2));
        lemma_same_tile_in_splat_order(grid, rects, depths, offsets, keys, ids, u1, u2);
    }
}

/// Once the bins are cut, every overlap of a splat with a tile is listed in
/// that tile's bin.
proof fn lemma_bins_list_all(
    grid: TileGrid,
    rects: Seq<TileRect>,
    depths: Seq<u32>,
    offsets: Seq<u32>,
    keys: Seq<u64>,
    ids: Seq<u32>,
    out_keys: Seq<u64>,
    out_ids: Seq<u32>,
    bins: Seq<TileBin>,
)
    requires
        grid.wf(),
        all_fit(grid, rects),
        is_intersection_list(grid, rects, depths, offsets, keys, ids),
        is_sorted_copy(keys, ids, out_keys, out_ids),
        bins.len() == grid.num_tiles(),
        bins_match(out_keys, bins),
    ensures
        forall|i: int, tx: int, ty: int|
            0 <= i < rects.len() && #[trigger] rects[i].covers(tx, ty) ==> lists(
                grid,
                depths,
                out_keys,
                out_ids,
                bins,
                i,
                tx,
                ty,
            ),
{
    let order = choose|order: Seq<usize>| #[trigger]
        is_stable_order(keys, order) && covers_all(order) && out_keys == gather(keys, order)
            && out_ids == gather(ids, order);
    assert forall|i: int, tx: int, ty: int|
        0 <= i < rects.len() && #[trigger] rects[i].covers(tx, ty) implies lists(
        grid,
        depths,
        out_keys,
        out_ids,
        bins,
        i,
        tx,
        ty,
    ) by {
        assert(rects[i].fits(grid));
        lemma_id_in_grid(grid, tx, ty);
        let t = grid.id_of(tx, ty);
        assert(emitted(grid, rects, depths, offsets, keys, ids, i, tx, ty));
        let u = offsets[i] + rects[i].local_index(tx, ty);
        assert(names(order, u));
        let p = choose|p: int| 0 <= p < order.len() && order[p] == u;
        lemma_key_parts(t as u32, depths[i]);
        assert(out_keys[p] == make_key(t as u32, depths[i]));
        assert(bins[t].matches(out_keys, t));
        assert(bins[t].holds(p));
    }
}

/// The tile bins cut the sorted records into pieces without gap and without
/// overlap: every record of `0..num_intersects` lies in the bin of exactly
/// one tile, the tile of its key, no bin reaches beyond the records, and the
/// lengths of all bins add up to `num_intersects`.
pub proof fn lemma_tile_bins_partition(
    out: TileBinning,
    grid: TileGrid,
    rects: Seq<TileRect>,
    depths: Seq<u32>,
)
    requires
        out.describes(grid, rects, depths),
    ensures
        forall|q: int|
            0 <= q < out.num_intersects ==> 0 <= key_tile(#[trigger] out.keys@[q])
                < out.tile_bins.len() && out.tile_bins@[key_tile(out.keys@[q]) as int].holds(q),
        forall|t1: int, t2: int, q: int|
            0 <= t1 < out.tile_bins.len() && 0 <= t2 < out.tile_bins.len()
                && #[trigger] out.tile_bins@[t1].holds(q) && #[trigger] out.tile_bins@[t2].holds(q)
                ==> t1 == t2,
        forall|t: int, q: int|
            0 <= t < out.tile_bins.len() && #[trigger] out.tile_bins@[t].holds(q) ==> 0 <= q
                < out.num_intersects,
        forall|t: int|
            0 <= t < out.tile_bins.len() ==> (#[trigger] out.tile_bins@[t]).start
                <= out.tile_bins@[t].end <= out.num_intersects,
        bins_total(out.tile_bins@, out.tile_bins.len() as int) == out.num_intersects,
{
    assert forall|q: int| 0 <= q < out.keys.len() implies key_tile(#[trigger] out.keys@[q])
        < out.tile_bins.len() by {
        assert(record_ok(grid, rects, depths, out.keys@, out.ids@, q));
    }
    lemma_bins_partition(out.keys@, out.tile_bins@);
    lemma_bin_lengths_add_up(out.keys@, out.tile_bins@);
    assert forall|t: int| 0 <= t < out.tile_bins.len() implies (#[trigger] out.tile_bins@[t]).start
        <= out.tile_bins@[t].end <= out.num_intersects by {
        assert(out.tile_bins@[t].matches(out.keys@, t));
    }
}

/// Inside the bin of one tile the records stand front to back: a later
/// record is farther than an earlier one, or as far and of a splat with a
/// greater id.
pub proof fn lemma_bin_is_front_to_back(
    out: TileBinning,
    grid: TileGrid,
    rects: Seq<TileRect>,
    depths: Seq<u32>,
    t: int,
    q1: int,
    q2: int,
)
    requires
        out.describes(grid, rects, depths),
        0 <= t < out.tile_bins.len(),
        out.tile_bins@[t].holds(q1),
        out.tile_bins@[t].holds(q2),
        q1 < q2,
    ensures
        0 <= q1 < q2 < out.num_intersects,
        depths[out.ids@[q1] as int] < depths[out.ids@[q2] as int] || (depths[out.ids@[q1] as int]
            == depths[out.ids@[q2] as int] && out.ids@[q1] < out.ids@[q2]),
{
    lemma_tile_bins_partition(out, grid, rects, depths);
    assert(out.tile_bins@[t].matches(out.keys@, t));
    lemma_sorted_by_tile_then_depth(out.keys@, q1, q2);
    assert(record_ok(grid, rects, depths, out.keys@, out.ids@, q1));
    assert(record_ok(grid, rects, depths, out.keys@, out.ids@, q2));
    if key_depth(out.keys@[q1]) == key_depth(out.keys@[q2]) {
        lemma_key_whole(out.keys@[q1], out.keys@[q2]);
    }
}

/// A culled splat, one whose tile-hit count is zero, is listed in no bin: the
/// backward pass never visits it, and its gradient stays zero.
pub proof fn lemma_culled_splat_is_unlisted(
    out: TileBinning,
    grid: TileGrid,
    rects: Seq<TileRect>,
    depths: Seq<u32>,
    i: int,
    q: int,
)
    requires
        out.describes(grid, rects, depths),
        0 <= i < rects.len(),
        rects[i].hits() == 0,
        0 <= q < out.num_intersects,
    ensures
        out.ids@[q] != i,
{
    assert(record_ok(grid, rects, depths, out.keys@, out.ids@, q));
    if out.ids@[q] == i {
        let (tx, ty) = choose|tx: int, ty: int| #[trigger]
            rects[i].covers(tx, ty) && key_tile(out.keys@[q]) == grid.id_of(tx, ty);
        lemma_covering_rect_hits(rects[i], tx, ty);
    }
}

/// Bins the splats of one render call by tile.
///
/// `rects[i]` is the rectangle of tiles that splat `i` touches, empty for a
/// splat that is culled, and `depths[i]` is its depth key: an integer that
/// grows with the distance from the camera. The result lists, for every tile,
/// the splats that touch it, nearest first.
pub fn bin_splats(grid: &TileGrid, rects: &Vec<TileRect>, depths: &Vec<u32>) -> (r: Result<
    TileBinning,
    RenderError,
>)
    requires
        grid.wf(),
    ensures
        match r {
            Ok(out) => binning_error(*grid, rects@, depths@) == None::<RenderError>
                && out.describes(*grid, rects@, depths@),
            Err(e) => binning_error(*grid, rects@, depths@) == Some(e),
        },
{
    if rects.len() != depths.len() {
        return Err(RenderError::ShapeMismatch);
    }
    if rects.len() > 0xffff_ffff {
        return Err(RenderError::TooManySplats);
    }
    if !rects_fit(grid, rects) {
        return Err(RenderError::RectOutsideGrid);
    }
    let counts = count_hits(grid, rects);
    let scan = match prefix_sum(&counts) {
        Ok(scan) => scan,
        Err(_) => {
            return Err(RenderError::IntersectionOverflow);
        },
    };
    let (keys, ids) = map_intersections(grid, rects, depths, &scan);
    let (sorted_keys, sorted_ids) = radix_argsort(&keys, &ids);
    proof {
        lemma_sorted_records_ok(
            *grid,
            rects@,
            depths@,
            scan.offsets@,
            keys@,
            ids@,
            sorted_keys@,
            sorted_ids@,
        );
    }
    let tile_bins = tile_bin_edges(&sorted_keys, grid.tile_count());
    let out = TileBinning {
        num_intersects: scan.total,
        keys: sorted_keys,
        ids: sorted_ids,
        tile_bins,
    };
    proof {
        lemma_bins_list_all(
            *grid,
            rects@,
            depths@,
            scan.offsets@,
            keys@,
            ids@,
            out.keys@,
            out.ids@,
            out.tile_bins@,
        );
        lemma_sorted_ties_by_id(
            *grid,
            rects@,
            depths@,
            scan.offsets@,
            keys@,
            ids@,
            out.keys@,
            out.ids@,
        );
        assert(out.is_sorted_list_of(*grid, rects@, depths@));
    }
    Ok(out)
}

} // verus!
