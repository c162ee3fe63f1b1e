//! Intersection records: one `(tile, depth)` key and one splat id for every
//! tile that a splat touches.
use vstd::prelude::*;
use crate::radix::is_sorted;
use crate::scan::{is_offsets_of, lemma_sum_upto_mono, sum_all, sum_upto, Scan};
use crate::tiles::{
    lemma_hits_in_grid, lemma_id_in_grid, lemma_id_unique, lemma_local_index_bounds, TileGrid,
    TileRect,
};

verus! {

/// The sort key of a record: the tile id in the high 32 bits, the depth in the
/// low 32 bits.
pub open spec fn make_key(tile: u32, depth: u32) -> u64 {
    ((tile as u64) << 32) | (depth as u64)
}

/// The tile id held in a key.
pub open spec fn key_tile(key: u64) -> u32 {
    (key >> 32) as u32
}

/// The depth held in a key.
pub open spec fn key_depth(key: u64) -> u32 {
    (key & 0xffff_ffff) as u32
}

/// A key gives back the tile and the depth that it was made of.
pub proof fn lemma_key_parts(tile: u32, depth: u32)
    ensures
        key_tile(make_key(tile, depth)) == tile,
        key_depth(make_key(tile, depth)) == depth,
{
    assert(((((tile as u64) << 32) | (depth as u64)) >> 32) as u32 == tile) by (bit_vector);
    assert(((((tile as u64) << 32) | (depth as u64)) & 0xffff_ffff) as u32 == depth)
        by (bit_vector);
}

/// Keys compare as the pairs `(tile, depth)` do.
pub proof fn lemma_key_order(a: u64, b: u64)
    ensures
        a < b <==> (key_tile(a) < key_tile(b) || (key_tile(a) == key_tile(b) && key_depth(a)
            < key_depth(b))),
        a <= b ==> key_tile(a) <= key_tile(b),
{
    assert(a < b <==> (((a >> 32) as u32) < ((b >> 32) as u32) || (((a >> 32) as u32) == ((b
        >> 32) as u32) && ((a & 0xffff_ffff) as u32) < ((b & 0xffff_ffff) as u32))))
        by (bit_vector);
    assert(a <= b ==> ((a >> 32) as u32) <= ((b >> 32) as u32)) by (bit_vector);
}

/// Keys in non-decreasing order list the records by tile, and the records of
/// one tile by depth: of two records, the later one has a greater tile id,
/// or the same tile id and a depth that is not smaller. Records with equal
/// depth in one tile may stand in any order for this to hold.
pub proof fn lemma_sorted_by_tile_then_depth(keys: Seq<u64>, i: int, j: int)
    requires
        is_sorted(keys),
        0 <= i <= j < keys.len(),
    ensures
        key_tile(keys[i]) < key_tile(keys[j]) || (key_tile(keys[i]) == key_tile(keys[j])
            && key_depth(keys[i]) <= key_depth(keys[j])),
{
    lemma_key_order(keys[i], keys[j]);
}

/// A key is made of its tile and its depth: keys with the same tile and the
/// same depth are the same key.
pub proof fn lemma_key_whole(a: u64, b: u64)
    requires
        key_tile(a) == key_tile(b),
        key_depth(a) == key_depth(b),
    ensures
        a == b,
{
    assert(((a >> 32) as u32 == (b >> 32) as u32 && (a & 0xffff_ffff) as u32 == (b
        & 0xffff_ffff) as u32) ==> a == b) by (bit_vector);
}

/// Packs a tile id and a depth into a sort key.
pub fn pack_key(tile: u32, depth: u32) -> (key: u64)
    ensures
        key == make_key(tile, depth),
{
    ((tile as u64) << 32) | (depth as u64)
}

/// The tile id held in a key.
pub fn tile_of_key(key: u64) -> (tile: u32)
    ensures
        tile == key_tile(key),
{
    (key >> 32) as u32
}

/// The tile-hit count of every rectangle.
pub open spec fn hit_counts(rects: Seq<TileRect>) -> Seq<u32> {
    Seq::new(rects.len(), |i: int| rects[i].hits() as u32)
}

/// Splat `i` has its record for tile `(tx, ty)` at its place: the splat's
/// offset plus the tile's index inside the splat's rectangle.
pub open spec fn emitted(
    grid: TileGrid,
    rects: Seq<TileRect>,
    depths: Seq<u32>,
    offsets: Seq<u32>,
    keys: Seq<u64>,
    ids: Seq<u32>,
    i: int,
    tx: int,
    ty: int,
) -> bool {
    let q = offsets[i] + rects[i].local_index(tx, ty);
    &&& offsets[i] <= q < offsets[i] + rects[i].hits()
    &&& q < keys.len()
    &&& keys[q] == make_key(grid.id_of(tx, ty) as u32, depths[i])
    &&& ids[q] == i
}

/// Splat `i` has its record for tile `(tx, ty)` at its place, and that place
/// is below `limit`.
pub open spec fn emitted_below(
    grid: TileGrid,
    rects: Seq<TileRect>,
    depths: Seq<u32>,
    offsets: Seq<u32>,
    keys: Seq<u64>,
    ids: Seq<u32>,
    i: int,
    tx: int,
    ty: int,
    limit: int,
) -> bool {
    emitted(grid, rects, depths, offsets, keys, ids, i, tx, ty) && offsets[i]
        + rects[i].local_index(tx, ty) < limit
}

/// The record at place `q` belongs to a splat that touches the record's tile,
/// carries that splat's depth, and stands where that splat writes the record
/// of that tile.
pub open spec fn genuine(
    grid: TileGrid,
    rects: Seq<TileRect>,
    depths: Seq<u32>,
    offsets: Seq<u32>,
    keys: Seq<u64>,
    ids: Seq<u32>,
    q: int,
) -> bool {
    let i = ids[q] as int;
    &&& i < rects.len()
    &&& offsets[i] <= q < offsets[i] + rects[i].hits()
    &&& key_depth(keys[q]) == depths[i]
    &&& key_tile(keys[q]) < grid.num_tiles()
    &&& exists|tx: int, ty: int| #[trigger]
        rects[i].covers(tx, ty) && key_tile(keys[q]) == grid.id_of(tx, ty) && q == offsets[i]
            + rects[i].local_index(tx, ty)
}

/// `keys` and `ids` are the intersection records of the splats: every
/// overlap of a splat with a tile has its record, and there is no other
/// record.
pub open spec fn is_intersection_list(
    grid: TileGrid,
    rects: Seq<TileRect>,
    depths: Seq<u32>,
    offsets: Seq<u32>,
    keys: Seq<u64>,
    ids: Seq<u32>,
) -> bool {
    &&& keys.len() == sum_all(hit_counts(rects))
    &&& ids.len() == keys.len()
    &&& forall|i: int, tx: int, ty: int|
        0 <= i < rects.len() && #[trigger] rects[i].covers(tx, ty) ==> emitted(
            grid,
            rects,
            depths,
            offsets,
            keys,
            ids,
            i,
            tx,
            ty,
        )
    &&& forall|q: int|
        0 <= q < keys.len() ==> #[trigger] genuine(grid, rects, depths, offsets, keys, ids, q)
}

/// The records are written splat by splat, and a splat writes one record
/// per tile: of two records of the same tile, the earlier one belongs to the
/// splat with the smaller id.
pub proof fn lemma_same_tile_in_splat_order(
    grid: TileGrid,
    rects: Seq<TileRect>,
    depths: Seq<u32>,
    offsets: Seq<u32>,
    keys: Seq<u64>,
    ids: Seq<u32>,
    u1: int,
    u2: int,
)
    requires
        grid.wf(),
        forall|i: int| 0 <= i < rects.len() ==> (#[trigger] rects[i]).fits(grid),
        is_offsets_of(offsets, hit_counts(rects)),
        is_intersection_list(grid, rects, depths, offsets, keys, ids),
        0 <= u1 < u2 < keys.len(),
        key_tile(keys[u1]) == key_tile(keys[u2]),
    ensures
        ids[u1] < ids[u2],
{
    let counts = hit_counts(rects);
    let i1 = ids[u1] as int;
    let i2 = ids[u2] as int;
    assert(genuine(grid, rects, depths, offsets, keys, ids, u1));
    assert(genuine(grid, rects, depths, offsets, keys, ids, u2));
    if i1 > i2 {
        assert(rects[i2].fits(grid));
        lemma_hits_in_grid(rects[i2], grid);
        assert(counts[i2] == rects[i2].hits());
        assert(sum_upto(counts, i2 + 1) == sum_upto(counts, i2) + counts[i2]);
        lemma_sum_upto_mono(counts, i2 + 1, i1);
    } else if i1 == i2 {
        let r = rects[i1];
        let (x1, y1) = choose|tx: int, ty: int| #[trigger]
            r.covers(tx, ty) && key_tile(keys[u1]) == grid.id_of(tx, ty) && u1 == offsets[i1]
                + r.local_index(tx, ty);
        let (x2, y2) = choose|tx: int, ty: int| #[trigger]
            r.covers(tx, ty) && key_tile(keys[u2]) == grid.id_of(tx, ty) && u2 == offsets[i1]
                + r.local_index(tx, ty);
        assert(r.fits(grid));
        lemma_id_unique(grid, x1, y1, x2, y2);
    }
}

/// Tile-hit count of every splat.
pub fn count_hits(grid: &TileGrid, rects: &Vec<TileRect>) -> (counts: Vec<u32>)
    requires
        grid.wf(),
        forall|i: int| 0 <= i < rects.len() ==> (#[trigger] rects@[i]).fits(*grid),
    ensures
        counts@ == hit_counts(rects@),
{
    let n = rects.len();
    let mut counts: Vec<u32> = Vec::with_capacity(n);
    let mut i: usize = 0;
    while i < n
        invariant
            i <= n,
            n == rects.len(),
            grid.wf(),
            forall|j: int| 0 <= j < rects.len() ==> (#[trigger] rects@[j]).fits(*grid),
            counts.len() == i,
            forall|j: int| 0 <= j < i ==> (#[trigger] counts@[j]) == rects@[j].hits(),
        decreases n - i,
    {
        let c = rects[i].hit_count(grid);
        counts.push(c);
        i += 1;
    }
    assert(counts@ =~= hit_counts(rects@));
    counts
}

/// Writes the intersection records of all splats.
///
/// Splat `i` writes one record for every tile of `rects[i]`, row by row,
/// starting at `scan.offsets[i]`. The scan has to be the one of the splats'
/// tile-hit counts: with any other, records would collide or leave gaps.
pub fn map_intersections(
    grid: &TileGrid,
    rects: &Vec<TileRect>,
    depths: &Vec<u32>,
    scan: &Scan,
) -> (out: (Vec<u64>, Vec<u32>))
    requires
        grid.wf(),
        rects.len() == depths.len(),
        rects.len() <= u32::MAX,
        forall|i: int| 0 <= i < rects.len() ==> (#[trigger] rects@[i]).fits(*grid),
        scan.is_scan_of(hit_counts(rects@)),
    ensures
        is_intersection_list(*grid, rects@, depths@, scan.offsets@, out.0@, out.1@),
{
    let n = rects.len();
    let total = scan.total as usize;
    let ghost counts = hit_counts(rects@);
    let ghost offs = scan.offsets@;
    let mut keys: Vec<u64> = vec![0u64; total];
    let mut ids: Vec<u32> = vec![0u32; total];
    let mut i: usize = 0;
    while i < n
        invariant
            i <= n,
            n == rects.len(),
            n == depths.len(),
            n <= u32::MAX,
            grid.wf(),
            forall|j: int| 0 <= j < rects.len() ==> (#[trigger] rects@[j]).fits(*grid),
            counts == hit_counts(rects@),
            offs == scan.offsets@,
            scan.is_scan_of(counts),
            total == sum_all(counts),
            keys.len() == total,
            ids.len() == total,
            offs.len() == n,
            forall|j: int, tx: int, ty: int|
                0 <= j < i && #[trigger] rects@[j].covers(tx, ty) ==> emitted_below(*grid, rects@, depths@, offs, keys@, ids@, j, tx, ty, sum_upto(counts, i as int)),
            forall|q: int|
                0 <= q < sum_upto(counts, i as int) ==> #[trigger] genuine(
                    *grid,
                    rects@,
                    depths@,
                    offs,
                    keys@,
                    ids@,
                    q,
                ),
        decreases n - i,
    {
        let rect = rects[i];
        let depth = depths[i];
        let base = scan.offsets[i] as usize;
        let w: usize = (rect.max_x - rect.min_x) as usize;
        proof {
            lemma_hits_in_grid(rect, *grid);
            lemma_sum_upto_mono(counts, i as int + 1, n as int);
            assert(sum_upto(counts, i + 1) == sum_upto(counts, i as int) + counts[i as int]);
            assert(counts[i as int] == rect.hits());
        }
        let mut running: usize = 0;
        let mut ty: u32 = rect.min_y;
        while ty < rect.max_y
            invariant
                i < n,
                n == rects.len(),
                n == depths.len(),
                n <= u32::MAX,
                grid.wf(),
                rect == rects@[i as int],
                depth == depths@[i as int],
                rect.fits(*grid),
                w == rect.width(),
                rect.min_y <= ty <= rect.max_y,
                running == (ty - rect.min_y) * w,
                base == offs[i as int],
                base == sum_upto(counts, i as int),
                base + rect.hits() <= total,
                keys.len() == total,
                ids.len() == total,
                offs.len() == n,
                forall|j: int, tx: int, ty: int|
                    0 <= j < i && #[trigger] rects@[j].covers(tx, ty) ==> emitted_below(*grid, rects@, depths@, offs, keys@, ids@, j, tx, ty, base + running),
                forall|tx: int, y: int|
                    #[trigger] rect.covers(tx, y) && y < ty ==> emitted_below(*grid, rects@, depths@, offs, keys@, ids@, i as int, tx, y, base + running),
                forall|q: int|
                    0 <= q < base + running ==> #[trigger] genuine(
                        *grid,
                        rects@,
                        depths@,
                        offs,
                        keys@,
                        ids@,
                        q,
                    ),
            decreases rect.max_y - ty,
        {
            let mut tx: u32 = rect.min_x;
            while tx < rect.max_x
                invariant
                    i < n,
                    n == rects.len(),
                    n == depths.len(),
                    n <= u32::MAX,
                    grid.wf(),
                    rect == rects@[i as int],
                    depth == depths@[i as int],
                    rect.fits(*grid),
                    w == rect.width(),
                    rect.min_y <= ty < rect.max_y,
                    rect.min_x <= tx <= rect.max_x,
                    running == (ty - rect.min_y) * w + (tx - rect.min_x),
                    base == offs[i as int],
                    base == sum_upto(counts, i as int),
                    base + rect.hits() <= total,
                    keys.len() == total,
                    ids.len() == total,
                    offs.len() == n,
                    forall|j: int, tx: int, ty: int|
                        0 <= j < i && #[trigger] rects@[j].covers(tx, ty) ==> emitted_below(*grid, rects@, depths@, offs, keys@, ids@, j, tx, ty, base + running),
                    forall|x: int, y: int|
                        #[trigger] rect.covers(x, y) && (y < ty || (y == ty && x < tx))
                            ==> emitted_below(*grid, rects@, depths@, offs, keys@, ids@, i as int, x, y, base + running),
                    forall|q: int|
                        0 <= q < base + running ==> #[trigger] genuine(
                            *grid,
                            rects@,
                            depths@,
                            offs,
                            keys@,
                            ids@,
                            q,
                        ),
                decreases rect.max_x - tx,
            {
                proof {
                    lemma_local_index_bounds(rect, tx as int, ty as int);
                    lemma_id_in_grid(*grid, tx as int, ty as int);
                }
                let tile = grid.tile_id(tx, ty);
                let key = pack_key(tile, depth);
                let q: usize = base + running;
                let ghost keys_before = keys@;
                let ghost ids_before = ids@;
                keys.set(q, key);
                ids.set(q, i as u32);
                proof {
                    lemma_key_parts(tile, depth);
                    assert(rect.covers(tx as int, ty as int));
                    assert(genuine(*grid, rects@, depths@, offs, keys@, ids@, q as int));
                    assert forall|p: int| 0 <= p < q implies #[trigger] genuine(
                        *grid,
                        rects@,
                        depths@,
                        offs,
                        keys@,
                        ids@,
                        p,
                    ) by {
                        assert(genuine(*grid, rects@, depths@, offs, keys_before, ids_before, p));
                    }
                    assert(emitted(
                        *grid,
                        rects@,
                        depths@,
                        offs,
                        keys@,
                        ids@,
                        i as int,
                        tx as int,
                        ty as int,
                    ));
                }
                running += 1;
                tx += 1;
            }
            proof {
                let dy = ty - rect.min_y;
                assert((dy + 1) * w == dy * w + w) by (nonlinear_arith);
            }
            ty += 1;
        }
        proof {
            let h = rect.height();
            assert(h * w == w * h) by (nonlinear_arith);
            assert(base + running == sum_upto(counts, i + 1));
        }
        i += 1;
    }
    (keys, ids)
}

} // verus!
