//! The tile grid of an image and the rectangle of tiles that a splat touches.
use vstd::prelude::*;
use crate::error::RenderError;
use crate::TILE_WIDTH;

verus! {

/// Number of tiles needed to span `px` pixels along one axis.
pub open spec fn tiles_across(px: u32) -> int {
    (px + TILE_WIDTH - 1) / (TILE_WIDTH as int)
}

/// The tile column (or row) that holds pixel column (or row) `px`; negative
/// for a pixel left of (or above) the image.
pub open spec fn tile_of_pixel(px: int) -> int {
    px / (TILE_WIDTH as int)
}

/// `v` held to the range `0..=limit`.
pub open spec fn clamp_to(v: int, limit: int) -> int {
    if v < 0 {
        0
    } else if v > limit {
        limit
    } else {
        v
    }
}

/// The grid of tiles laid over an image, numbered row by row.
#[derive(Clone, Copy, Debug, PartialEq, Eq, Structural)]
pub struct TileGrid {
    /// Tiles per row.
    pub cols: u32,
    /// Number of rows.
    pub rows: u32,
}

/// A half-open rectangle of tiles: columns `min_x..max_x`, rows
/// `min_y..max_y`.
#[derive(Clone, Copy, Debug, PartialEq, Eq, Structural)]
pub struct TileRect {
    pub min_x: u32,
    pub min_y: u32,
    pub max_x: u32,
    pub max_y: u32,
}

impl TileGrid {
    /// The grid has at least one tile and every tile id fits in 32 bits.
    pub open spec fn wf(&self) -> bool {
        &&& self.cols > 0
        &&& self.rows > 0
        &&& self.cols * self.rows <= u32::MAX
    }

    /// Number of tiles in the grid.
    pub open spec fn num_tiles(&self) -> int {
        self.cols * self.rows
    }

    /// The id of the tile in column `tx` of row `ty`.
    pub open spec fn id_of(&self, tx: int, ty: int) -> int {
        ty * self.cols + tx
    }

    /// The grid for an image of `width` by `height` pixels.
    ///
    /// An image without pixels is refused, and so is one with more tiles than
    /// 32 bits can number.
    pub fn new(width: u32, height: u32) -> (r: Result<TileGrid, RenderError>)
        ensures
            (width == 0 || height == 0) ==> r == Err::<TileGrid, RenderError>(
                RenderError::ZeroResolution,
            ),
            (width > 0 && height > 0 && tiles_across(width) * tiles_across(height) > u32::MAX)
                ==> r == Err::<TileGrid, RenderError>(RenderError::GridTooLarge),
            (width > 0 && height > 0 && tiles_across(width) * tiles_across(height) <= u32::MAX)
                ==> r == Ok::<TileGrid, RenderError>(
                (TileGrid { cols: tiles_across(width) as u32, rows: tiles_across(height) as u32 }),
            ),
            r is Ok ==> r->Ok_0.wf(),
    {
        if width == 0 || height == 0 {
            return Err(RenderError::ZeroResolution);
        }
        let cols: u32 = (width - 1) / TILE_WIDTH + 1;
        let rows: u32 = (height - 1) / TILE_WIDTH + 1;
        assert(cols == tiles_across(width) && rows == tiles_across(height));
        assert(cols * rows <= 0x1000_0000 * 0x1000_0000) by (nonlinear_arith)
            requires
                0 <= cols <= 0x1000_0000,
                0 <= rows <= 0x1000_0000,
        ;
        let count: u64 = (cols as u64) * (rows as u64);
        if count > 0xffff_ffff {
            return Err(RenderError::GridTooLarge);
        }
        Ok(TileGrid { cols, rows })
    }

    /// Number of tiles in the grid.
    pub fn tile_count(&self) -> (count: u32)
        requires
            self.wf(),
        ensures
            count == self.num_tiles(),
    {
        self.cols * self.rows
    }

    /// The id of the tile in column `tx` of row `ty`.
    pub fn tile_id(&self, tx: u32, ty: u32) -> (id: u32)
        requires
            self.wf(),
            tx < self.cols,
            ty < self.rows,
        ensures
            id == self.id_of(tx as int, ty as int),
            id < self.num_tiles(),
    {
        proof {
            lemma_id_in_grid(*self, tx as int, ty as int);
        }
        ty * self.cols + tx
    }

    /// The tile that holds the pixel in column `px` of row `py`.
    pub fn pixel_tile(&self, px: u32, py: u32) -> (id: u32)
        requires
            self.wf(),
            px / TILE_WIDTH < self.cols,
            py / TILE_WIDTH < self.rows,
        ensures
            id == self.id_of(tile_of_pixel(px as int), tile_of_pixel(py as int)),
            id < self.num_tiles(),
    {
        self.tile_id(px / TILE_WIDTH, py / TILE_WIDTH)
    }

    /// The tiles that a splat touches whose centre lies at pixel `(cx, cy)`
    /// and whose bounding radius is `radius` pixels: those of the square
    /// `cx - radius ..= cx + radius` by `cy - radius ..= cy + radius`. A splat
    /// with radius zero is culled: it touches no tile.
    pub fn bounding_rect(&self, cx: i32, cy: i32, radius: u32) -> (rect: TileRect)
        requires
            self.wf(),
        ensures
            rect.fits(*self),
            radius == 0 ==> rect == TileRect::none(),
            radius > 0 ==> {
                &&& rect.min_x == clamp_to(tile_of_pixel(cx - radius), self.cols as int)
                &&& rect.max_x == clamp_to(tile_of_pixel(cx + radius) + 1, self.cols as int)
                &&& rect.min_y == clamp_to(tile_of_pixel(cy - radius), self.rows as int)
                &&& rect.max_y == clamp_to(tile_of_pixel(cy + radius) + 1, self.rows as int)
            },
    {
        if radius == 0 {
            return TileRect::empty();
        }
        let r: i64 = radius as i64;
        let x: i64 = cx as i64;
        let y: i64 = cy as i64;
        self.clip(x - r, y - r, x + r, y + r)
    }

    /// The tiles that hold a pixel of the box with columns `lo_x..=hi_x` and
    /// rows `lo_y..=hi_y`. The box may reach beyond the image, on any side;
    /// a box that is empty, or that misses the image, gives a rectangle
    /// without tiles.
    pub fn clip(&self, lo_x: i64, lo_y: i64, hi_x: i64, hi_y: i64) -> (rect: TileRect)
        requires
            self.wf(),
        ensures
            rect.fits(*self),
            (lo_x <= hi_x && lo_y <= hi_y) ==> {
                &&& rect.min_x == clamp_to(tile_of_pixel(lo_x as int), self.cols as int)
                &&& rect.max_x == clamp_to(tile_of_pixel(hi_x as int) + 1, self.cols as int)
                &&& rect.min_y == clamp_to(tile_of_pixel(lo_y as int), self.rows as int)
                &&& rect.max_y == clamp_to(tile_of_pixel(hi_y as int) + 1, self.rows as int)
            },
            !(lo_x <= hi_x && lo_y <= hi_y) ==> rect == TileRect::none(),
    {
        if lo_x > hi_x || lo_y > hi_y {
            return TileRect::empty();
        }
        let min_x = clip_low(lo_x, self.cols);
        let max_x = clip_high(hi_x, self.cols);
        let min_y = clip_low(lo_y, self.rows);
        let max_y = clip_high(hi_y, self.rows);
        TileRect { min_x, min_y, max_x, max_y }
    }
}

/// The first tile of a box that starts at pixel `lo`, held to `0..=limit`.
fn clip_low(lo: i64, limit: u32) -> (t: u32)
    ensures
        t == clamp_to(tile_of_pixel(lo as int), limit as int),
{
    if lo < 0 {
        0
    } else {
        let tile: u64 = (lo as u64) / 16;
        if tile > limit as u64 {
            limit
        } else {
            tile as u32
        }
    }
}

/// One past the last tile of a box that ends at pixel `hi`, held to
/// `0..=limit`.
fn clip_high(hi: i64, limit: u32) -> (t: u32)
    ensures
        t == clamp_to(tile_of_pixel(hi as int) + 1, limit as int),
{
    if hi < 0 {
        0
    } else {
        let tile: u64 = (hi as u64) / 16 + 1;
        if tile > limit as u64 {
            limit
        } else {
            tile as u32
        }
    }
}

/// A tile inside the grid has an id below the number of tiles.
pub proof fn lemma_id_in_grid(grid: TileGrid, tx: int, ty: int)
    requires
        0 <= tx < grid.cols,
        0 <= ty < grid.rows,
    ensures
        0 <= grid.id_of(tx, ty) < grid.num_tiles(),
{
    let cols = grid.cols as int;
    let rows = grid.rows as int;
    assert(0 <= ty * cols && ty * cols + cols <= rows * cols && rows * cols == cols * rows)
        by (nonlinear_arith)
        requires
            0 <= ty < rows,
            0 <= cols,
    ;
}

/// Two tiles with the same id are the same tile.
pub proof fn lemma_id_unique(grid: TileGrid, tx1: int, ty1: int, tx2: int, ty2: int)
    requires
        0 <= tx1 < grid.cols,
        0 <= tx2 < grid.cols,
        grid.id_of(tx1, ty1) == grid.id_of(tx2, ty2),
    ensures
        tx1 == tx2,
        ty1 == ty2,
{
    let cols = grid.cols as int;
    assert(ty1 == ty2) by (nonlinear_arith)
        requires
            0 <= tx1 < cols,
            0 <= tx2 < cols,
            ty1 * cols + tx1 == ty2 * cols + tx2,
    ;
}

impl TileRect {
    /// The rectangle without tiles.
    pub open spec fn none() -> TileRect {
        TileRect { min_x: 0, min_y: 0, max_x: 0, max_y: 0 }
    }

    /// The rectangle lies inside `grid`.
    pub open spec fn fits(&self, grid: TileGrid) -> bool {
        &&& self.min_x <= self.max_x <= grid.cols
        &&& self.min_y <= self.max_y <= grid.rows
    }

    /// Tiles per row of the rectangle.
    pub open spec fn width(&self) -> int {
        self.max_x - self.min_x
    }

    /// Rows of the rectangle.
    pub open spec fn height(&self) -> int {
        self.max_y - self.min_y
    }

    /// Number of tiles in the rectangle.
    pub open spec fn hits(&self) -> int {
        self.width() * self.height()
    }

    /// The tile in column `tx` of row `ty` belongs to the rectangle.
    pub open spec fn covers(&self, tx: int, ty: int) -> bool {
        self.min_x <= tx < self.max_x && self.min_y <= ty < self.max_y
    }

    /// The place of tile `(tx, ty)` among the tiles of the rectangle, counted
    /// row by row.
    pub open spec fn local_index(&self, tx: int, ty: int) -> int {
        (ty - self.min_y) * self.width() + (tx - self.min_x)
    }

    /// The rectangle without tiles.
    pub fn empty() -> (rect: TileRect)
        ensures
            rect == TileRect::none(),
    {
        TileRect { min_x: 0, min_y: 0, max_x: 0, max_y: 0 }
    }

    /// Number of tiles in the rectangle.
    pub fn hit_count(&self, grid: &TileGrid) -> (count: u32)
        requires
            grid.wf(),
            self.fits(*grid),
        ensures
            count == self.hits(),
    {
        proof {
            lemma_hits_in_grid(*self, *grid);
        }
        (self.max_x - self.min_x) * (self.max_y - self.min_y)
    }
}

/// A rectangle inside the grid has no more tiles than the grid.
pub proof fn lemma_hits_in_grid(rect: TileRect, grid: TileGrid)
    requires
        rect.fits(grid),
    ensures
        0 <= rect.hits() <= grid.num_tiles(),
{
    let w = rect.width();
    let h = rect.height();
    let cols = grid.cols as int;
    let rows = grid.rows as int;
    assert(0 <= w * h <= cols * rows) by (nonlinear_arith)
        requires
            0 <= w <= cols,
            0 <= h <= rows,
    ;
}

/// A rectangle that covers a tile has a tile-hit count above zero.
pub proof fn lemma_covering_rect_hits(rect: TileRect, tx: int, ty: int)
    requires
        rect.covers(tx, ty),
    ensures
        rect.hits() > 0,
{
    lemma_local_index_bounds(rect, tx, ty);
}

/// The local index of a covered tile is below the number of tiles of the
/// rectangle.
pub proof fn lemma_local_index_bounds(rect: TileRect, tx: int, ty: int)
    requires
        rect.covers(tx, ty),
    ensures
        0 <= rect.local_index(tx, ty) < rect.hits(),
{
    let w = rect.width();
    let h = rect.height();
    let dy = ty - rect.min_y;
    assert(0 <= dy * w && dy * w + w <= h * w && h * w == w * h) by (nonlinear_arith)
        requires
            0 <= dy < h,
            0 <= w,
    ;
}

} // verus!
