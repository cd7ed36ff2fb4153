//! The tiles into which the sample area of an image is divided for
//! rendering.

use vstd::prelude::*;

verus! {

/// The side of a tile, in pixels.
pub const TILE_SIZE: i32 = 16;

/// The most tiles that an image is divided into.
pub const MAX_TILES: usize = 0x100_0000;

/// A pixel position.
#[derive(Clone, Copy, Debug, PartialEq, Eq, Structural)]
pub struct Point2i {
    pub x: i32,
    pub y: i32,
}

impl Point2i {
    /// The pixel in column `x` and row `y`.
    pub fn new(x: i32, y: i32) -> (p: Point2i)
        ensures
            p == (Point2i { x, y }),
    {
        Point2i { x, y }
    }
}

/// A rectangle of pixels: those from `p_min` up to, but without, `p_max`.
#[derive(Clone, Copy, Debug, PartialEq, Eq, Structural)]
pub struct Bounds2i {
    pub p_min: Point2i,
    pub p_max: Point2i,
}

impl Bounds2i {
    /// The minimum does not exceed the maximum, and the extent fits a
    /// signed 32-bit number with room for one tile.
    pub open spec fn wf(self) -> bool {
        &&& self.p_min.x <= self.p_max.x
        &&& self.p_min.y <= self.p_max.y
        &&& self.p_max.x - self.p_min.x <= i32::MAX - TILE_SIZE
        &&& self.p_max.y - self.p_min.y <= i32::MAX - TILE_SIZE
    }

    /// The pixel `p` lies in the rectangle.
    pub open spec fn holds(self, p: Point2i) -> bool {
        self.p_min.x <= p.x < self.p_max.x && self.p_min.y <= p.y < self.p_max.y
    }

    /// The rectangle from `p_min` up to, but without, `p_max`.
    pub fn new(p_min: Point2i, p_max: Point2i) -> (b: Bounds2i)
        ensures
            b == (Bounds2i { p_min, p_max }),
    {
        Bounds2i { p_min, p_max }
    }

    /// Whether the rectangle is well formed.
    pub fn is_valid(&self) -> (b: bool)
        ensures
            b == self.wf(),
    {
        self.p_min.x <= self.p_max.x && self.p_min.y <= self.p_max.y && self.p_max.x as i64
            - self.p_min.x as i64 <= (i32::MAX - TILE_SIZE) as i64 && self.p_max.y as i64
            - self.p_min.y as i64 <= (i32::MAX - TILE_SIZE) as i64
    }

    /// Whether the pixel `p` lies in the rectangle.
    pub fn contains_exclusive(&self, p: &Point2i) -> (b: bool)
        ensures
            b == self.holds(*p),
    {
        self.p_min.x <= p.x && p.x < self.p_max.x && self.p_min.y <= p.y && p.y < self.p_max.y
    }
}

/// A tile of the sample area.
#[derive(Clone, Copy, Debug, PartialEq, Eq, Structural)]
pub struct Tile {
    /// The tile's column.
    pub x: usize,
    /// The tile's row.
    pub y: usize,
    /// The seed of the tile's sampler: the tile's number, rows first.
    pub seed: u64,
    /// The pixels of the tile.
    pub bounds: Bounds2i,
}

/// The number of tiles that a stretch of `extent` pixels takes.
pub open spec fn tiles_along(extent: int) -> int {
    (extent + TILE_SIZE - 1) / (TILE_SIZE as int)
}

/// The pair that stands at position `k` of the grid of `nx` columns and `ny`
/// rows, columns first: its column is `k / ny` and its row `k % ny`.
pub open spec fn grid_at(k: int, ny: int) -> (usize, usize) {
    ((k / ny) as usize, (k % ny) as usize)
}

/// The pixels of the tile in column `x` and row `y` of the sample area
/// `area`: a square of `TILE_SIZE` pixels, cut off at the area's maximum.
pub open spec fn tile_bounds_spec(area: Bounds2i, x: int, y: int) -> Bounds2i {
    let x0 = area.p_min.x + x * TILE_SIZE;
    let y0 = area.p_min.y + y * TILE_SIZE;
    Bounds2i {
        p_min: Point2i { x: x0 as i32, y: y0 as i32 },
        p_max: Point2i {
            x: (if x0 + TILE_SIZE < area.p_max.x {
                x0 + TILE_SIZE
            } else {
                area.p_max.x as int
            }) as i32,
            y: (if y0 + TILE_SIZE < area.p_max.y {
                y0 + TILE_SIZE
            } else {
                area.p_max.y as int
            }) as i32,
        },
    }
}

/// The tile in column `x` and row `y` of the sample area `area`, which has
/// `nx` columns of tiles.
pub open spec fn tile_spec(area: Bounds2i, nx: int, x: int, y: int) -> Tile {
    Tile {
        x: x as usize,
        y: y as usize,
        seed: (y * nx + x) as u64,
        bounds: tile_bounds_spec(area, x, y),
    }
}

/// The numbers of columns and rows of tiles that the sample area takes.
pub fn tile_counts(area: &Bounds2i) -> (n: (usize, usize))
    requires
        area.wf(),
    ensures
        n.0 == tiles_along(area.p_max.x - area.p_min.x),
        n.1 == tiles_along(area.p_max.y - area.p_min.y),
        n.0 <= 0x800_0000,
        n.1 <= 0x800_0000,
{
    let ex: i32 = area.p_max.x - area.p_min.x;
    let ey: i32 = area.p_max.y - area.p_min.y;
    let nx: i32 = (ex + TILE_SIZE - 1) / TILE_SIZE;
    let ny: i32 = (ey + TILE_SIZE - 1) / TILE_SIZE;
    (nx as usize, ny as usize)
}

/// The pixels of the tile in column `x` and row `y`.
pub fn tile_bounds(area: &Bounds2i, x: usize, y: usize) -> (b: Bounds2i)
    requires
        area.wf(),
        x < tiles_along(area.p_max.x - area.p_min.x),
        y < tiles_along(area.p_max.y - area.p_min.y),
    ensures
        b == tile_bounds_spec(*area, x as int, y as int),
        area.p_min.x <= b.p_min.x < b.p_max.x <= area.p_max.x,
        area.p_min.y <= b.p_min.y < b.p_max.y <= area.p_max.y,
{
    let x0: i64 = area.p_min.x as i64 + (x as i64) * 16;
    let y0: i64 = area.p_min.y as i64 + (y as i64) * 16;
    let x1: i64 = if x0 + 16 < area.p_max.x as i64 {
        x0 + 16
    } else {
        area.p_max.x as i64
    };
    let y1: i64 = if y0 + 16 < area.p_max.y as i64 {
        y0 + 16
    } else {
        area.p_max.y as i64
    };
    Bounds2i {
        p_min: Point2i { x: x0 as i32, y: y0 as i32 },
        p_max: Point2i { x: x1 as i32, y: y1 as i32 },
    }
}

/// Calls `itertools::Itertools::cartesian_product` on the ranges of the
/// columns and of the rows and collects what it yields: every pair of a
/// column below `nx` and a row below `ny` once, the pairs of one column
/// together, in the order of the rows, and the columns in their order.
#[verifier::external_body]
fn tile_grid(nx: usize, ny: usize) -> (grid: Vec<(usize, usize)>)
    requires
        nx * ny <= MAX_TILES,
    ensures
        grid@.len() == nx * ny,
        forall|k: int| 0 <= k < grid@.len() ==> #[trigger] grid@[k] == grid_at(k, ny as int),
{
    itertools::Itertools::cartesian_product(0..nx, 0..ny).collect()
}

/// The product of two numbers that each are at most a bound is at most the
/// product of the bounds, and a position of a grid has a column below the
/// number of columns.
proof fn lemma_grid_position(k: int, nx: int, ny: int)
    by (nonlinear_arith)
    requires
        0 <= k < nx * ny,
        0 <= nx,
        0 < ny,
    ensures
        0 <= k / ny < nx,
        0 <= k % ny < ny,
        (k / ny) * ny + k % ny == k,
{
}

/// The tiles of the sample area `area`, column by column; none where the
/// tiles would be more than `MAX_TILES`.
pub fn tiles(area: &Bounds2i) -> (r: Option<Vec<Tile>>)
    requires
        area.wf(),
    ensures
        ({
            let nx = tiles_along(area.p_max.x - area.p_min.x);
            let ny = tiles_along(area.p_max.y - area.p_min.y);
            match r {
                Some(tiles) => {
                    &&& nx * ny <= MAX_TILES
                    &&& tiles@.len() == nx * ny
                    &&& forall|k: int|
                        0 <= k < tiles@.len() ==> #[trigger] tiles@[k] == tile_spec(
                            *area,
                            nx,
                            k / ny,
                            k % ny,
                        )
                },
                None => nx * ny > MAX_TILES,
            }
        }),
{
    let (nx, ny) = tile_counts(area);
    proof {
        assert(nx * ny <= 0x800_0000 * 0x800_0000) by (nonlinear_arith)
            requires
                0 <= nx <= 0x800_0000,
                0 <= ny <= 0x800_0000,
        ;
    }
    let total: u64 = (nx as u64) * (ny as u64);
    if total > MAX_TILES as u64 {
        return None;
    }
    let grid = tile_grid(nx, ny);
    let mut tiles: Vec<Tile> = Vec::with_capacity(grid.len());
    let mut k: usize = 0;
    while k < grid.len()
        invariant
            area.wf(),
            k <= grid.len(),
            nx == tiles_along(area.p_max.x - area.p_min.x),
            ny == tiles_along(area.p_max.y - area.p_min.y),
            nx <= 0x800_0000,
            ny <= 0x800_0000,
            grid@.len() == nx * ny,
            nx * ny <= MAX_TILES,
            forall|j: int| 0 <= j < grid@.len() ==> #[trigger] grid@[j] == grid_at(j, ny as int),
            tiles.len() == k,
            forall|j: int|
                0 <= j < k ==> #[trigger] tiles@[j] == tile_spec(
                    *area,
                    nx as int,
                    j / (ny as int),
                    j % (ny as int),
                ),
        decreases grid.len() - k,
    {
        let (x, y) = grid[k];
        proof {
            if ny == 0 {
                assert(nx * ny == 0) by (nonlinear_arith)
                    requires
                        ny == 0,
                ;
            }
            lemma_grid_position(k as int, nx as int, ny as int);
            assert(y * nx + x <= 0x800_0000 * 0x800_0000 + 0x800_0000) by (nonlinear_arith)
                requires
                    0 <= x < nx <= 0x800_0000,
                    0 <= y < ny <= 0x800_0000,
            ;
        }
        let seed: u64 = (y as u64) * (nx as u64) + (x as u64);
        let bounds = tile_bounds(area, x, y);
        tiles.push(Tile { x, y, seed, bounds });
        k = k + 1;
    }
    Some(tiles)
}

/// Every pixel of the sample area lies in the tile of its column and row,
/// and in no other tile.
pub proof fn lemma_tiles_cover(area: Bounds2i, p: Point2i, x: int, y: int)
    requires
        area.wf(),
        area.holds(p),
        0 <= x < tiles_along(area.p_max.x - area.p_min.x),
        0 <= y < tiles_along(area.p_max.y - area.p_min.y),
    ensures
        tile_bounds_spec(area, x, y).holds(p) <==> (x == (p.x - area.p_min.x) / (TILE_SIZE as int)
            && y == (p.y - area.p_min.y) / (TILE_SIZE as int)),
        0 <= (p.x - area.p_min.x) / (TILE_SIZE as int) < tiles_along(area.p_max.x - area.p_min.x),
        0 <= (p.y - area.p_min.y) / (TILE_SIZE as int) < tiles_along(area.p_max.y - area.p_min.y),
{
}

} // verus!
