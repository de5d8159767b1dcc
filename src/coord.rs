//! Integer grid coordinates and the observers that demand tiles around them.
use vstd::prelude::*;

verus! {

/// The position of a tile on the grid, in tile units.
#[derive(Clone, Copy, Debug, PartialEq, Eq, Structural, Hash)]
pub struct GridCoord {
    pub x: i32,
    pub y: i32,
}

impl GridCoord {
    pub fn new(x: i32, y: i32) -> (r: GridCoord)
        ensures
            r.x == x,
            r.y == y,
    {
        GridCoord { x, y }
    }
}

/// An entity that demands the tiles within `radius` (Chebyshev distance) of
/// the grid cell it stands on.
#[derive(Clone, Copy, Debug, PartialEq, Eq, Structural)]
pub struct TerrainSpawner {
    /// Loading radius in tiles.
    pub radius: u32,
    /// Current grid coordinate.
    pub coord: GridCoord,
}

/// Floor of `a / b` for a positive `b` (Verus's `/` on `int` rounds down
/// for positive divisors).
pub open spec fn floor_div(a: int, b: int) -> int
    recommends
        b > 0,
{
    a / b
}

/// True when `c` lies in the inclusive rectangle `[lo, hi]`.
pub open spec fn in_bounds(c: GridCoord, lo: GridCoord, hi: GridCoord) -> bool {
    lo.x <= c.x <= hi.x && lo.y <= c.y <= hi.y
}

/// True when `c` is within Chebyshev distance `r` of `center`.
pub open spec fn in_square(c: GridCoord, center: GridCoord, r: int) -> bool {
    -r <= c.x - center.x <= r && -r <= c.y - center.y <= r
}

/// Squared Euclidean distance between two grid coordinates.
pub open spec fn dist2(a: GridCoord, b: GridCoord) -> int {
    (a.x - b.x) * (a.x - b.x) + (a.y - b.y) * (a.y - b.y)
}

proof fn lemma_floor_div_neg(a: int, b: int)
    requires
        a < 0,
        b > 0,
    ensures
        a / b == -((-a - 1) / b) - 1,
{
    let q = (-a - 1) / b;
    let r = (-a - 1) % b;
    assert(-a - 1 == q * b + r && 0 <= r < b) by {
        vstd::arithmetic::div_mod::lemma_fundamental_div_mod(-a - 1, b);
    }
    // a == (-q - 1) * b + (b - 1 - r), with 0 <= b - 1 - r < b
    assert(a == (-q - 1) * b + (b - 1 - r)) by (nonlinear_arith)
        requires
            -a - 1 == q * b + r,
    ;
    vstd::arithmetic::div_mod::lemma_fundamental_div_mod_converse(a, b, -q - 1, b - 1 - r);
}

/// The grid cell that holds the world position `(x, z)`, for square tiles of
/// `tile_size` world units: each component is floor-divided by the size.
pub fn world_to_coord(x: i32, z: i32, tile_size: u32) -> (r: GridCoord)
    requires
        tile_size > 0,
    ensures
        r.x == floor_div(x as int, tile_size as int),
        r.y == floor_div(z as int, tile_size as int),
{
    GridCoord { x: floor_div_exec(x, tile_size), y: floor_div_exec(z, tile_size) }
}

fn floor_div_exec(a: i32, b: u32) -> (r: i32)
    requires
        b > 0,
    ensures
        r == floor_div(a as int, b as int),
{
    let a64 = a as i64;
    let b64 = b as i64;
    if a64 >= 0 {
        let q = a64 / b64;
        assert(0 <= q <= a64) by {
            vstd::arithmetic::div_mod::lemma_div_is_ordered_by_denominator(a64 as int, 1, b64 as int);
            vstd::arithmetic::div_mod::lemma_div_pos_is_pos(a64 as int, b64 as int);
        }
        q as i32
    } else {
        let n = -a64 - 1;
        let q = n / b64;
        assert(0 <= q <= n) by {
            vstd::arithmetic::div_mod::lemma_div_is_ordered_by_denominator(n as int, 1, b64 as int);
            vstd::arithmetic::div_mod::lemma_div_pos_is_pos(n as int, b64 as int);
        }
        proof {
            lemma_floor_div_neg(a as int, b as int);
        }
        (-q - 1) as i32
    }
}

} // verus!
