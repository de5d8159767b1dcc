//! Dispatch priority: nearest to some spawner first (by squared distance),
//! ties broken by coordinate so that the order is total and reproducible.
use vstd::prelude::*;
use crate::coord::{GridCoord, TerrainSpawner, dist2};

verus! {

/// Squared distance from `c` to the nearest spawner of `s`; zero when there
/// are none, so that the coordinate order alone decides.
pub open spec fn nearest_dist2(s: Seq<TerrainSpawner>, c: GridCoord) -> int
    decreases s.len(),
{
    if s.len() == 0 {
        0
    } else if s.len() == 1 {
        dist2(c, s[0].coord)
    } else {
        let rest = nearest_dist2(s.drop_last(), c);
        let d = dist2(c, s.last().coord);
        if d < rest {
            d
        } else {
            rest
        }
    }
}

/// `a` is dispatched before `b`: it is nearer, or as near and smaller in
/// `(x, y)` order.
pub open spec fn goes_before(s: Seq<TerrainSpawner>, a: GridCoord, b: GridCoord) -> bool {
    let da = nearest_dist2(s, a);
    let db = nearest_dist2(s, b);
    da < db || (da == db && (a.x < b.x || (a.x == b.x && a.y < b.y)))
}

fn abs_diff(a: i32, b: i32) -> (r: u128)
    ensures
        r == if a >= b { a - b } else { b - a },
        r < 0x1_0000_0000,
{
    let d = a as i64 - b as i64;
    if d < 0 { (-d) as u128 } else { d as u128 }
}

/// Squared distance between two grid coordinates.
pub fn grid_dist2(a: GridCoord, b: GridCoord) -> (r: u128)
    ensures
        r == dist2(a, b),
        r < 0x4_0000_0000_0000_0000,
{
    let dx = abs_diff(a.x, b.x);
    let dy = abs_diff(a.y, b.y);
    assert(dx * dx < 0x1_0000_0000_0000_0000) by (nonlinear_arith)
        requires
            dx < 0x1_0000_0000,
    ;
    assert(dy * dy < 0x1_0000_0000_0000_0000) by (nonlinear_arith)
        requires
            dy < 0x1_0000_0000,
    ;
    assert(dx * dx == (a.x - b.x) * (a.x - b.x)) by (nonlinear_arith)
        requires
            dx == if a.x >= b.x { a.x - b.x } else { b.x - a.x },
    ;
    assert(dy * dy == (a.y - b.y) * (a.y - b.y)) by (nonlinear_arith)
        requires
            dy == if a.y >= b.y { a.y - b.y } else { b.y - a.y },
    ;
    dx * dx + dy * dy
}

/// Squared distance from `c` to the nearest of `spawners`.
pub fn nearest_spawner_dist2(spawners: &Vec<TerrainSpawner>, c: GridCoord) -> (r: u128)
    ensures
        r == nearest_dist2(spawners@, c),
{
    let ghost s = spawners@;
    if spawners.len() == 0 {
        return 0;
    }
    let mut best = grid_dist2(c, spawners[0].coord);
    let mut i: usize = 1;
    assert(s.subrange(0, 1).len() == 1);
    while i < spawners.len()
        invariant
            s == spawners@,
            1 <= i <= s.len(),
            best == nearest_dist2(s.subrange(0, i as int), c),
        decreases s.len() - i,
    {
        let d = grid_dist2(c, spawners[i].coord);
        let ghost pre = s.subrange(0, i as int);
        assert(s.subrange(0, i as int + 1).drop_last() =~= pre);
        assert(s.subrange(0, i as int + 1).last() == s[i as int]);
        if d < best {
            best = d;
        }
        i = i + 1;
    }
    assert(s.subrange(0, s.len() as int) =~= s);
    best
}

/// Exec form of `goes_before`, given the two nearest distances.
pub fn before_by_key(da: u128, a: GridCoord, db: u128, b: GridCoord) -> (r: bool)
    ensures
        r == (da < db || (da == db && (a.x < b.x || (a.x == b.x && a.y < b.y)))),
{
    da < db || (da == db && (a.x < b.x || (a.x == b.x && a.y < b.y)))
}

} // verus!
