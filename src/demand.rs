//! The desired set: every coordinate within some spawner's square footprint,
//! clipped to the grid bounds.
use vstd::prelude::*;
use crate::coord::{GridCoord, TerrainSpawner, in_bounds, in_square};
use crate::table::CoordSet;

verus! {

/// `c` lies in the footprint of one of the first `k` spawners and inside
/// `[lo, hi]`.
pub open spec fn covered_by(s: Seq<TerrainSpawner>, k: int, lo: GridCoord, hi: GridCoord, c: GridCoord) -> bool {
    &&& in_bounds(c, lo, hi)
    &&& exists|j: int| 0 <= j < k && #[trigger] in_square(c, s[j].coord, s[j].radius as int)
}

/// The coordinates that the spawners `s` demand within `[lo, hi]`.
pub open spec fn desired_set(s: Seq<TerrainSpawner>, lo: GridCoord, hi: GridCoord) -> Set<GridCoord> {
    Set::new(|c: GridCoord| covered_by(s, s.len() as int, lo, hi, c))
}

spec fn scan_set(
    s: Seq<TerrainSpawner>,
    k: int,
    lo: GridCoord,
    hi: GridCoord,
    y: int,
    x: int,
) -> Set<GridCoord> {
    Set::new(
        |c: GridCoord|
            covered_by(s, k, lo, hi, c) || (in_bounds(c, lo, hi) && in_square(
                c,
                s[k].coord,
                s[k].radius as int,
            ) && (c.y < y || (c.y == y && c.x < x))),
    )
}

fn max_i64(a: i64, b: i64) -> (r: i64)
    ensures
        r == if a >= b { a } else { b },
{
    if a >= b { a } else { b }
}

fn min_i64(a: i64, b: i64) -> (r: i64)
    ensures
        r == if a <= b { a } else { b },
{
    if a <= b { a } else { b }
}

/// The set of coordinates that the spawners demand, clipped to the inclusive
/// bounds `[lo, hi]`. Overlapping footprints count once; no spawners give the
/// empty set.
pub fn desired_tiles(spawners: &Vec<TerrainSpawner>, lo: GridCoord, hi: GridCoord) -> (r: CoordSet)
    ensures
        r.wf(),
        r@ == desired_set(spawners@, lo, hi),
{
    let mut out = CoordSet::new();
    let mut k: usize = 0;
    let ghost s = spawners@;
    assert(out@ =~= Set::new(|c: GridCoord| covered_by(s, 0, lo, hi, c)));
    while k < spawners.len()
        invariant
            s == spawners@,
            k <= s.len(),
            out.wf(),
            out@ == Set::new(|c: GridCoord| covered_by(s, k as int, lo, hi, c)),
        decreases s.len() - k,
    {
        let sp = spawners[k];
        let r = sp.radius as i64;
        let x0 = max_i64(sp.coord.x as i64 - r, lo.x as i64);
        let x1 = min_i64(sp.coord.x as i64 + r, hi.x as i64);
        let y0 = max_i64(sp.coord.y as i64 - r, lo.y as i64);
        let y1 = min_i64(sp.coord.y as i64 + r, hi.y as i64);
        let mut y: i64 = y0;
        assert(out@ =~= scan_set(s, k as int, lo, hi, y as int, x0 as int));
        while y <= y1
            invariant
                s == spawners@,
                k < s.len(),
                sp == s[k as int],
                out.wf(),
                x0 == if sp.coord.x - sp.radius >= lo.x { sp.coord.x - sp.radius } else { lo.x as int },
                x1 == if sp.coord.x + sp.radius <= hi.x { sp.coord.x + sp.radius } else { hi.x as int },
                y0 == if sp.coord.y - sp.radius >= lo.y { sp.coord.y - sp.radius } else { lo.y as int },
                y1 == if sp.coord.y + sp.radius <= hi.y { sp.coord.y + sp.radius } else { hi.y as int },
                y0 <= y <= y1 + 1 || (y == y0 && y0 > y1),
                out@ == scan_set(s, k as int, lo, hi, y as int, x0 as int),
            decreases y1 + 1 - y,
        {
            let mut x: i64 = x0;
            while x <= x1
                invariant
                    s == spawners@,
                    k < s.len(),
                    sp == s[k as int],
                    out.wf(),
                    x0 == if sp.coord.x - sp.radius >= lo.x { sp.coord.x - sp.radius } else { lo.x as int },
                    x1 == if sp.coord.x + sp.radius <= hi.x { sp.coord.x + sp.radius } else { hi.x as int },
                    y0 == if sp.coord.y - sp.radius >= lo.y { sp.coord.y - sp.radius } else { lo.y as int },
                    y1 == if sp.coord.y + sp.radius <= hi.y { sp.coord.y + sp.radius } else { hi.y as int },
                    y0 <= y <= y1,
                    x0 <= x <= x1 + 1 || (x == x0 && x0 > x1),
                    out@ == scan_set(s, k as int, lo, hi, y as int, x as int),
                decreases x1 + 1 - x,
            {
                let c = GridCoord { x: x as i32, y: y as i32 };
                out.insert(c);
                x = x + 1;
                assert(out@ =~= scan_set(s, k as int, lo, hi, y as int, x as int));
            }
            y = y + 1;
            assert(out@ =~= scan_set(s, k as int, lo, hi, y as int, x0 as int)) by {
                assert forall|c: GridCoord| #[trigger] out@.contains(c) == scan_set(s, k as int, lo, hi, y as int, x0 as int).contains(c) by {
                    if in_bounds(c, lo, hi) && in_square(c, sp.coord, sp.radius as int) && c.y == y - 1 {
                        assert(c.x < x);
                    }
                }
            }
        }
        k = k + 1;
        assert(out@ =~= Set::new(|c: GridCoord| covered_by(s, k as int, lo, hi, c))) by {
            assert forall|c: GridCoord| #[trigger] out@.contains(c) == covered_by(s, k as int, lo, hi, c) by {
                if covered_by(s, k as int, lo, hi, c) {
                    let j = choose|j: int| 0 <= j < k && #[trigger] in_square(c, s[j].coord, s[j].radius as int);
                    if j < k - 1 {
                        assert(covered_by(s, k - 1, lo, hi, c));
                    } else {
                        assert(c.y < y);
                    }
                }
                if out@.contains(c) && !covered_by(s, k - 1, lo, hi, c) {
                    assert(in_square(c, s[k - 1].coord, s[k - 1].radius as int));
                }
            }
        }
    }
    out
}

/// All coordinates within Chebyshev distance `radius` of `center`.
pub fn neighborhood(center: GridCoord, radius: u32) -> (r: CoordSet)
    ensures
        r.wf(),
        r@ == Set::new(|c: GridCoord| in_square(c, center, radius as int)),
{
    let lo = GridCoord { x: i32::MIN, y: i32::MIN };
    let hi = GridCoord { x: i32::MAX, y: i32::MAX };
    let one = TerrainSpawner { radius, coord: center };
    let v = vec![one];
    let r = desired_tiles(&v, lo, hi);
    proof {
        assert forall|c: GridCoord| #[trigger] r@.contains(c) <==> in_square(c, center, radius as int) by {
            if in_square(c, center, radius as int) {
                assert(in_square(c, v@[0].coord, v@[0].radius as int));
            }
        }
        assert(r@ =~= Set::new(|c: GridCoord| in_square(c, center, radius as int)));
    }
    r
}

} // verus!
