//! Triangulation of an `n × n` vertex grid, stored row by row: two triangles
//! per cell, `(i0, i2, i1)` and `(i1, i2, i3)` for the cell whose corners are
//! `i0` (origin), `i1` (next in the row), `i2` (next row) and `i3`, which keeps
//! flat tiles facing up.
use vstd::prelude::*;

verus! {

/// Index `j` (0 to 5) of the six that cell number `cell` contributes.
pub open spec fn cell_corner(n: int, cell: int, j: int) -> int {
    let z = cell / (n - 1);
    let x = cell % (n - 1);
    let i0 = z * n + x;
    let i1 = i0 + 1;
    let i2 = i0 + n;
    let i3 = i2 + 1;
    if j == 0 {
        i0
    } else if j == 1 {
        i2
    } else if j == 2 {
        i1
    } else if j == 3 {
        i1
    } else if j == 4 {
        i2
    } else {
        i3
    }
}

/// Entry `t` of the index buffer of an `n × n` grid.
pub open spec fn grid_index(n: int, t: int) -> int {
    cell_corner(n, t / 6, t % 6)
}

/// The triangle index buffer of an `n × n` vertex grid: six indices per
/// cell, cells in row order.
pub fn grid_indices(n: u32) -> (r: Vec<u32>)
    requires
        2 <= n <= 65536,
    ensures
        r@.len() == 6 * (n - 1) * (n - 1),
        forall|t: int| 0 <= t < r@.len() ==> #[trigger] r@[t] == grid_index(n as int, t),
{
    let mut r: Vec<u32> = Vec::new();
    let m = n - 1;
    let mut z: u32 = 0;
    while z < m
        invariant
            2 <= n <= 65536,
            m == n - 1,
            z <= m,
            r@.len() == 6 * (z * m),
            forall|t: int| 0 <= t < r@.len() ==> #[trigger] r@[t] == grid_index(n as int, t),
        decreases m - z,
    {
        let mut x: u32 = 0;
        while x < m
            invariant
                2 <= n <= 65536,
                m == n - 1,
                z < m,
                x <= m,
                r@.len() == 6 * (z * m + x),
                forall|t: int| 0 <= t < r@.len() ==> #[trigger] r@[t] == grid_index(n as int, t),
            decreases m - x,
        {
            assert(z * n + x + n + 1 < n * n) by (nonlinear_arith)
                requires
                    z < n - 1,
                    x < n - 1,
            ;
            assert(n * n <= 0x1_0000_0000) by (nonlinear_arith)
                requires
                    n <= 65536,
            ;
            let i0: u32 = z * n + x;
            let i1 = i0 + 1;
            let i2 = i0 + n;
            let i3 = i2 + 1;
            let ghost cell = z * m + x;
            let ghost base = r@.len() as int;
            proof {
                assert(base == 6 * cell);
                assert(cell / (m as int) == z && cell % (m as int) == x) by {
                    vstd::arithmetic::div_mod::lemma_fundamental_div_mod_converse(cell, m as int, z as int, x as int);
                }
                assert forall|j: int| 0 <= j < 6 implies #[trigger] grid_index(n as int, base + j) == cell_corner(n as int, cell, j) by {
                    vstd::arithmetic::div_mod::lemma_fundamental_div_mod_converse(base + j, 6, cell, j);
                }
            }
            r.push(i0);
            r.push(i2);
            r.push(i1);
            r.push(i1);
            r.push(i2);
            r.push(i3);
            proof {
                assert forall|t: int| 0 <= t < r@.len() implies #[trigger] r@[t] == grid_index(n as int, t) by {
                    if t >= base {
                        assert(grid_index(n as int, t) == cell_corner(n as int, cell, t - base));
                    }
                }
            }
            x = x + 1;
        }
        z = z + 1;
        assert(6 * ((z - 1) * m + m) == 6 * (z * m)) by (nonlinear_arith);
    }
    assert(6 * (m * m) == 6 * (n - 1) * (n - 1)) by (nonlinear_arith)
        requires
            m == n - 1,
    ;
    r
}

} // verus!
