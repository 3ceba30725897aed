//! Triangle index lists of the meshes: a quad, a fan around a centre vertex, and the nine quads
//! of a four by four vertex grid. The vertex positions themselves are float geometry and are
//! made by the caller in the matching order.
use vstd::prelude::*;

verus! {

/// The quad's two triangles over its corners top-left, top-right, bottom-right, bottom-left.
pub fn quad_indices() -> (r: Vec<u32>)
    ensures
        r@ == seq![0u32, 1, 2, 0, 2, 3],
{
    let r = vec![0u32, 1, 2, 0, 2, 3];
    proof {
        assert(r@ =~= seq![0u32, 1, 2, 0, 2, 3]);
    }
    r
}

/// Triangle `t` of a fan over `n` vertices (0 the centre, `1..n` the rim in order): the centre,
/// rim vertex `t + 1` and the next rim vertex, wrapping from the last back to 1.
pub open spec fn fan_corner(n: int, t: int, c: int) -> int {
    if c == 0 {
        0
    } else if c == 1 {
        t + 1
    } else if t + 2 < n {
        t + 2
    } else {
        1
    }
}

/// The triangles of a fan over `n` vertices (see `fan_corner`): `n - 1` of them.
pub fn fan_indices(n: u32) -> (r: Vec<u32>)
    requires
        n >= 1,
        3 * (n - 1) <= usize::MAX,
    ensures
        r@.len() == 3 * (n - 1),
        forall|p: int| 0 <= p < r@.len() ==> r@[p] as int == #[trigger] fan_corner(n as int, p / 3, p % 3),
{
    let mut r: Vec<u32> = Vec::new();
    let mut i: u32 = 1;
    while i < n
        invariant
            1 <= i <= n,
            r@.len() == 3 * (i - 1),
            forall|p: int| 0 <= p < r@.len() ==> r@[p] as int == #[trigger] fan_corner(n as int, p / 3, p % 3),
        decreases n - i,
    {
        let next = if i + 1 < n { i + 1 } else { 1 };
        let ghost r0 = r@;
        r.push(0);
        r.push(i);
        r.push(next);
        proof {
            let b = 3 * (i - 1);
            assert forall|p: int| 0 <= p < r@.len() implies r@[p] as int == #[trigger] fan_corner(n as int, p / 3, p % 3) by {
                if p < b {
                    assert(r@[p] == r0[p]);
                } else {
                    assert(p / 3 == i - 1 && p % 3 == p - b) by (nonlinear_arith)
                        requires b == 3 * (i - 1), b <= p < b + 3;
                }
            }
        }
        i = i + 1;
    }
    r
}

/// Corner `c` (0..6) of the two triangles of grid quad `q` (row `q / 3`, column `q % 3`) over a
/// row-major four by four vertex grid: bottom-left, top-left, top-right, then top-right,
/// bottom-right, bottom-left.
pub open spec fn grid_corner(q: int, c: int) -> int {
    let b = 4 * (q / 3) + q % 3;
    if c == 0 {
        b + 4
    } else if c == 1 {
        b
    } else if c == 2 {
        b + 1
    } else if c == 3 {
        b + 1
    } else if c == 4 {
        b + 5
    } else {
        b + 4
    }
}

/// The nine quads of a four by four vertex grid (see `grid_corner`), row by row.
pub fn nine_grid_indices() -> (r: Vec<u32>)
    ensures
        r@.len() == 54,
        forall|p: int| 0 <= p < 54 ==> r@[p] as int == #[trigger] grid_corner(p / 6, p % 6),
{
    let mut r: Vec<u32> = Vec::new();
    let mut row: u32 = 0;
    while row < 3
        invariant
            row <= 3,
            r@.len() == 18 * row,
            forall|p: int| 0 <= p < r@.len() ==> r@[p] as int == #[trigger] grid_corner(p / 6, p % 6),
        decreases 3 - row,
    {
        let mut col: u32 = 0;
        while col < 3
            invariant
                row < 3,
                col <= 3,
                r@.len() == 18 * row + 6 * col,
                forall|p: int| 0 <= p < r@.len() ==> r@[p] as int == #[trigger] grid_corner(p / 6, p % 6),
            decreases 3 - col,
        {
            let b: u32 = 4 * row + col;
            let ghost r0 = r@;
            r.push(b + 4);
            r.push(b);
            r.push(b + 1);
            r.push(b + 1);
            r.push(b + 5);
            r.push(b + 4);
            proof {
                let s = 18 * row + 6 * col;
                let q = 3 * row + col;
                assert forall|p: int| 0 <= p < r@.len() implies r@[p] as int == #[trigger] grid_corner(p / 6, p % 6) by {
                    if p < s {
                        assert(r@[p] == r0[p]);
                    } else {
                        assert(p / 6 == q && p % 6 == p - s) by (nonlinear_arith)
                            requires s == 6 * q, s <= p < s + 6;
                        assert(q / 3 == row && q % 3 == col) by (nonlinear_arith)
                            requires q == 3 * row + col, col < 3;
                    }
                }
            }
            col = col + 1;
        }
        row = row + 1;
    }
    r
}

} // verus!
