use vstd::arithmetic::div_mod::{
    lemma_fundamental_div_mod, lemma_fundamental_div_mod_converse, lemma_mod_bound,
};
use vstd::prelude::*;

verus! {

/// Row of position `i` on a board of side `n` (positions are row-major).
pub open spec fn row_of(n: int, i: int) -> int {
    i / n
}

/// Column of position `i` on a board of side `n`.
pub open spec fn col_of(n: int, i: int) -> int {
    i % n
}

/// `p` lies one orthogonal step from `m` on a board of side `n`:
/// left, right, above or below, never across an edge.
pub open spec fn adjacent(n: int, m: int, p: int) -> bool {
    &&& 0 <= m < n * n
    &&& {
        ||| (p == m - 1 && col_of(n, m) > 0)
        ||| (p == m + 1 && col_of(n, m) < n - 1)
        ||| (p == m - n && row_of(n, m) > 0)
        ||| (p == m + n && row_of(n, m) < n - 1)
    }
}

/// The positions adjacent to `m`, in the order left, right, above, below.
pub open spec fn neighbor_list(n: int, m: int) -> Seq<usize> {
    (if col_of(n, m) > 0 {
        seq![(m - 1) as usize]
    } else {
        Seq::empty()
    }) + (if col_of(n, m) < n - 1 {
        seq![(m + 1) as usize]
    } else {
        Seq::empty()
    }) + (if row_of(n, m) > 0 {
        seq![(m - n) as usize]
    } else {
        Seq::empty()
    }) + (if row_of(n, m) < n - 1 {
        seq![(m + n) as usize]
    } else {
        Seq::empty()
    })
}

/// Splits a position into row and column.
pub proof fn lemma_row_col(n: int, m: int)
    requires
        n >= 1,
        0 <= m < n * n,
    ensures
        m == row_of(n, m) * n + col_of(n, m),
        0 <= col_of(n, m) < n,
        0 <= row_of(n, m) < n,
{
    lemma_fundamental_div_mod(m, n);
    lemma_mod_bound(m, n);
    let q = m / n;
    let r = m % n;
    assert(q >= 0) by (nonlinear_arith)
        requires
            m == n * q + r,
            0 <= r < n,
            m >= 0,
    ;
    assert(q < n) by (nonlinear_arith)
        requires
            m == n * q + r,
            0 <= r < n,
            m < n * n,
    ;
    assert(m == q * n + r) by (nonlinear_arith)
        requires
            m == n * q + r,
    ;
}

/// A step stays on the board, can be taken back, and moves along a row
/// (horizontal step) or to the next row above or below (vertical step).
pub proof fn lemma_adjacent(n: int, m: int, p: int)
    requires
        n >= 2,
        adjacent(n, m, p),
    ensures
        0 <= p < n * n,
        adjacent(n, p, m),
        p == m - 1 || p == m + 1 || p == m - n || p == m + n,
        p == m - 1 || p == m + 1 ==> row_of(n, p) == row_of(n, m),
        p == m - n ==> row_of(n, p) + 1 == row_of(n, m),
        p == m + n ==> row_of(n, p) == row_of(n, m) + 1,
{
    lemma_row_col(n, m);
    let q = row_of(n, m);
    let r = col_of(n, m);
    assert(q * n + r < n * n) by (nonlinear_arith)
        requires
            0 <= q < n,
            0 <= r < n,
            q * n + r < n * n,
    ;
    if p == m - 1 && r > 0 {
        lemma_fundamental_div_mod_converse(p, n, q, r - 1);
    } else if p == m + 1 && r < n - 1 {
        lemma_fundamental_div_mod_converse(p, n, q, r + 1);
        assert(p < n * n) by (nonlinear_arith)
            requires
                p == q * n + r + 1,
                0 <= q < n,
                r + 1 < n,
        ;
    } else if p == m - n && q > 0 {
        assert(p == (q - 1) * n + r) by (nonlinear_arith)
            requires
                m == q * n + r,
                p == m - n,
        ;
        lemma_fundamental_div_mod_converse(p, n, q - 1, r);
        assert(p >= 0) by (nonlinear_arith)
            requires
                p == (q - 1) * n + r,
                q >= 1,
                r >= 0,
                n >= 0,
        ;
    } else {
        assert(p == (q + 1) * n + r) by (nonlinear_arith)
            requires
                m == q * n + r,
                p == m + n,
        ;
        lemma_fundamental_div_mod_converse(p, n, q + 1, r);
        assert(p < n * n) by (nonlinear_arith)
            requires
                p == (q + 1) * n + r,
                q < n - 1,
                0 <= r < n,
        ;
        assert(p >= 0) by (nonlinear_arith)
            requires
                p == (q + 1) * n + r,
                q >= 0,
                r >= 0,
                n >= 0,
        ;
    }
}

} // verus!
