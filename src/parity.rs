use crate::board::{blank_at, is_arrangement, is_solved, swapped, NBoard};
use crate::grid::{adjacent, lemma_adjacent, lemma_row_col, row_of};
use crate::tile::{Tile, TileType};
use vstd::prelude::*;

verus! {

/// Number of in-play tiles of `s` whose home index is below `x`.
pub open(crate) spec fn count_below(x: nat, s: Seq<Tile>) -> nat
    decreases s.len(),
{
    if s.len() == 0 {
        0
    } else {
        (if s[0].tile_type == TileType::InPlay && (s[0].index as nat) < x {
            1nat
        } else {
            0nat
        }) + count_below(x, s.drop_first())
    }
}

/// What the first tile of `s` adds to the inversions: the in-play tiles after
/// it with a lower home index, or nothing if it is Missing.
pub open(crate) spec fn head_inversions(s: Seq<Tile>) -> nat
    recommends
        s.len() > 0,
{
    if s[0].tile_type == TileType::InPlay {
        count_below(s[0].index as nat, s.drop_first())
    } else {
        0
    }
}

/// Number of pairs of positions i < j, both tiles in play, whose home
/// indices are out of order.
pub open(crate) spec fn inversions(s: Seq<Tile>) -> nat
    decreases s.len(),
{
    if s.len() == 0 {
        0
    } else {
        head_inversions(s) + inversions(s.drop_first())
    }
}

/// The classical solvability rule for a board of side `n` whose Missing tile
/// is at `m`: with n odd, the inversions are even; with n even, the inversions
/// are even exactly when the Missing tile is an even number of rows from its
/// home row.
pub open(crate) spec fn parity_rule(n: int, t: Seq<Tile>, m: int) -> bool {
    if n % 2 == 1 {
        inversions(t) % 2 == 0
    } else {
        (inversions(t) % 2 == 0) == ((row_of(n, m) - row_of(n, t[m].index as int)) % 2 == 0)
    }
}

/// What a legal move keeps: the parity of the inversions plus n - 1 times
/// the rows of the Missing tile's position and home.
pub open(crate) spec fn parity_invariant(n: int, t: Seq<Tile>, m: int) -> int {
    (inversions(t) + (n - 1) * (row_of(n, m) + row_of(n, t[m].index as int))) % 2
}

proof fn lemma_count_below_bound(x: nat, s: Seq<Tile>)
    ensures
        count_below(x, s) <= s.len(),
    decreases s.len(),
{
    if s.len() > 0 {
        lemma_count_below_bound(x, s.drop_first());
    }
}

proof fn lemma_inversions_bound(s: Seq<Tile>)
    ensures
        inversions(s) <= s.len() * s.len(),
    decreases s.len(),
{
    if s.len() > 0 {
        lemma_inversions_bound(s.drop_first());
        lemma_count_below_bound(s[0].index as nat, s.drop_first());
        let k = s.len() - 1;
        assert(k * k + k + 1 <= s.len() * s.len()) by (nonlinear_arith)
            requires
                k + 1 == s.len(),
                k >= 0,
        ;
    }
}

/// Exchanging two neighbouring entries does not change how many are below `x`.
proof fn lemma_count_below_swap(x: nat, s: Seq<Tile>, p: int)
    requires
        0 <= p,
        p + 1 < s.len(),
    ensures
        count_below(x, swapped(s, p, p + 1)) == count_below(x, s),
    decreases s.len(),
{
    let s2 = swapped(s, p, p + 1);
    if p == 0 {
        let u = s.subrange(2, s.len() as int);
        assert(s.drop_first().drop_first() =~= u);
        assert(s2.drop_first().drop_first() =~= u);
        assert(count_below(x, s.drop_first()) == (if s[1].tile_type == TileType::InPlay
            && (s[1].index as nat) < x {
            1nat
        } else {
            0nat
        }) + count_below(x, u));
        assert(count_below(x, s2.drop_first()) == (if s2[1].tile_type == TileType::InPlay
            && (s2[1].index as nat) < x {
            1nat
        } else {
            0nat
        }) + count_below(x, u));
    } else {
        lemma_count_below_swap(x, s.drop_first(), p - 1);
        assert(s2.drop_first() =~= swapped(s.drop_first(), p - 1, p));
    }
}

/// Exchanging neighbouring entries at `p`, `p + 1`: the inversions stay the
/// same when one of the two tiles is Missing, and change by exactly one when
/// both are in play with different home indices.
proof fn lemma_inversions_adjacent_swap(s: Seq<Tile>, p: int)
    requires
        0 <= p,
        p + 1 < s.len(),
        s[p].tile_type == TileType::Missing || s[p + 1].tile_type == TileType::Missing || s[p].index
            != s[p + 1].index,
    ensures
        ({
            let s2 = swapped(s, p, p + 1);
            if s[p].tile_type == TileType::Missing || s[p + 1].tile_type == TileType::Missing {
                inversions(s2) == inversions(s)
            } else {
                inversions(s2) == inversions(s) + 1 || inversions(s2) + 1 == inversions(s)
            }
        }),
    decreases s.len(),
{
    let s2 = swapped(s, p, p + 1);
    if p == 0 {
        let u = s.subrange(2, s.len() as int);
        assert(s.drop_first().drop_first() =~= u);
        assert(s2.drop_first().drop_first() =~= u);
        assert(inversions(s.drop_first()) == head_inversions(s.drop_first()) + inversions(u));
        assert(inversions(s2.drop_first()) == head_inversions(s2.drop_first()) + inversions(u));
        assert(count_below(s[0].index as nat, s.drop_first()) == (if s[1].tile_type
            == TileType::InPlay && (s[1].index as nat) < (s[0].index as nat) {
            1nat
        } else {
            0nat
        }) + count_below(s[0].index as nat, u));
        assert(count_below(s[1].index as nat, s2.drop_first()) == (if s[0].tile_type
            == TileType::InPlay && (s[0].index as nat) < (s[1].index as nat) {
            1nat
        } else {
            0nat
        }) + count_below(s[1].index as nat, u));
    } else {
        lemma_inversions_adjacent_swap(s.drop_first(), p - 1);
        assert(s2.drop_first() =~= swapped(s.drop_first(), p - 1, p));
        lemma_count_below_swap(s[0].index as nat, s.drop_first(), p - 1);
    }
}

/// Moving the Missing tile from `m` to `m + d` over d - 1 tiles in play
/// changes the parity of the inversions by d - 1.
proof fn lemma_inversions_blank_jump(s: Seq<Tile>, m: int, d: int)
    requires
        is_arrangement(s),
        blank_at(s, m),
        d >= 1,
        m + d < s.len(),
    ensures
        (inversions(swapped(s, m, m + d)) + d - 1 + inversions(s)) % 2 == 0,
    decreases d,
{
    if d == 1 {
        lemma_inversions_adjacent_swap(s, m);
    } else {
        let s1 = swapped(s, m, m + 1);
        lemma_inversions_adjacent_swap(s, m);
        crate::board::lemma_swapped_arrangement(s, m, m + 1);
        crate::board::lemma_swapped_blank(s, m, m + 1);
        lemma_inversions_blank_jump(s1, m + 1, d - 1);
        let s3 = swapped(s1, m + 1, m + d);
        crate::board::lemma_swapped_arrangement(s1, m + 1, m + d);
        assert(s3[m].tile_type == TileType::InPlay && s3[m + 1].tile_type == TileType::InPlay) by {
            crate::board::lemma_swapped_blank(s1, m + 1, m + d);
        }
        lemma_inversions_adjacent_swap(s3, m);
        assert(swapped(s3, m, m + 1) =~= swapped(s, m, m + d));
    }
}

/// A legal move keeps the parity invariant.
pub proof fn lemma_move_keeps_parity(n: int, t: Seq<Tile>, m: int, p: int)
    requires
        n >= 2,
        t.len() == n * n,
        is_arrangement(t),
        blank_at(t, m),
        adjacent(n, m, p),
    ensures
        parity_invariant(n, swapped(t, m, p), p) == parity_invariant(n, t, m),
{
    lemma_adjacent(n, m, p);
    let t2 = swapped(t, m, p);
    assert(t2[p] == t[m]);
    let h = row_of(n, t[m].index as int);
    if p == m + 1 {
        lemma_inversions_adjacent_swap(t, m);
    } else if p == m - 1 {
        lemma_inversions_adjacent_swap(t, p);
        assert(swapped(t, p, m) =~= t2);
    } else if p == m + n {
        lemma_inversions_blank_jump(t, m, n);
        let a = inversions(t) as int;
        let b = inversions(t2) as int;
        let r = row_of(n, m);
        assert((b + (n - 1) * (r + 1 + h)) % 2 == (a + (n - 1) * (r + h)) % 2) by (nonlinear_arith)
            requires
                (b + n - 1 + a) % 2 == 0,
        ;
    } else {
        crate::board::lemma_swapped_arrangement(t, m, p);
        crate::board::lemma_swapped_blank(t, m, p);
        lemma_inversions_blank_jump(t2, p, n);
        assert(swapped(t2, p, m) =~= t);
        let a = inversions(t) as int;
        let b = inversions(t2) as int;
        let r = row_of(n, p);
        assert((b + (n - 1) * (r + h)) % 2 == (a + (n - 1) * (r + 1 + h)) % 2) by (nonlinear_arith)
            requires
                (a + n - 1 + b) % 2 == 0,
        ;
    }
}

/// On a solved board no two in-play tiles are out of order.
proof fn lemma_solved_no_inversions(s: Seq<Tile>, base: int)
    requires
        forall|i: int| 0 <= i < s.len() ==> (#[trigger] s[i]).index == base + i,
    ensures
        inversions(s) == 0,
    decreases s.len(),
{
    if s.len() > 0 {
        lemma_solved_no_inversions(s.drop_first(), base + 1);
        lemma_count_below_none(s[0].index as nat, s.drop_first());
    }
}

proof fn lemma_count_below_none(x: nat, s: Seq<Tile>)
    requires
        forall|i: int| 0 <= i < s.len() ==> (#[trigger] s[i]).index >= x,
    ensures
        count_below(x, s) == 0,
    decreases s.len(),
{
    if s.len() > 0 {
        lemma_count_below_none(x, s.drop_first());
    }
}

/// A solved board meets the parity rule and has parity invariant zero.
pub proof fn lemma_solved_parity(n: int, t: Seq<Tile>, m: int)
    requires
        n >= 2,
        t.len() == n * n,
        is_solved(t),
        0 <= m < t.len(),
    ensures
        parity_invariant(n, t, m) == 0,
        parity_rule(n, t, m),
{
    lemma_solved_no_inversions(t, 0);
    let r = row_of(n, m);
    assert(t[m].index == m);
    let w = (n - 1) * r;
    assert((n - 1) * (r + r) == 2 * w) by (nonlinear_arith)
        requires
            w == (n - 1) * r,
    ;
    assert((r - r) % 2 == 0);
}

/// The parity rule holds exactly when the parity invariant is zero.
pub proof fn lemma_rule_is_invariant(n: int, t: Seq<Tile>, m: int)
    requires
        n >= 2,
        0 <= m < t.len(),
    ensures
        parity_rule(n, t, m) == (parity_invariant(n, t, m) == 0),
{
    let a = inversions(t) as int;
    let r = row_of(n, m);
    let h = row_of(n, t[m].index as int);
    let q = (n - 1) / 2;
    let w = q * (r + h);
    if n % 2 == 1 {
        assert(n - 1 == 2 * q);
        assert((n - 1) * (r + h) == 2 * w) by (nonlinear_arith)
            requires
                n - 1 == 2 * q,
                w == q * (r + h),
        ;
    } else {
        assert(n - 1 == 2 * q + 1);
        assert((n - 1) * (r + h) == 2 * w + r + h) by (nonlinear_arith)
            requires
                n - 1 == 2 * q + 1,
                w == q * (r + h),
        ;
    }
}

/// True iff `x` is even.
fn is_even(x: u128) -> (r: bool)
    ensures
        r == (x % 2 == 0),
{
    x % 2 == 0
}

impl NBoard {
    /// True iff neither tile is Missing.
    fn neither_are_missing(t1: &Tile, t2: &Tile) -> (r: bool)
        ensures
            r == (t1.tile_type == TileType::InPlay && t2.tile_type == TileType::InPlay),
    {
        (t1.tile_type != TileType::Missing) && (t2.tile_type != TileType::Missing)
    }

    /// Row of position `index` on a board of side `n`.
    fn get_row_from_index(index: usize, n: usize) -> (r: usize)
        requires
            n > 0,
        ensures
            r == row_of(n as int, index as int),
    {
        index / n
    }

    /// Number of pairs of in-play tiles whose home indices are out of order.
    fn count_inversions(board: &Vec<Tile>) -> (r: u128)
        ensures
            r == inversions(board@),
    {
        let len = board.len();
        let mut count: u128 = 0;
        let mut i: usize = len;
        while i > 0
            invariant
                i <= len,
                len == board@.len(),
                count == inversions(board@.subrange(i as int, len as int)),
            decreases i,
        {
            i -= 1;
            let mut c: u128 = 0;
            let mut j: usize = len;
            while j > i + 1
                invariant
                    i + 1 <= j <= len,
                    len == board@.len(),
                    c == (if board@[i as int].tile_type == TileType::InPlay {
                        count_below(board@[i as int].index as nat, board@.subrange(j as int, len as int))
                    } else {
                        0
                    }),
                    c <= len - j,
                decreases j,
            {
                j -= 1;
                let rest = Ghost(board@.subrange(j as int, len as int));
                assert(rest@.drop_first() =~= board@.subrange(j + 1, len as int));
                if Self::neither_are_missing(&board[i], &board[j]) && board[i].index > board[j].index {
                    c += 1;
                }
            }
            let suffix = Ghost(board@.subrange(i as int, len as int));
            assert(suffix@.drop_first() =~= board@.subrange(i + 1, len as int));
            proof {
                lemma_inversions_bound(board@.subrange(i + 1, len as int));
                assert((len - i - 1) * (len - i - 1) + len <= len * len) by (nonlinear_arith)
                    requires
                        i < len,
                ;
                assert(len * len <= 0xffff_ffff_ffff_ffffu128 * 0xffff_ffff_ffff_ffffu128)
                    by (nonlinear_arith)
                    requires
                        len <= 0xffff_ffff_ffff_ffffu128,
                ;
            }
            count += c;
        }
        assert(board@.subrange(0, len as int) =~= board@);
        count
    }

    /// The parity rule on the tiles of a board of side `n` whose Missing
    /// tile is at `missing_index`.
    pub(crate) fn is_solvable(board: &Vec<Tile>, missing_index: usize, n: usize) -> (r: bool)
        requires
            n >= 2,
            missing_index < board@.len(),
            board@.len() == n * n,
            is_arrangement(board@),
        ensures
            r == parity_rule(n as int, board@, missing_index as int),
    {
        let inversion_count = Self::count_inversions(board);
        if n % 2 == 1 {
            is_even(inversion_count)
        } else {
            proof {
                lemma_row_col(n as int, missing_index as int);
                lemma_row_col(n as int, board@[missing_index as int].index as int);
            }
            let row = Self::get_row_from_index(missing_index, n);
            let home_row = Self::get_row_from_index(board[missing_index].index, n);
            let distance = if row >= home_row {
                row - home_row
            } else {
                home_row - row
            };
            assert(((row - home_row) % 2 == 0) == (distance % 2 == 0));
            is_even(inversion_count) == is_even(distance as u128)
        }
    }
}

} // verus!
