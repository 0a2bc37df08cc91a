use crate::board::{blank_at, is_arrangement, is_solved, lemma_swapped_arrangement, lemma_swapped_blank, swapped};
use crate::grid::{adjacent, lemma_adjacent};
use crate::parity::{lemma_move_keeps_parity, lemma_solved_parity, parity_invariant};
use crate::tile::Tile;
use vstd::prelude::*;

verus! {

/// A puzzle state: the tiles and the position of the Missing tile.
pub type Position = (Seq<Tile>, int);

/// The state reached from `s` by moving the Missing tile to each position
/// of `ps` in turn.
pub open spec fn walk(s: Position, ps: Seq<usize>) -> Position
    decreases ps.len(),
{
    if ps.len() == 0 {
        s
    } else {
        let prev = walk(s, ps.drop_last());
        (swapped(prev.0, prev.1, ps.last() as int), ps.last() as int)
    }
}

/// Every move of `ps`, taken from `s` on a board of side `n`, goes to a
/// position adjacent to the Missing tile.
pub open spec fn legal_walk(n: int, s: Position, ps: Seq<usize>) -> bool
    decreases ps.len(),
{
    if ps.len() == 0 {
        true
    } else {
        legal_walk(n, s, ps.drop_last()) && adjacent(n, walk(s, ps.drop_last()).1, ps.last() as int)
    }
}

/// A state of a board of side `n` that is in play: an arrangement of the
/// home indices with a single Missing tile at the recorded position.
pub open(crate) spec fn valid_position(n: int, s: Position) -> bool {
    &&& n >= 2
    &&& s.0.len() == n * n
    &&& n * n <= usize::MAX
    &&& is_arrangement(s.0)
    &&& blank_at(s.0, s.1)
}

/// Some sequence of legal moves leads from `s` to the solved board.
pub open spec fn solvable_by_moves(n: int, s: Position) -> bool {
    exists|ps: Seq<usize>| legal_walk(n, s, ps) && #[trigger] is_solved(walk(s, ps).0)
}

/// A legal walk keeps the state in play and keeps the parity invariant.
pub proof fn lemma_walk_valid(n: int, s: Position, ps: Seq<usize>)
    requires
        valid_position(n, s),
        legal_walk(n, s, ps),
    ensures
        valid_position(n, walk(s, ps)),
        parity_invariant(n, walk(s, ps).0, walk(s, ps).1) == parity_invariant(n, s.0, s.1),
    decreases ps.len(),
{
    if ps.len() > 0 {
        let prev = walk(s, ps.drop_last());
        lemma_walk_valid(n, s, ps.drop_last());
        let p = ps.last() as int;
        lemma_adjacent(n, prev.1, p);
        lemma_swapped_arrangement(prev.0, prev.1, p);
        lemma_swapped_blank(prev.0, prev.1, p);
        lemma_move_keeps_parity(n, prev.0, prev.1, p);
    }
}

/// Walking `a` then `b` is walking `a + b`.
pub proof fn lemma_walk_append(n: int, s: Position, a: Seq<usize>, b: Seq<usize>)
    ensures
        walk(s, a + b) == walk(walk(s, a), b),
        legal_walk(n, s, a + b) == (legal_walk(n, s, a) && legal_walk(n, walk(s, a), b)),
    decreases b.len(),
{
    if b.len() == 0 {
        assert(a + b =~= a);
    } else {
        assert((a + b).drop_last() =~= a + b.drop_last());
        lemma_walk_append(n, s, a, b.drop_last());
    }
}

/// One legal move from `s` to `p`.
pub proof fn lemma_walk_one(n: int, s: Position, p: usize)
    ensures
        walk(s, seq![p]) == (swapped(s.0, s.1, p as int), p as int),
        legal_walk(n, s, seq![p]) == adjacent(n, s.1, p as int),
{
    assert(seq![p].drop_last() =~= Seq::<usize>::empty());
    assert(walk(s, Seq::<usize>::empty()) == s);
    assert(legal_walk(n, s, Seq::<usize>::empty()));
    assert(seq![p].last() == p);
}

/// A legal walk can be undone: some legal walk leads back to where it started.
pub proof fn lemma_walk_reverse(n: int, s: Position, ps: Seq<usize>) -> (back: Seq<usize>)
    requires
        valid_position(n, s),
        legal_walk(n, s, ps),
    ensures
        legal_walk(n, walk(s, ps), back),
        walk(walk(s, ps), back) == s,
    decreases ps.len(),
{
    if ps.len() == 0 {
        Seq::empty()
    } else {
        let prev = walk(s, ps.drop_last());
        let cur = walk(s, ps);
        lemma_walk_valid(n, s, ps.drop_last());
        let p = ps.last() as int;
        lemma_adjacent(n, prev.1, p);
        let rest = lemma_walk_reverse(n, s, ps.drop_last());
        assert(cur == (swapped(prev.0, prev.1, p), p));
        assert(prev.1 as usize as int == prev.1);
        let step = seq![prev.1 as usize];
        lemma_walk_one(n, cur, prev.1 as usize);
        assert(swapped(cur.0, p, prev.1) =~= prev.0);
        assert(walk(cur, step) == prev);
        lemma_walk_append(n, cur, step, rest);
        step + rest
    }
}

/// A state whose parity invariant is not zero cannot reach the solved board.
pub proof fn lemma_parity_blocks(n: int, s: Position)
    requires
        valid_position(n, s),
        parity_invariant(n, s.0, s.1) != 0,
    ensures
        !solvable_by_moves(n, s),
{
    if solvable_by_moves(n, s) {
        let ps = choose|ps: Seq<usize>| legal_walk(n, s, ps) && #[trigger] is_solved(walk(s, ps).0);
        lemma_walk_valid(n, s, ps);
        lemma_solved_parity(n, walk(s, ps).0, walk(s, ps).1);
    }
}

} // verus!
