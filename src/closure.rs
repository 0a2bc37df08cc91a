use crate::board::{is_solved, swapped};
use crate::grid::adjacent;
use crate::keys::{key_of, lemma_key_injective};
use crate::moves::{lemma_walk_valid, legal_walk, solvable_by_moves, valid_position, walk, Position};
use vstd::prelude::*;

verus! {

/// The state reached from `s` by moving the Missing tile to `p`.
pub open spec fn step(s: Position, p: int) -> Position {
    (swapped(s.0, s.1, p), p)
}

/// Every legal move from a state whose key is in `v` leads to a state
/// whose key is in `v`.
pub open(crate) spec fn closed_under_moves(n: int, v: Set<Seq<usize>>) -> bool {
    forall|s: Position, p: int|
        valid_position(n, s) && #[trigger] v.contains(key_of(s)) && #[trigger] adjacent(n, s.1, p)
            ==> v.contains(key_of(step(s, p)))
}

/// Each key in `v` is the key of a state in play that is not solved.
pub open(crate) spec fn keys_unsolved(n: int, v: Set<Seq<usize>>) -> bool {
    forall|k: Seq<usize>|
        #[trigger] v.contains(k) ==> exists|s: Position| valid_position(n, s) && key_of(s) == k && !is_solved(s.0)
}

/// A legal walk from a state in a closed set stays in the set.
proof fn lemma_walk_in_set(n: int, v: Set<Seq<usize>>, start: Position, ps: Seq<usize>)
    requires
        valid_position(n, start),
        v.contains(key_of(start)),
        closed_under_moves(n, v),
        legal_walk(n, start, ps),
    ensures
        valid_position(n, walk(start, ps)),
        v.contains(key_of(walk(start, ps))),
    decreases ps.len(),
{
    lemma_walk_valid(n, start, ps);
    if ps.len() > 0 {
        lemma_walk_in_set(n, v, start, ps.drop_last());
        let prev = walk(start, ps.drop_last());
        let p = ps.last() as int;
        assert(adjacent(n, prev.1, p));
        assert(v.contains(key_of(step(prev, p))));
        assert(walk(start, ps) == step(prev, p));
    }
}

/// When the keys of a search hold the start, are closed under legal
/// moves, and belong to unsolved states, the start cannot reach the solved board.
pub proof fn lemma_closed_no_solution(n: int, v: Set<Seq<usize>>, start: Position)
    requires
        valid_position(n, start),
        v.contains(key_of(start)),
        closed_under_moves(n, v),
        keys_unsolved(n, v),
    ensures
        !solvable_by_moves(n, start),
{
    if solvable_by_moves(n, start) {
        let ps = choose|ps: Seq<usize>| legal_walk(n, start, ps) && #[trigger] is_solved(walk(start, ps).0);
        lemma_walk_in_set(n, v, start, ps);
        let s = walk(start, ps);
        let s2 = choose|s2: Position| valid_position(n, s2) && key_of(s2) == key_of(s) && !is_solved(s2.0);
        lemma_key_injective(n, s, s2);
    }
}

} // verus!
