use crate::board::{blank_at, is_arrangement, is_solved, swapped, NBoard};
use crate::dfs::{forward_path, lemma_reverse_path, one_move, solution_path};
use crate::generate::{reachable_from_solved, solved_with_blank};
use crate::moves::{
    lemma_parity_blocks, lemma_walk_reverse, lemma_walk_valid, legal_walk, solvable_by_moves,
    valid_position, walk, Position,
};
use crate::parity::{lemma_rule_is_invariant, lemma_solved_parity, parity_rule};
use crate::tile::{Tile, TileType};
use vstd::prelude::*;
use vstd::set_lib::{lemma_int_range, lemma_map_size, lemma_subset_equality, set_int_range};

verus! {

/// The moves of a path of boards: where the Missing tile goes at each step.
pub open(crate) spec fn path_moves(path: Seq<NBoard>) -> Seq<usize> {
    Seq::new((path.len() - 1) as nat, |i: int| path[i + 1].blank() as usize)
}

/// The first `k` steps of a path of boards are a legal walk from its start.
proof fn lemma_path_prefix(start: NBoard, path: Seq<NBoard>, k: int)
    requires
        path.len() >= 1,
        path[0].same(&start),
        forall|i: int| 0 <= i < path.len() - 1 ==> one_move(#[trigger] path[i], path[i + 1]),
        0 <= k < path.len(),
    ensures
        legal_walk(start.side() as int, start.position(), path_moves(path).take(k)),
        walk(start.position(), path_moves(path).take(k)) == path[k].position(),
        path[k].side() == start.side(),
    decreases k,
{
    let ms = path_moves(path);
    if k == 0 {
        assert(ms.take(0) =~= Seq::<usize>::empty());
    } else {
        lemma_path_prefix(start, path, k - 1);
        assert(ms.take(k).drop_last() =~= ms.take(k - 1));
        assert(one_move(path[k - 1], path[k]));
        assert(ms.take(k).last() == path[k].blank() as usize);
    }
}

/// A solution path shows that its starting board can reach the solved board.
pub proof fn lemma_solution_path_solvable(start: NBoard, path: Seq<NBoard>)
    requires
        solution_path(start, path),
    ensures
        solvable_by_moves(start.side() as int, start.position()),
{
    lemma_reverse_path(start, path);
    lemma_forward_path_solvable(start, path.reverse());
}

/// A path from `start` to a solved board shows that `start` can reach it.
proof fn lemma_forward_path_solvable(start: NBoard, path: Seq<NBoard>)
    requires
        forward_path(start, path),
    ensures
        solvable_by_moves(start.side() as int, start.position()),
{
    let k = path.len() - 1;
    lemma_path_prefix(start, path, k);
    let ps = path_moves(path).take(k);
    assert(is_solved(walk(start.position(), ps).0));
}

/// A board in play that breaks the parity rule cannot reach the solved board.
pub proof fn lemma_parity_violation_unsolvable(b: NBoard)
    requires
        b.in_play(),
        !parity_rule(b.side() as int, b.tiles(), b.blank()),
    ensures
        !solvable_by_moves(b.side() as int, b.position()),
{
    lemma_rule_is_invariant(b.side() as int, b.tiles(), b.blank());
    lemma_parity_blocks(b.side() as int, b.position());
}

/// Every board that legal moves reach from a solved board can get back to
/// the solved board, and meets the parity rule.
pub proof fn lemma_generated_solvable(b: NBoard)
    requires
        b.in_play(),
        reachable_from_solved(b.side() as int, b.position()),
    ensures
        solvable_by_moves(b.side() as int, b.position()),
        parity_rule(b.side() as int, b.tiles(), b.blank()),
{
    let n = b.side() as int;
    let (m, ps) = choose|m: int, ps: Seq<usize>|
        0 <= m < n * n && legal_walk(n, (solved_with_blank((n * n) as nat, m), m), ps)
            && #[trigger] walk((solved_with_blank((n * n) as nat, m), m), ps) == b.position();
    let s: Position = (solved_with_blank((n * n) as nat, m), m);
    assert(is_arrangement(s.0)) by {
        assert forall|i: int, j: int| 0 <= i < s.0.len() && 0 <= j < s.0.len() && i != j implies s.0[i].index
            != s.0[j].index by {}
    }
    assert(valid_position(n, s));
    let back = lemma_walk_reverse(n, s, ps);
    assert(is_solved(s.0));
    assert(is_solved(walk(b.position(), back).0));
    lemma_walk_valid(n, s, ps);
    lemma_solved_parity(n, s.0, s.1);
    lemma_rule_is_invariant(n, b.tiles(), b.blank());
}

/// Some tile of `t` has home index `v`.
pub open(crate) spec fn home_present(t: Seq<Tile>, v: int) -> bool {
    exists|i: int| 0 <= i < t.len() && t[i].index == v
}

/// On a board in play exactly one tile is Missing, the one at the missing
/// index, and every home index 0 .. n * n - 1 is held by exactly one tile.
pub proof fn lemma_in_play_tiles(b: NBoard)
    requires
        b.in_play(),
    ensures
        forall|i: int|
            0 <= i < b.tiles().len() ==> ((#[trigger] b.tiles()[i]).kind() == TileType::Missing <==> i
                == b.blank()),
        forall|v: int|
            0 <= v < b.side() * b.side() ==> #[trigger] home_present(b.tiles(), v),
        forall|i: int, j: int|
            0 <= i < b.tiles().len() && 0 <= j < b.tiles().len() && #[trigger] b.tiles()[i].home() == #[trigger] b.tiles()[j].home()
                ==> i == j,
{
    let t = b.tiles();
    let len = t.len() as int;
    let positions = set_int_range(0, len);
    let f = |i: int| t[i].index as int;
    let homes = positions.map(f);
    lemma_int_range(0, len);
    assert(vstd::relations::injective_on(f, positions));
    lemma_map_size(positions, homes, f);
    assert(homes.subset_of(positions));
    lemma_subset_equality(homes, positions);
    assert forall|v: int| 0 <= v < b.side() * b.side() implies #[trigger] home_present(t, v) by {
        assert(positions.contains(v));
        assert(homes.contains(v));
    }
}

/// A board in play is well formed, its side is at least 2, it has n * n
/// tiles, and its missing index is a position on it.
pub proof fn lemma_in_play_bounds(b: NBoard)
    requires
        b.in_play(),
    ensures
        b.wf(),
        b.side() >= 2,
        b.tiles().len() == b.side() * b.side(),
        0 <= b.blank() < b.tiles().len(),
{
}

/// Moving the Missing tile to `p` and then back to where it was restores the tiles.
pub proof fn lemma_swap_round_trip(t: Seq<Tile>, m: int, p: int)
    requires
        0 <= m < t.len(),
        0 <= p < t.len(),
    ensures
        swapped(swapped(t, m, p), p, m) == t,
{
    assert(swapped(swapped(t, m, p), p, m) =~= t);
}

impl NBoard {
    /// Whether this board can reach the solved board. A solved board is
    /// solvable; on boards of side 2 or 3 the answer comes from A* search; on
    /// larger boards from the parity rule.
    pub fn solvable(&self) -> (r: bool)
        requires
            self.wf(),
        ensures
            self.tiles().len() > 0 && self.is_won() ==> r,
            self.side() <= 3 ==> r == solvable_by_moves(self.side() as int, self.position()),
            self.side() >= 4 && self.in_play() ==> r == parity_rule(self.side() as int, self.tiles(), self.blank()),
            self.side() >= 4 && self.in_play() && !r ==> !solvable_by_moves(self.side() as int, self.position()),
    {
        if self.check_win() {
            proof {
                if self.in_play() {
                    lemma_solved_parity(self.side() as int, self.tiles(), self.blank());
                }
                assert(legal_walk(self.side() as int, self.position(), Seq::<usize>::empty()));
                assert(is_solved(walk(self.position(), Seq::<usize>::empty()).0));
            }
            return true;
        }
        proof {
            crate::dfs::lemma_not_won_in_play(self);
        }
        if self.n == 2 || self.n == 3 {
            match self.a_star_solve() {
                Some(_) => true,
                None => false,
            }
        } else {
            let r = Self::is_solvable(&self.board, self.missing_index, self.n);
            proof {
                if !r {
                    lemma_parity_violation_unsolvable(*self);
                }
            }
            r
        }
    }

    /// Assembles a board of side `n` from an outside arrangement: `tiles` in
    /// row-major order with the Missing tile at `missing_index`. Returns
    /// `None` unless the tiles are n * n, their home indices are each of
    /// 0 .. n * n - 1 once, and exactly the tile at `missing_index` is Missing.
    pub fn from_tiles(n: usize, tiles: Vec<Tile>, missing_index: usize) -> (r: Option<NBoard>)
        requires
            n >= 2,
            n * n <= usize::MAX,
        ensures
            r is Some <==> (tiles@.len() == n * n && is_arrangement(tiles@) && blank_at(
                tiles@,
                missing_index as int,
            )),
            r matches Some(b) ==> b.in_play() && b.wf() && b.side() == n && b.tiles() == tiles@ && b.blank()
                == missing_index,
    {
        let len = n * n;
        if tiles.len() != len || missing_index >= len {
            return None;
        }
        let mut seen: Vec<bool> = Vec::new();
        let mut k: usize = 0;
        while k < len
            invariant
                k <= len,
                seen@.len() == k,
                forall|j: int| 0 <= j < k ==> !(#[trigger] seen@[j]),
            decreases len - k,
        {
            seen.push(false);
            k += 1;
        }
        let mut i: usize = 0;
        while i < len
            invariant
                i <= len,
                len == tiles@.len(),
                seen@.len() == len,
                missing_index < len,
                forall|v: int| 0 <= v < len ==> (#[trigger] seen@[v] <==> exists|j: int| 0 <= j < i && tiles@[j].index == v),
                forall|j: int| 0 <= j < i ==> (#[trigger] tiles@[j]).index < len,
                forall|a: int, b: int| 0 <= a < i && 0 <= b < i && a != b ==> tiles@[a].index != tiles@[b].index,
                forall|j: int| 0 <= j < i ==> ((#[trigger] tiles@[j]).tile_type == TileType::Missing <==> j == missing_index),
            decreases len - i,
        {
            let t = tiles[i];
            if t.index >= len || seen[t.index] {
                proof {
                    if t.index < len {
                        let j = choose|j: int| 0 <= j < i && tiles@[j].index == t.index;
                        assert(tiles@[j].index == tiles@[i as int].index);
                    }
                }
                return None;
            }
            if (t.tile_type == TileType::Missing) != (i == missing_index) {
                return None;
            }
            let ghost s0 = seen@;
            seen.set(t.index, true);
            proof {
                assert forall|v: int| 0 <= v < len implies (#[trigger] seen@[v] <==> exists|j: int|
                    0 <= j < i + 1 && tiles@[j].index == v) by {
                    if v == t.index {
                        assert(tiles@[i as int].index == v);
                    } else {
                        assert(seen@[v] == s0[v]);
                        if exists|j: int| 0 <= j < i + 1 && tiles@[j].index == v {
                            let j = choose|j: int| 0 <= j < i + 1 && tiles@[j].index == v;
                            assert(j != i);
                        }
                    }
                }
                assert forall|a: int, b: int| 0 <= a < i + 1 && 0 <= b < i + 1 && a != b implies tiles@[a].index
                    != tiles@[b].index by {
                    if a == i {
                        assert(!s0[tiles@[a].index as int]);
                    } else if b == i {
                        assert(!s0[tiles@[b].index as int]);
                    }
                }
            }
            i += 1;
        }
        let mut board = NBoard::new(n);
        assert(blank_at(tiles@, missing_index as int));
        board.set_board(tiles);
        board.set_mi(missing_index);
        Some(board)
    }
}

} // verus!
