use crate::board::{blank_at, is_arrangement, solved_tiles, NBoard};
use crate::closure::step;
use crate::grid::{adjacent, lemma_row_col, neighbor_list};
use crate::moves::{legal_walk, valid_position, walk, Position};
use crate::random::random_below;
use crate::tile::{Tile, TileType};
use vstd::prelude::*;

verus! {

/// Number of random moves a shuffle makes.
pub const SHUFFLE_MOVES: usize = 100;

/// Range of a random pick. As a multiple of 2, 3 and 4, a pick drawn
/// uniformly from it chooses uniformly among the 2, 3 or 4 legal moves.
pub const PICK_RANGE: usize = 12;

/// Which cell to mark as the Missing tile.
pub enum Punchout {
    Random,
    Index(usize),
}

/// The solved board with `len` cells whose tile at `m` is the Missing one.
pub open(crate) spec fn solved_with_blank(len: nat, m: int) -> Seq<Tile> {
    solved_tiles(len).update(m, Tile { index: m as usize, tile_type: TileType::Missing })
}

/// The state reached from `s` by one move per pick: each pick, taken
/// modulo the number of legal moves, chooses a move from the list of
/// adjacent positions (left, right, above, below).
pub open spec fn pick_walk(n: int, s: Position, picks: Seq<usize>) -> Position
    decreases picks.len(),
{
    if picks.len() == 0 {
        s
    } else {
        let prev = pick_walk(n, s, picks.drop_last());
        let moves = neighbor_list(n, prev.1);
        if moves.len() == 0 {
            prev
        } else {
            step(prev, moves[(picks.last() as int) % (moves.len() as int)] as int)
        }
    }
}

/// `s` can be reached by `SHUFFLE_MOVES` legal moves from a solved board of
/// side `n` on which some tile is Missing.
pub open(crate) spec fn reachable_from_solved(n: int, s: Position) -> bool {
    exists|m: int, ps: Seq<usize>|
        0 <= m < n * n && ps.len() == SHUFFLE_MOVES && legal_walk(n, (solved_with_blank((n * n) as nat, m), m), ps)
            && #[trigger] walk((solved_with_blank((n * n) as nat, m), m), ps) == s
}

impl NBoard {
    /// The tiles and the recorded position of the Missing tile.
    pub open(crate) spec fn position(&self) -> Position {
        (self.board@, self.missing_index as int)
    }

    /// Marks one tile as Missing, at a random position or at the one given,
    /// and returns that position.
    fn punchout(board: &mut Vec<Tile>, punch: Punchout) -> (r: usize)
        requires
            old(board)@.len() > 0,
            match punch {
                Punchout::Index(i) => i < old(board)@.len(),
                Punchout::Random => true,
            },
        ensures
            r < old(board)@.len(),
            final(board)@ == old(board)@.update(
                r as int,
                Tile { index: old(board)@[r as int].index, tile_type: TileType::Missing },
            ),
            match punch {
                Punchout::Index(i) => r == i,
                Punchout::Random => true,
            },
    {
        let i = match punch {
            Punchout::Random => random_below(board.len()),
            Punchout::Index(i) => i,
        };
        let t = Tile::new(board[i].index, TileType::Missing);
        board[i] = t;
        i
    }

    /// Makes one legal move of the Missing tile, which starts at `missing`,
    /// for each pick in turn: the pick modulo the number of legal moves
    /// chooses among the adjacent positions. Returns where the tile ends.
    pub fn generate_puzzle(board: &mut Vec<Tile>, n: usize, missing: usize, picks: &Vec<usize>) -> (r: usize)
        requires
            valid_position(n as int, (old(board)@, missing as int)),
        ensures
            valid_position(n as int, (final(board)@, r as int)),
            (final(board)@, r as int) == pick_walk(n as int, (old(board)@, missing as int), picks@),
            exists|ps: Seq<usize>|
                ps.len() == picks@.len() && legal_walk(n as int, (old(board)@, missing as int), ps)
                    && #[trigger] walk((old(board)@, missing as int), ps) == (final(board)@, r as int),
    {
        let ghost start: Position = (board@, missing as int);
        let ghost ps: Seq<usize> = Seq::empty();
        let mut missing_index = missing;
        let mut k: usize = 0;
        while k < picks.len()
            invariant
                k <= picks@.len(),
                ps.len() == k,
                legal_walk(n as int, start, ps),
                walk(start, ps) == (board@, missing_index as int),
                pick_walk(n as int, start, picks@.subrange(0, k as int)) == (board@, missing_index as int),
                valid_position(n as int, start),
                valid_position(n as int, (board@, missing_index as int)),
            decreases picks@.len() - k,
        {
            let available_to_swap = Self::get_available_to_swap(missing_index, n);
            proof {
                lemma_row_col(n as int, missing_index as int);
                if missing_index % n > 0 {
                    assert(adjacent(n as int, missing_index as int, missing_index - 1));
                    assert(available_to_swap@.contains((missing_index - 1) as usize));
                } else {
                    assert(adjacent(n as int, missing_index as int, missing_index + 1));
                    assert(available_to_swap@.contains((missing_index + 1) as usize));
                }
            }
            let with = available_to_swap[picks[k] % available_to_swap.len()];
            proof {
                crate::grid::lemma_adjacent(n as int, missing_index as int, with as int);
                crate::board::lemma_swapped_arrangement(board@, missing_index as int, with as int);
                crate::board::lemma_swapped_blank(board@, missing_index as int, with as int);
                let sub = picks@.subrange(0, k + 1);
                assert(sub.drop_last() =~= picks@.subrange(0, k as int));
                assert(sub.last() == picks@[k as int]);
            }
            let ghost prev = ps;
            missing_index = Self::swap_with(missing_index, with, board);
            proof {
                ps = ps.push(with);
                assert(ps.drop_last() =~= prev);
            }
            k += 1;
        }
        assert(picks@.subrange(0, k as int) =~= picks@);
        missing_index
    }

    /// Resets to the solved template, marks a random tile as Missing, and
    /// shuffles with `SHUFFLE_MOVES` random legal moves. The result is
    /// reachable from a solved board, so it is solvable by construction.
    pub fn generate(&mut self)
        requires
            old(self).wf(),
        ensures
            final(self).in_play(),
            final(self).wf(),
            final(self).side() == old(self).side(),
            final(self).template() == old(self).template(),
            reachable_from_solved(final(self).side() as int, final(self).position()),
    {
        Self::reset(&mut self.board, &self.initial_board);
        let ghost len = self.board@.len();
        proof {
            let n = self.n as int;
            assert(n * n >= 4) by (nonlinear_arith)
                requires
                    n >= 2,
            ;
        }
        self.missing_index = Self::punchout(&mut self.board, Punchout::Random);
        let ghost m = self.missing_index as int;
        let ghost start = (self.board@, m);
        proof {
            assert(self.board@ =~= solved_with_blank(len, m));
            assert forall|i: int, j: int|
                0 <= i < self.board@.len() && 0 <= j < self.board@.len() && i != j implies self.board@[i].index
                != self.board@[j].index by {}
            assert(is_arrangement(self.board@));
            assert(blank_at(self.board@, m));
        }
        let mut picks: Vec<usize> = Vec::new();
        let mut k: usize = 0;
        while k < SHUFFLE_MOVES
            invariant
                k <= SHUFFLE_MOVES,
                picks@.len() == k,
            decreases SHUFFLE_MOVES - k,
        {
            picks.push(random_below(PICK_RANGE));
            k += 1;
        }
        self.missing_index = Self::generate_puzzle(&mut self.board, self.n, self.missing_index, &picks);
        proof {
            let ps = choose|ps: Seq<usize>|
                ps.len() == picks@.len() && legal_walk(self.n as int, start, ps) && #[trigger] walk(start, ps)
                    == self.position();
            assert(legal_walk(self.n as int, (solved_with_blank(len, m), m), ps));
        }
    }
}

} // verus!
