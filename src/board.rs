use crate::grid::{adjacent, col_of, lemma_adjacent, lemma_row_col, neighbor_list, row_of};
use crate::tile::{Tile, TileType};
use vstd::prelude::*;

verus! {

/// Side length of the smallest board.
pub const N_MIN: usize = 2;

/// Value of the missing index on a board that has no Missing tile yet.
pub const UNSET: usize = usize::MAX;

/// An n-by-n sliding puzzle: tiles in row-major order and the position of the
/// Missing tile.
#[derive(Clone, Debug)]
pub struct NBoard {
    pub(crate) n: usize,
    pub(crate) board: Vec<Tile>,
    pub(crate) initial_board: Vec<Tile>,
    pub(crate) missing_index: usize,
}

/// The solved board with `len` cells: the tile at position i has home i, all in play.
pub open(crate) spec fn solved_tiles(len: nat) -> Seq<Tile> {
    Seq::new(len, |i: int| Tile { index: i as usize, tile_type: TileType::InPlay })
}

/// The home indices are below the length and pairwise distinct: together
/// they are exactly 0 .. len - 1, each once.
pub open(crate) spec fn is_arrangement(t: Seq<Tile>) -> bool {
    &&& forall|i: int| 0 <= i < t.len() ==> (#[trigger] t[i]).index < t.len()
    &&& forall|i: int, j: int|
        0 <= i < t.len() && 0 <= j < t.len() && i != j ==> t[i].index != t[j].index
}

/// Exactly one tile is Missing, the one at position `m`.
pub open(crate) spec fn blank_at(t: Seq<Tile>, m: int) -> bool {
    &&& 0 <= m < t.len()
    &&& forall|i: int| 0 <= i < t.len() ==> ((#[trigger] t[i]).tile_type == TileType::Missing <==> i == m)
}

/// Every tile sits at its home position.
pub open(crate) spec fn is_solved(t: Seq<Tile>) -> bool {
    forall|i: int| 0 <= i < t.len() ==> (#[trigger] t[i]).index == i
}

/// `t` with the entries at positions `i` and `j` exchanged.
pub open spec fn swapped<A>(t: Seq<A>, i: int, j: int) -> Seq<A> {
    t.update(i, t[j]).update(j, t[i])
}

/// Exchanging two entries keeps an arrangement an arrangement.
pub proof fn lemma_swapped_arrangement(t: Seq<Tile>, i: int, j: int)
    requires
        is_arrangement(t),
        0 <= i < t.len(),
        0 <= j < t.len(),
    ensures
        is_arrangement(swapped(t, i, j)),
{
    let s = swapped(t, i, j);
    assert forall|a: int, b: int| 0 <= a < s.len() && 0 <= b < s.len() && a != b implies s[a].index
        != s[b].index by {
        let pa = if a == i { j } else if a == j { i } else { a };
        let pb = if b == i { j } else if b == j { i } else { b };
        assert(s[a] == t[pa] && s[b] == t[pb]);
    }
    assert forall|a: int| 0 <= a < s.len() implies (#[trigger] s[a]).index < s.len() by {
        let pa = if a == i { j } else if a == j { i } else { a };
        assert(s[a] == t[pa]);
    }
}

/// Moving the Missing tile from `m` to `p` keeps it the only Missing tile.
pub proof fn lemma_swapped_blank(t: Seq<Tile>, m: int, p: int)
    requires
        blank_at(t, m),
        0 <= p < t.len(),
    ensures
        blank_at(swapped(t, m, p), p),
{
    let s = swapped(t, m, p);
    assert forall|a: int| 0 <= a < s.len() implies ((#[trigger] s[a]).tile_type == TileType::Missing
        <==> a == p) by {
        let pa = if a == m { p } else if a == p { m } else { a };
        assert(s[a] == t[pa]);
    }
}

impl NBoard {
    /// Side length.
    pub open(crate) spec fn side(&self) -> nat {
        self.n as nat
    }

    /// The tiles, row-major.
    pub open(crate) spec fn tiles(&self) -> Seq<Tile> {
        self.board@
    }

    /// The solved template fixed at construction.
    pub open(crate) spec fn template(&self) -> Seq<Tile> {
        self.initial_board@
    }

    /// The recorded position of the Missing tile.
    pub open(crate) spec fn blank(&self) -> int {
        self.missing_index as int
    }

    /// Side, size and template agree, and the tiles are an arrangement of
    /// the home indices.
    pub open(crate) spec fn layout_ok(&self) -> bool {
        &&& self.n >= N_MIN
        &&& self.n * self.n <= usize::MAX
        &&& self.board@.len() == self.n * self.n
        &&& is_arrangement(self.board@)
        &&& self.initial_board@ == solved_tiles((self.n * self.n) as nat)
    }

    /// The board is in play: exactly one tile is Missing, at the missing index.
    pub open(crate) spec fn in_play(&self) -> bool {
        &&& self.layout_ok()
        &&& blank_at(self.board@, self.blank())
    }

    /// The board is as constructed: the solved template, no tile Missing,
    /// missing index unset.
    pub open(crate) spec fn fresh(&self) -> bool {
        &&& self.layout_ok()
        &&& self.board@ == self.initial_board@
        &&& self.missing_index >= self.board@.len()
    }

    /// Well formed: fresh or in play.
    pub open(crate) spec fn wf(&self) -> bool {
        self.in_play() || self.fresh()
    }

    /// Both boards hold the same side, tiles, template and missing index.
    pub open(crate) spec fn same(&self, o: &NBoard) -> bool {
        &&& self.n == o.n
        &&& self.board@ == o.board@
        &&& self.initial_board@ == o.initial_board@
        &&& self.missing_index == o.missing_index
    }

    /// Every tile is at its home position.
    pub open(crate) spec fn is_won(&self) -> bool {
        is_solved(self.board@)
    }

    /// A copy of `src`.
    pub(crate) fn copy_tiles(src: &Vec<Tile>) -> (r: Vec<Tile>)
        ensures
            r@ == src@,
    {
        let mut r: Vec<Tile> = Vec::new();
        let mut i: usize = 0;
        while i < src.len()
            invariant
                i <= src.len(),
                r@ == src@.subrange(0, i as int),
            decreases src.len() - i,
        {
            r.push(src[i]);
            i += 1;
            assert(r@ =~= src@.subrange(0, i as int));
        }
        assert(r@ =~= src@);
        r
    }

    /// A copy of this board.
    pub(crate) fn snapshot(&self) -> (r: NBoard)
        ensures
            r.same(self),
    {
        let board = Self::copy_tiles(&self.board);
        let initial_board = Self::copy_tiles(&self.initial_board);
        let r = NBoard { n: self.n, board, initial_board, missing_index: self.missing_index };
        r
    }

    /// Fills an empty `board` with the solved tiles of a board of side `n`.
    fn initialize_board(board: &mut Vec<Tile>, n: usize)
        requires
            old(board)@.len() == 0,
            n * n <= usize::MAX,
        ensures
            final(board)@ == solved_tiles((n * n) as nat),
    {
        let tile_count = n * n;
        let mut i: usize = 0;
        while i < tile_count
            invariant
                i <= tile_count,
                tile_count == n * n,
                board@ == solved_tiles(i as nat),
            decreases tile_count - i,
        {
            board.push(Tile::new(i, TileType::InPlay));
            i += 1;
            assert(board@ =~= solved_tiles(i as nat));
        }
    }

    /// The solved board of side `n`; no tile is Missing yet.
    pub fn new(n: usize) -> (r: NBoard)
        requires
            n >= N_MIN,
            n * n <= usize::MAX,
        ensures
            r.fresh(),
            r.wf(),
            r.is_won(),
            r.side() == n,
            r.tiles() == solved_tiles((n * n) as nat),
    {
        let mut initial_board: Vec<Tile> = Vec::new();
        Self::initialize_board(&mut initial_board, n);
        let board = Self::copy_tiles(&initial_board);
        let r = NBoard { n, board, initial_board, missing_index: UNSET };
        assert forall|i: int, j: int|
            0 <= i < r.board@.len() && 0 <= j < r.board@.len() && i != j implies r.board@[i].index
            != r.board@[j].index by {}
        r
    }

    /// Replaces `dst` by a copy of `src`.
    pub fn reset(dst: &mut Vec<Tile>, src: &Vec<Tile>)
        ensures
            final(dst)@ == src@,
    {
        *dst = Self::copy_tiles(src);
    }

    /// Home index of the tile at position `i`.
    pub fn index_at(&self, i: usize) -> (r: usize)
        requires
            i < self.tiles().len(),
        ensures
            r == self.tiles()[i as int].home(),
    {
        self.board[i].index
    }

    /// Side length.
    pub fn side_len(&self) -> (r: usize)
        ensures
            r == self.side(),
    {
        self.n
    }

    /// Position of the Missing tile.
    pub fn get_missing_index(&self) -> (r: usize)
        ensures
            r == self.blank(),
    {
        self.missing_index
    }

    /// True iff every tile is at its home position.
    pub fn check_win(&self) -> (r: bool)
        ensures
            r == (self.tiles().len() > 0 && self.is_won()),
    {
        if self.board.len() == 0 {
            return false;
        }
        let mut i: usize = 0;
        while i < self.board.len()
            invariant
                i <= self.board@.len(),
                forall|k: int| 0 <= k < i ==> (#[trigger] self.board@[k]).index == k,
            decreases self.board@.len() - i,
        {
            if self.board[i].index != i {
                return false;
            }
            i += 1;
        }
        true
    }

    /// Exchanges the tiles at positions `missing_index` and `with` of `board`
    /// and returns `with`, the new position of the tile that was at `missing_index`.
    pub(crate) fn swap_with(missing_index: usize, with: usize, board: &mut Vec<Tile>) -> (r: usize)
        requires
            missing_index < old(board)@.len(),
            with < old(board)@.len(),
        ensures
            final(board)@ == swapped(old(board)@, missing_index as int, with as int),
            r == with,
    {
        let a = board[missing_index];
        let b = board[with];
        board[missing_index] = b;
        board[with] = a;
        with
    }

    /// Moves the Missing tile to `with`, exchanging it with the tile there,
    /// and returns the new missing index. Adjacency is not checked here.
    pub fn swap(&mut self, with: usize) -> (r: usize)
        requires
            old(self).blank() < old(self).tiles().len(),
            with < old(self).tiles().len(),
        ensures
            final(self).tiles() == swapped(old(self).tiles(), old(self).blank(), with as int),
            final(self).blank() == with,
            final(self).side() == old(self).side(),
            final(self).template() == old(self).template(),
            r == with,
            old(self).layout_ok() ==> final(self).layout_ok(),
            old(self).in_play() ==> final(self).in_play(),
            old(self).in_play() ==> final(self).wf(),
    {
        proof {
            if self.layout_ok() {
                lemma_swapped_arrangement(self.board@, self.blank(), with as int);
            }
            if self.in_play() {
                lemma_swapped_blank(self.board@, self.blank(), with as int);
            }
        }
        self.missing_index = Self::swap_with(self.missing_index, with, &mut self.board);
        self.missing_index
    }

    /// Replaces the tiles. Together with `set_mi` this assembles a board from
    /// an outside arrangement.
    pub fn set_board(&mut self, new_board: Vec<Tile>)
        requires
            old(self).layout_ok(),
            new_board@.len() == old(self).tiles().len(),
            is_arrangement(new_board@),
            exists|m: int| blank_at(new_board@, m),
        ensures
            final(self).tiles() == new_board@,
            final(self).layout_ok(),
            final(self).side() == old(self).side(),
            final(self).blank() == old(self).blank(),
    {
        self.board = new_board;
    }

    /// Records `mi` as the position of the Missing tile.
    pub fn set_mi(&mut self, mi: usize)
        ensures
            final(self).tiles() == old(self).tiles(),
            final(self).side() == old(self).side(),
            final(self).blank() == mi,
            final(self).template() == old(self).template(),
            old(self).layout_ok() ==> final(self).layout_ok(),
            old(self).layout_ok() && blank_at(old(self).tiles(), mi as int) ==> final(self).in_play(),
    {
        self.missing_index = mi;
    }

    /// Positions orthogonally adjacent to `missing_index` on a board of side `n`.
    pub(crate) fn get_available_to_swap(missing_index: usize, n: usize) -> (r: Vec<usize>)
        requires
            n >= N_MIN,
            n * n <= usize::MAX,
            missing_index < n * n,
        ensures
            forall|k: int| 0 <= k < r@.len() ==> adjacent(n as int, missing_index as int, #[trigger] r@[k] as int),
            forall|p: int| adjacent(n as int, missing_index as int, p) ==> r@.contains(p as usize),
            forall|a: int, b: int| 0 <= a < b < r@.len() ==> r@[a] != r@[b],
            r@.len() <= 4,
            r@ == neighbor_list(n as int, missing_index as int),
    {
        proof {
            lemma_row_col(n as int, missing_index as int);
        }
        let m = missing_index;
        let col = m % n;
        let row = m / n;
        let mut r: Vec<usize> = Vec::new();
        let ghost (ni, mi) = (n as int, m as int);
        let ghost a: Seq<usize> = if col_of(ni, mi) > 0 { seq![(mi - 1) as usize] } else { Seq::empty() };
        let ghost b: Seq<usize> = if col_of(ni, mi) < ni - 1 { seq![(mi + 1) as usize] } else { Seq::empty() };
        let ghost c: Seq<usize> = if row_of(ni, mi) > 0 { seq![(mi - ni) as usize] } else { Seq::empty() };
        let ghost d: Seq<usize> = if row_of(ni, mi) < ni - 1 { seq![(mi + ni) as usize] } else { Seq::empty() };
        if col > 0 {
            r.push(m - 1);
        }
        assert(r@ =~= a);
        if col < n - 1 {
            r.push(m + 1);
        }
        assert(r@ =~= a + b);
        if row > 0 {
            proof {
                lemma_adjacent(n as int, m as int, m - n);
            }
            r.push(m - n);
        }
        assert(r@ =~= a + b + c);
        if row < n - 1 {
            proof {
                lemma_adjacent(n as int, m as int, m + n);
            }
            r.push(m + n);
        }
        assert(r@ =~= a + b + c + d);
        assert forall|p: int| adjacent(n as int, m as int, p) implies r@.contains(p as usize) by {
            if p == m - 1 && col > 0 {
                assert(r@[0] == p);
            } else if p == m + 1 && col < n - 1 {
                assert(r@[if col > 0 { 1int } else { 0int }] == p);
            } else if p == m - n && row > 0 {
                let k = (if col > 0 { 1int } else { 0int }) + (if col < n - 1 { 1int } else { 0int });
                assert(r@[k] == p);
            } else {
                let k = (if col > 0 { 1int } else { 0int }) + (if col < n - 1 { 1int } else { 0int })
                    + (if row > 0 { 1int } else { 0int });
                assert(r@[k] == p);
            }
        }
        r
    }

    /// The positions the Missing tile can move to: those orthogonally adjacent to it.
    pub fn get_swappable(&self) -> (r: Vec<usize>)
        requires
            self.in_play(),
        ensures
            forall|k: int| 0 <= k < r@.len() ==> adjacent(self.side() as int, self.blank(), #[trigger] r@[k] as int),
            forall|p: int| adjacent(self.side() as int, self.blank(), p) ==> r@.contains(p as usize),
            forall|a: int, b: int| 0 <= a < b < r@.len() ==> r@[a] != r@[b],
    {
        Self::get_available_to_swap(self.missing_index, self.n)
    }
}

impl Default for NBoard {
    /// The solved board of the smallest side.
    fn default() -> (r: NBoard)
        ensures
            r.fresh(),
            r.side() == N_MIN,
    {
        NBoard::new(N_MIN)
    }
}

} // verus!
