use crate::board::{is_solved, NBoard};
use crate::closure::{closed_under_moves, keys_unsolved, lemma_closed_no_solution, step};
use crate::dfs::{keys_in_play, lemma_not_won_in_play, lemma_visited_bound};
use crate::frontier::{lemma_total_nonneg, total, Frontier};
use crate::grid::{adjacent, col_of, lemma_adjacent, lemma_row_col, row_of};
use crate::keys::{key_of, lemma_key_injective, power};
use crate::moves::{lemma_walk_valid, legal_walk, solvable_by_moves, valid_position, walk, Position};
use crate::state_set::StateSet;
use crate::tile::{Tile, TileType};
use vstd::prelude::*;

verus! {

/// Rows plus columns between position `i` and position `home`.
pub open spec fn tile_distance(n: int, i: int, home: int) -> int {
    let dr = row_of(n, i) - row_of(n, home);
    let dc = col_of(n, i) - col_of(n, home);
    (if dr >= 0 {
        dr
    } else {
        -dr
    }) + (if dc >= 0 {
        dc
    } else {
        -dc
    })
}

/// Manhattan distance of the tiles from their homes, over the in-play tiles.
pub open(crate) spec fn manhattan(n: int, t: Seq<Tile>) -> int
    decreases t.len(),
{
    if t.len() == 0 {
        0
    } else {
        manhattan(n, t.drop_last()) + (if t.last().tile_type == TileType::InPlay {
            tile_distance(n, t.len() - 1, t.last().index as int)
        } else {
            0
        })
    }
}

/// What the tile `x` at position `i` adds to the Manhattan distance.
pub open(crate) spec fn tile_term(n: int, i: int, x: Tile) -> int {
    if x.tile_type == TileType::InPlay {
        tile_distance(n, i, x.index as int)
    } else {
        0
    }
}

proof fn lemma_manhattan_update(n: int, t: Seq<Tile>, i: int, x: Tile)
    requires
        0 <= i < t.len(),
    ensures
        manhattan(n, t.update(i, x)) == manhattan(n, t) - tile_term(n, i, t[i]) + tile_term(n, i, x),
    decreases t.len(),
{
    let u = t.update(i, x);
    if i < t.len() - 1 {
        assert(u.drop_last() =~= t.drop_last().update(i, x));
        lemma_manhattan_update(n, t.drop_last(), i, x);
    } else {
        assert(u.drop_last() =~= t.drop_last());
    }
}

/// One legal move changes the Manhattan distance by at most one.
pub proof fn lemma_manhattan_step(n: int, s: Position, p: int)
    requires
        valid_position(n, s),
        adjacent(n, s.1, p),
    ensures
        manhattan(n, step(s, p).0) <= manhattan(n, s.0) + 1,
        manhattan(n, s.0) <= manhattan(n, step(s, p).0) + 1,
{
    let t = s.0;
    let m = s.1;
    lemma_adjacent(n, m, p);
    let t1 = t.update(m, t[p]);
    lemma_manhattan_update(n, t, m, t[p]);
    lemma_manhattan_update(n, t1, p, t[m]);
    assert(t1[p] == t[p]);
    let h = t[p].index as int;
    lemma_row_col(n, m);
    lemma_row_col(n, p);
    lemma_row_col(n, h);
    assert(t[m].tile_type == TileType::Missing);
    assert(t[p].tile_type == TileType::InPlay);
    assert(step(s, p).0 == t1.update(p, t[m]));
    let rm = row_of(n, m);
    let rp = row_of(n, p);
    let cm = col_of(n, m);
    let cp = col_of(n, p);
    if p == m + n || p == m - n {
        assert(cp == cm) by (nonlinear_arith)
            requires
                m == rm * n + cm,
                p == rp * n + cp,
                p == m + n || p == m - n,
                rp == rm + 1 || rp + 1 == rm,
                p == m + n ==> rp == rm + 1,
                p == m - n ==> rp + 1 == rm,
        ;
    } else {
        assert(cp == cm + 1 || cp + 1 == cm);
    }
}

proof fn lemma_manhattan_nonneg(n: int, t: Seq<Tile>)
    ensures
        manhattan(n, t) >= 0,
    decreases t.len(),
{
    if t.len() > 0 {
        lemma_manhattan_nonneg(n, t.drop_last());
    }
}

/// A solved board is at Manhattan distance zero.
proof fn lemma_manhattan_solved(n: int, t: Seq<Tile>)
    requires
        is_solved(t),
    ensures
        manhattan(n, t) == 0,
    decreases t.len(),
{
    if t.len() > 0 {
        let u = t.drop_last();
        assert(is_solved(u)) by {
            assert forall|i: int| 0 <= i < u.len() implies (#[trigger] u[i]).index == i by {
                assert(u[i] == t[i]);
            }
        }
        lemma_manhattan_solved(n, u);
        assert(t.last().index == t.len() - 1);
    }
}

/// Every in-play tile of a prefix at Manhattan distance zero is at home.
proof fn lemma_manhattan_zero_prefix(n: int, t: Seq<Tile>)
    requires
        n >= 2,
        t.len() <= n * n,
        forall|i: int| 0 <= i < t.len() ==> (#[trigger] t[i]).index < n * n,
        manhattan(n, t) == 0,
    ensures
        forall|i: int| 0 <= i < t.len() && (#[trigger] t[i]).tile_type == TileType::InPlay ==> t[i].index == i,
    decreases t.len(),
{
    if t.len() > 0 {
        let u = t.drop_last();
        let j = t.len() - 1;
        lemma_manhattan_nonneg(n, u);
        if t.last().tile_type == TileType::InPlay {
            lemma_row_col(n, j);
            lemma_row_col(n, t.last().index as int);
        }
        lemma_manhattan_zero_prefix(n, u);
        assert forall|i: int| 0 <= i < t.len() && (#[trigger] t[i]).tile_type == TileType::InPlay implies t[i].index
            == i by {
            if i < j {
                assert(t[i] == u[i]);
            }
        }
    }
}

/// A board in play at Manhattan distance zero is solved.
proof fn lemma_manhattan_zero_solved(n: int, s: Position)
    requires
        valid_position(n, s),
        manhattan(n, s.0) == 0,
    ensures
        is_solved(s.0),
{
    let t = s.0;
    lemma_manhattan_zero_prefix(n, t);
    let m = s.1;
    let v = t[m].index as int;
    if v != m {
        assert(t[v].tile_type == TileType::InPlay);
        assert(t[v].index == v);
    }
}

/// Bucket of the queue for a search state of estimated cost `cost`.
pub open spec fn priority(cost: u128) -> usize {
    if cost < (usize::MAX - 1) as u128 {
        cost as usize
    } else {
        (usize::MAX - 1) as usize
    }
}

/// A search state: its estimated total cost, the board reached, and the
/// moves taken to reach it.
pub struct State {
    pub(crate) cost: u128,
    pub(crate) board: NBoard,
    pub(crate) steps: Vec<usize>,
}

/// `x` is reached from `start` by its moves, all legal, sits in bucket
/// `prio`, and (after the first move) costs its moves plus its Manhattan distance.
pub open(crate) spec fn state_ok(start: NBoard, x: State, prio: int) -> bool {
    let n = start.side() as int;
    &&& x.board.in_play()
    &&& x.board.side() == start.side()
    &&& x.board.template() == start.template()
    &&& legal_walk(n, start.position(), x.steps@)
    &&& walk(start.position(), x.steps@) == x.board.position()
    &&& prio == priority(x.cost)
    &&& x.steps@.len() > 0 ==> x.cost == x.steps@.len() + manhattan(n, x.board.tiles())
    &&& x.steps@.len() == 0 ==> x.cost == 0
}

/// One legal move from `s` reaches the solved board.
pub open(crate) spec fn one_move_from_solved(n: int, s: Position) -> bool {
    exists|p: int| adjacent(n, s.1, p) && #[trigger] is_solved(step(s, p).0)
}

/// The queue holds only the start state, before any expansion.
pub open(crate) spec fn only_start(v: Seq<Seq<State>>) -> bool {
    &&& v.len() == 1
    &&& v[0].len() == 1
    &&& v[0][0].steps@.len() == 0
}

/// The lowest bucket is empty and the next one is not.
pub open(crate) spec fn next_bucket_ready(v: Seq<Seq<State>>) -> bool {
    &&& v.len() > 1
    &&& v[0].len() == 0
    &&& v[1].len() > 0
}

/// Every state in the queue is well formed for its bucket.
pub open(crate) spec fn frontier_ok(start: NBoard, v: Seq<Seq<State>>) -> bool {
    forall|c: int, k: int| 0 <= c < v.len() && 0 <= k < v[c].len() ==> state_ok(start, #[trigger] v[c][k], c)
}

proof fn lemma_frontier_pop(start: NBoard, v: Seq<Seq<State>>, c: int)
    requires
        frontier_ok(start, v),
        0 <= c < v.len(),
        v[c].len() > 0,
    ensures
        state_ok(start, v[c].last(), c),
        frontier_ok(start, v.update(c, v[c].drop_last())),
{
    let w = v.update(c, v[c].drop_last());
    assert forall|a: int, k: int| 0 <= a < w.len() && 0 <= k < w[a].len() implies state_ok(start, #[trigger] w[a][k], a) by {
        assert(w[a][k] == v[a][k]);
    }
}

proof fn lemma_frontier_push(start: NBoard, v: Seq<Seq<State>>, w: Seq<Seq<State>>, prio: int, y: State)
    requires
        frontier_ok(start, v),
        state_ok(start, y, prio),
        0 <= prio < w.len(),
        w.len() >= v.len(),
        forall|c: int| 0 <= c < w.len() && c != prio ==> #[trigger] w[c] == (if c < v.len() {
            v[c]
        } else {
            Seq::empty()
        }),
        w[prio] == (if prio < v.len() {
            v[prio]
        } else {
            Seq::empty()
        }).push(y),
    ensures
        frontier_ok(start, w),
{
    assert forall|a: int, k: int| 0 <= a < w.len() && 0 <= k < w[a].len() implies state_ok(start, #[trigger] w[a][k], a) by {
        if a == prio && k == w[a].len() - 1 {
        } else if a < v.len() {
            assert(w[a][k] == v[a][k]);
        }
    }
}

/// Some state in the queue has position `pos` and took at most `g` moves.
pub open(crate) spec fn queued(v: Seq<Seq<State>>, pos: Position, g: int) -> bool {
    exists|c: int, k: int|
        0 <= c < v.len() && 0 <= k < v[c].len() && (#[trigger] v[c][k]).board.position() == pos
            && v[c][k].steps@.len() <= g
}

/// Every legal move from a visited state whose key differs from `x` leads
/// to a visited state, or to a queued state at most one move further than
/// recorded in `g` for the visited one.
pub open(crate) spec fn closed_except(
    n: int,
    visited: Set<Seq<usize>>,
    g: Map<Seq<usize>, int>,
    v: Seq<Seq<State>>,
    x: Seq<usize>,
) -> bool {
    forall|s: Position, p: int|
        valid_position(n, s) && #[trigger] visited.contains(key_of(s)) && #[trigger] adjacent(n, s.1, p)
            && key_of(s) != x ==> visited.contains(key_of(step(s, p))) || queued(v, step(s, p), g[key_of(s)] + 1)
}

/// Every legal move from a visited state leads to a visited state, or to a
/// queued state at most one move further than recorded in `g`.
pub open(crate) spec fn search_closed(
    n: int,
    visited: Set<Seq<usize>>,
    g: Map<Seq<usize>, int>,
    v: Seq<Seq<State>>,
) -> bool {
    forall|s: Position, p: int|
        valid_position(n, s) && #[trigger] visited.contains(key_of(s)) && #[trigger] adjacent(n, s.1, p)
            ==> visited.contains(key_of(step(s, p))) || queued(v, step(s, p), g[key_of(s)] + 1)
}

/// Costs below this limit get a bucket of their own.
pub open spec fn cost_limit() -> int {
    (usize::MAX - 1) as int
}

/// For each visited state, `g` records no more moves than any legal walk
/// from `start` to it (among walks whose moves plus Manhattan distance stay
/// below the cost limit).
pub open(crate) spec fn recorded_shortest(
    n: int,
    start: Position,
    visited: Set<Seq<usize>>,
    g: Map<Seq<usize>, int>,
) -> bool {
    forall|ps: Seq<usize>|
        legal_walk(n, start, ps) && #[trigger] visited.contains(key_of(walk(start, ps))) && ps.len()
            + manhattan(n, walk(start, ps).0) < cost_limit() ==> g[key_of(walk(start, ps))] <= ps.len()
}

proof fn lemma_queued_pop(v: Seq<Seq<State>>, c: int, q: Position, g: int)
    requires
        0 <= c < v.len(),
        v[c].len() > 0,
        queued(v, q, g),
    ensures
        queued(v.update(c, v[c].drop_last()), q, g) || v[c].last().board.position() == q,
{
    let w = v.update(c, v[c].drop_last());
    let (a, k) = choose|a: int, k: int|
        0 <= a < v.len() && 0 <= k < v[a].len() && (#[trigger] v[a][k]).board.position() == q
            && v[a][k].steps@.len() <= g;
    if !(a == c && k == v[c].len() - 1) {
        assert(w[a][k] == v[a][k]);
    }
}

proof fn lemma_queued_push(v: Seq<Seq<State>>, w: Seq<Seq<State>>, prio: int, y: State)
    requires
        0 <= prio < w.len(),
        w.len() >= v.len(),
        forall|c: int| 0 <= c < w.len() && c != prio ==> #[trigger] w[c] == (if c < v.len() {
            v[c]
        } else {
            Seq::empty()
        }),
        w[prio] == (if prio < v.len() {
            v[prio]
        } else {
            Seq::empty()
        }).push(y),
    ensures
        queued(w, y.board.position(), y.steps@.len() as int),
        forall|q: Position, g: int| queued(v, q, g) ==> queued(w, q, g),
{
    assert(w[prio][w[prio].len() - 1] == y);
    assert forall|q: Position, g: int| queued(v, q, g) implies queued(w, q, g) by {
        let (a, k) = choose|a: int, k: int|
            0 <= a < v.len() && 0 <= k < v[a].len() && (#[trigger] v[a][k]).board.position() == q
                && v[a][k].steps@.len() <= g;
        assert(w[a][k] == v[a][k]);
    }
}

/// After the state at the end of bucket `c` leaves the queue and its key is
/// recorded with `g2`, every visited state other than it still has its
/// moves covered.
proof fn lemma_closed_after_pop(
    n: int,
    visited: Set<Seq<usize>>,
    g: Map<Seq<usize>, int>,
    g2: Map<Seq<usize>, int>,
    v: Seq<Seq<State>>,
    c: int,
)
    requires
        search_closed(n, visited, g, v),
        0 <= c < v.len(),
        v[c].len() > 0,
        forall|k: Seq<usize>| visited.contains(k) ==> #[trigger] g2[k] == g[k],
    ensures
        closed_except(
            n,
            visited.insert(key_of(v[c].last().board.position())),
            g2,
            v.update(c, v[c].drop_last()),
            key_of(v[c].last().board.position()),
        ),
        visited.contains(key_of(v[c].last().board.position())) ==> search_closed(
            n,
            visited,
            g2,
            v.update(c, v[c].drop_last()),
        ),
{
    let w = v.update(c, v[c].drop_last());
    let x = v[c].last().board.position();
    let visited2 = visited.insert(key_of(x));
    assert forall|s: Position, p: int|
        valid_position(n, s) && #[trigger] visited2.contains(key_of(s)) && #[trigger] adjacent(n, s.1, p)
            && (key_of(s) != key_of(x) || visited.contains(key_of(x))) implies visited2.contains(key_of(step(s, p)))
        || queued(w, step(s, p), g2[key_of(s)] + 1) by {
        assert(visited.contains(key_of(s)));
        assert(g2[key_of(s)] == g[key_of(s)]);
        if !visited.contains(key_of(step(s, p))) {
            lemma_queued_pop(v, c, step(s, p), g[key_of(s)] + 1);
        }
    }
    if visited.contains(key_of(x)) {
        assert(visited2 =~= visited);
    }
}

/// Once every move from `x` leads to a queued state at most one move
/// further than recorded for `x`, no visited state is an exception.
proof fn lemma_close_expansion(
    n: int,
    visited: Set<Seq<usize>>,
    g: Map<Seq<usize>, int>,
    v: Seq<Seq<State>>,
    x: Position,
    moves: Seq<usize>,
)
    requires
        valid_position(n, x),
        closed_except(n, visited, g, v, key_of(x)),
        forall|j: int| 0 <= j < moves.len() ==> queued(v, step(x, #[trigger] moves[j] as int), g[key_of(x)] + 1),
        forall|p: int| adjacent(n, x.1, p) ==> moves.contains(p as usize),
    ensures
        search_closed(n, visited, g, v),
{
    assert forall|s: Position, p: int|
        valid_position(n, s) && #[trigger] visited.contains(key_of(s)) && #[trigger] adjacent(n, s.1, p) implies visited.contains(
        key_of(step(s, p)),
    ) || queued(v, step(s, p), g[key_of(s)] + 1) by {
        if key_of(s) == key_of(x) {
            lemma_key_injective(n, s, x);
            crate::grid::lemma_adjacent(n, s.1, p);
            let j = choose|j: int| 0 <= j < moves.len() && moves[j] == p as usize;
            assert(queued(v, step(x, moves[j] as int), g[key_of(x)] + 1));
        }
    }
}

/// An empty queue holds no state.
proof fn lemma_queued_empty(v: Seq<Seq<State>>, q: Position, g: int)
    requires
        forall|c: int| 0 <= c < v.len() ==> (#[trigger] v[c]).len() == 0,
    ensures
        !queued(v, q, g),
{
    if queued(v, q, g) {
        let (a, k) = choose|a: int, k: int|
            0 <= a < v.len() && 0 <= k < v[a].len() && (#[trigger] v[a][k]).board.position() == q
                && v[a][k].steps@.len() <= g;
        assert(v[a].len() == 0);
    }
}

/// A state a legal walk reaches that is not visited has some queued state
/// whose cost is at most the walk's moves plus the state's Manhattan distance.
proof fn lemma_frontier_ahead(
    start_board: NBoard,
    visited: Set<Seq<usize>>,
    g: Map<Seq<usize>, int>,
    v: Seq<Seq<State>>,
    ps: Seq<usize>,
)
    requires
        valid_position(start_board.side() as int, start_board.position()),
        frontier_ok(start_board, v),
        search_closed(start_board.side() as int, visited, g, v),
        recorded_shortest(start_board.side() as int, start_board.position(), visited, g),
        visited.contains(key_of(start_board.position())) || queued(v, start_board.position(), 0),
        legal_walk(start_board.side() as int, start_board.position(), ps),
        !visited.contains(key_of(walk(start_board.position(), ps))),
        ps.len() + manhattan(start_board.side() as int, walk(start_board.position(), ps).0) < cost_limit(),
    ensures
        exists|c: int, k: int|
            0 <= c < v.len() && 0 <= k < v[c].len() && (#[trigger] v[c][k]).cost <= ps.len() + manhattan(
                start_board.side() as int,
                walk(start_board.position(), ps).0,
            ),
    decreases ps.len(),
{
    let n = start_board.side() as int;
    let start = start_board.position();
    let s = walk(start, ps);
    lemma_walk_valid(n, start, ps);
    lemma_manhattan_nonneg(n, s.0);
    if ps.len() == 0 {
        let (c, k) = choose|c: int, k: int|
            0 <= c < v.len() && 0 <= k < v[c].len() && (#[trigger] v[c][k]).board.position() == start
                && v[c][k].steps@.len() <= 0;
        assert(state_ok(start_board, v[c][k], c));
    } else {
        let qs = ps.drop_last();
        let prev = walk(start, qs);
        let p = ps.last() as int;
        lemma_walk_valid(n, start, qs);
        lemma_manhattan_step(n, prev, p);
        assert(s == step(prev, p));
        if !visited.contains(key_of(prev)) {
            lemma_frontier_ahead(start_board, visited, g, v, qs);
        } else {
            assert(adjacent(n, prev.1, p));
            assert(queued(v, step(prev, p), g[key_of(prev)] + 1));
            assert(g[key_of(prev)] <= qs.len());
            let (c, k) = choose|c: int, k: int|
                0 <= c < v.len() && 0 <= k < v[c].len() && (#[trigger] v[c][k]).board.position() == s
                    && v[c][k].steps@.len() <= g[key_of(prev)] + 1;
            assert(state_ok(start_board, v[c][k], c));
        }
    }
}

impl NBoard {
    /// Sum over the in-play tiles of the rows plus columns between each
    /// tile and its home.
    pub(crate) fn manhattan_distance(&self) -> (r: u128)
        requires
            self.layout_ok(),
        ensures
            r == manhattan(self.side() as int, self.tiles()),
            r <= 0x4_0000_0000_0000_0000_0000_0000u128,
    {
        let n = self.n;
        proof {
            let nn = n as int;
            if nn >= 0x1_0000_0000 {
                assert(nn * nn >= 0x1_0000_0000 * 0x1_0000_0000) by (nonlinear_arith)
                    requires
                        nn >= 0x1_0000_0000,
                ;
            }
        }
        let mut distance: u128 = 0;
        let mut i: usize = 0;
        while i < self.board.len()
            invariant
                i <= self.board@.len(),
                self.layout_ok(),
                n == self.n,
                distance == manhattan(n as int, self.board@.subrange(0, i as int)),
                distance <= i * 2 * n,
                n < 0x1_0000_0000,
            decreases self.board@.len() - i,
        {
            let tile = self.board[i];
            let ghost pre = self.board@.subrange(0, i as int);
            proof {
                let s = self.board@.subrange(0, i + 1);
                assert(s.drop_last() =~= pre);
                lemma_row_col(n as int, i as int);
                lemma_row_col(n as int, tile.index as int);
            }
            if tile.tile_type == TileType::InPlay {
                let final_x = tile.index % n;
                let final_y = tile.index / n;
                let current_x = i % n;
                let current_y = i / n;
                let dx = if final_x >= current_x {
                    final_x - current_x
                } else {
                    current_x - final_x
                };
                let dy = if final_y >= current_y {
                    final_y - current_y
                } else {
                    current_y - final_y
                };
                proof {
                    assert(distance + dx + dy <= (i + 1) * 2 * n) by (nonlinear_arith)
                        requires
                            distance <= i * 2 * n,
                            dx < n,
                            dy < n,
                    ;
                    assert((i + 1) * 2 * n <= 0x1_0000_0000_0000_0000u128 * 2 * 0x1_0000_0000u128)
                        by (nonlinear_arith)
                        requires
                            i < 0x1_0000_0000_0000_0000u128,
                            n < 0x1_0000_0000u128,
                    ;
                }
                distance = distance + dx as u128 + dy as u128;
            } else {
                proof {
                    assert(distance <= (i + 1) * 2 * n) by (nonlinear_arith)
                        requires
                            distance <= i * 2 * n,
                    ;
                }
            }
            i += 1;
        }
        assert(self.board@.subrange(0, i as int) =~= self.board@);
        assert(i * 2 * n <= 0x1_0000_0000_0000_0000u128 * 2 * 0x1_0000_0000u128) by (nonlinear_arith)
            requires
                i < 0x1_0000_0000_0000_0000u128,
                n < 0x1_0000_0000u128,
        ;
        distance
    }

    fn copy_moves(v: &Vec<usize>) -> (r: Vec<usize>)
        ensures
            r@ == v@,
    {
        let mut r: Vec<usize> = Vec::new();
        let mut i: usize = 0;
        while i < v.len()
            invariant
                i <= v@.len(),
                r@ == v@.subrange(0, i as int),
            decreases v@.len() - i,
        {
            r.push(v[i]);
            i += 1;
            assert(r@ =~= v@.subrange(0, i as int));
        }
        assert(r@ =~= v@);
        r
    }

    /// A* search ordered by moves taken plus Manhattan distance, with a set
    /// of expanded states. Returns the positions the Missing tile moves to,
    /// in order, to reach the solved board, or `None` when the queue runs
    /// out. On a solved board the answer is the empty list.
    pub fn a_star_solve(&self) -> (r: Option<Vec<usize>>)
        requires
            self.wf(),
        ensures
            self.tiles().len() > 0 && self.is_won() ==> r is Some && r->0@.len() == 0,
            match r {
                Some(steps) => legal_walk(self.side() as int, self.position(), steps@) && is_solved(
                    walk(self.position(), steps@).0,
                ),
                None => true,
            },
            r is Some <==> solvable_by_moves(self.side() as int, self.position()),
            self.in_play() && !self.is_won() && one_move_from_solved(self.side() as int, self.position())
                ==> (r matches Some(v) && v@.len() == 1),
            r matches Some(v) ==> forall|ps: Seq<usize>|
                legal_walk(self.side() as int, self.position(), ps) && #[trigger] is_solved(walk(self.position(), ps).0)
                    && ps.len() < cost_limit() ==> v@.len() <= ps.len(),
    {
        let start = self.snapshot();
        if start.check_win() {
            proof {
                assert(legal_walk(self.side() as int, self.position(), Seq::<usize>::empty()));
                assert(is_solved(walk(self.position(), Seq::<usize>::empty()).0));
            }
            return Some(Vec::new());
        }
        proof {
            lemma_not_won_in_play(&start);
        }
        let n = self.n;
        let ghost nn = n as int;
        let ghost bound = power(nn * nn, (nn * nn + 1) as nat);
        let ghost one = one_move_from_solved(nn, self.position());
        let ghost solving_move = choose|p: int| adjacent(nn, self.position().1, p) && #[trigger] is_solved(step(self.position(), p).0);
        let mut visited = StateSet::new();
        let ghost mut gmap: Map<Seq<usize>, int> = Map::empty();
        let mut frontier: Frontier<State> = Frontier::new();
        let first = State { cost: 0, board: start, steps: Vec::new() };
        proof {
            assert(walk(self.position(), first.steps@) == first.board.position());
            assert(legal_walk(nn, self.position(), first.steps@));
            assert(state_ok(*self, first, 0));
            lemma_visited_bound(nn, visited@);
        }
        let ghost v0 = frontier@;
        frontier.push(0, first);
        proof {
            lemma_frontier_push(*self, v0, frontier@, 0, first);
            lemma_queued_push(v0, frontier@, 0, first);
            assert(frontier@[0] =~= seq![first]);
        }
        loop
            invariant
                frontier.wf(),
                frontier_ok(*self, frontier@),
                self.in_play(),
                !(self.tiles().len() > 0 && self.is_won()),
                n == self.n,
                nn == n,
                bound == power(nn * nn, (nn * nn + 1) as nat),
                visited.wf(),
                visited@.finite(),
                keys_in_play(nn, visited@),
                visited@.len() <= bound,
                keys_unsolved(nn, visited@),
                search_closed(nn, visited@, gmap, frontier@),
                recorded_shortest(nn, self.position(), visited@, gmap),
                visited@.contains(key_of(self.position())) || queued(frontier@, self.position(), 0),
                valid_position(nn, self.position()),
                one == one_move_from_solved(nn, self.position()),
                one ==> adjacent(nn, self.position().1, solving_move) && is_solved(step(self.position(), solving_move).0),
                one ==> (visited@.len() == 0 && only_start(frontier@)) || next_bucket_ready(frontier@),
            decreases bound - visited@.len(), total(frontier@),
        {
            let ghost before = frontier@;
            proof {
                lemma_total_nonneg(before);
            }
            match frontier.pop() {
                None => {
                    proof {
                        lemma_queued_empty(before, self.position(), 0);
                        assert forall|s: Position, p: int|
                            valid_position(nn, s) && #[trigger] visited@.contains(key_of(s)) && #[trigger] adjacent(
                                nn,
                                s.1,
                                p,
                            ) implies visited@.contains(key_of(step(s, p))) by {
                            lemma_queued_empty(before, step(s, p), gmap[key_of(s)] + 1);
                        }
                        assert(closed_under_moves(nn, visited@));
                        lemma_closed_no_solution(nn, visited@, self.position());
                    }
                    return None;
                },
                Some((prio, state)) => {
                    proof {
                        lemma_frontier_pop(*self, before, prio as int);
                        lemma_total_nonneg(frontier@);
                        if one && next_bucket_ready(before) {
                            assert(prio == 1);
                            assert(state.steps@.len() > 0);
                            lemma_manhattan_nonneg(nn, state.board.tiles());
                            lemma_manhattan_zero_solved(nn, state.board.position());
                        }
                        if one && visited@.len() == 0 && only_start(before) {
                            assert(prio == 0);
                            assert(state == before[0][0]);
                            assert(walk(self.position(), state.steps@) == self.position());
                            assert(frontier@.len() == 1 && frontier@[0].len() == 0);
                        }
                    }
                    if state.board.check_win() {
                        proof {
                            assert(walk(self.position(), state.steps@).0 == state.board.tiles());
                            assert(is_solved(walk(self.position(), state.steps@).0));
                            lemma_manhattan_solved(nn, state.board.tiles());
                            let pos = self.position();
                            assert forall|ps: Seq<usize>|
                                legal_walk(nn, pos, ps) && #[trigger] is_solved(walk(pos, ps).0) && ps.len()
                                    < cost_limit() implies state.steps@.len() <= ps.len() by {
                                let goal = walk(pos, ps);
                                lemma_walk_valid(nn, pos, ps);
                                lemma_manhattan_solved(nn, goal.0);
                                if visited@.contains(key_of(goal)) {
                                    let s2 = choose|s2: Position|
                                        valid_position(nn, s2) && key_of(s2) == key_of(goal) && !is_solved(s2.0);
                                    lemma_key_injective(nn, s2, goal);
                                }
                                lemma_frontier_ahead(*self, visited@, gmap, before, ps);
                                let (c, k) = choose|c: int, k: int|
                                    0 <= c < before.len() && 0 <= k < before[c].len() && (#[trigger] before[c][k]).cost
                                        <= ps.len() + manhattan(nn, goal.0);
                                assert(state_ok(*self, before[c][k], c));
                                assert(before[c].len() > 0);
                            }
                        }
                        return Some(state.steps);
                    }
                    let ghost x = state.board.position();
                    let ghost first_round = one && visited@.len() == 0 && only_start(before);
                    let ghost popped = frontier@;
                    let key = state.board.state_key();
                    let ghost old_visited = visited@;
                    let ghost old_g = gmap;
                    let ghost g2 = if visited@.contains(key@) {
                        gmap
                    } else {
                        gmap.insert(key@, state.steps@.len() as int)
                    };
                    proof {
                        lemma_closed_after_pop(nn, visited@, gmap, g2, before, prio as int);
                        if !visited@.contains(key_of(self.position())) {
                            lemma_queued_pop(before, prio as int, self.position(), 0);
                        }
                        gmap = g2;
                    }
                    if visited.contains(&key) {
                        proof {
                            assert(visited@.insert(key@) =~= visited@);
                        }
                    } else {
                        proof {
                            assert(valid_position(nn, state.board.position()));
                            assert(keys_in_play(nn, visited@.insert(key@)));
                            lemma_visited_bound(nn, visited@.insert(key@));
                        }
                        visited.insert(key);
                        proof {
                            let pos = self.position();
                            assert forall|ps: Seq<usize>|
                                legal_walk(nn, pos, ps) && #[trigger] visited@.contains(key_of(walk(pos, ps))) && ps.len()
                                    + manhattan(nn, walk(pos, ps).0) < cost_limit() implies gmap[key_of(walk(pos, ps))]
                                <= ps.len() by {
                                if key_of(walk(pos, ps)) == key_of(x) {
                                    lemma_walk_valid(nn, pos, ps);
                                    lemma_key_injective(nn, walk(pos, ps), x);
                                    if ps.len() < state.steps@.len() {
                                        lemma_frontier_ahead(*self, old_visited, old_g, before, ps);
                                        let (c, k) = choose|c: int, k: int|
                                            0 <= c < before.len() && 0 <= k < before[c].len()
                                                && (#[trigger] before[c][k]).cost <= ps.len() + manhattan(nn, walk(pos, ps).0);
                                        assert(state_ok(*self, before[c][k], c));
                                        assert(before[c].len() > 0);
                                    }
                                } else {
                                    assert(old_visited.contains(key_of(walk(pos, ps))));
                                }
                            }
                            assert(keys_unsolved(nn, visited@)) by {
                                assert forall|k: Seq<usize>| #[trigger] visited@.contains(k) implies exists|s: Position|
                                    valid_position(nn, s) && key_of(s) == k && !is_solved(s.0) by {
                                    if k == key_of(x) {
                                        assert(valid_position(nn, x) && !is_solved(x.0));
                                    }
                                }
                            }
                        }
                        let moves = state.board.get_swappable();
                        let mut i: usize = 0;
                        while i < moves.len()
                            invariant
                                frontier.wf(),
                                frontier_ok(*self, frontier@),
                                state_ok(*self, state, prio as int),
                                self.in_play(),
                                n == self.n,
                                forall|k: int| 0 <= k < moves@.len() ==> adjacent(
                                    nn,
                                    state.board.blank(),
                                    #[trigger] moves@[k] as int,
                                ),
                                nn == n,
                                valid_position(nn, x),
                                x == state.board.position(),
                                closed_except(nn, visited@, gmap, frontier@, key_of(x)),
                                gmap[key_of(x)] == state.steps@.len(),
                                forall|j: int|
                                    0 <= j < i ==> queued(frontier@, step(x, #[trigger] moves@[j] as int), gmap[key_of(x)] + 1),
                                visited@.contains(key_of(self.position())) || queued(frontier@, self.position(), 0),
                                i <= moves@.len(),
                                forall|p: int| adjacent(nn, x.1, p) ==> moves@.contains(p as usize),
                                first_round ==> x == self.position() && state.steps@.len() == 0,
                                first_round ==> adjacent(nn, self.position().1, solving_move) && is_solved(step(self.position(), solving_move).0),
                                first_round ==> frontier@.len() >= 1 && frontier@[0].len() == 0,
                                first_round && moves@.subrange(0, i as int).contains(solving_move as usize) ==> next_bucket_ready(frontier@),
                            decreases moves@.len() - i,
                        {
                            let p = moves[i];
                            proof {
                                lemma_adjacent(nn, state.board.blank(), p as int);
                            }
                            let mut nb = state.board.snapshot();
                            nb.swap(p);
                            let mut ns = Self::copy_moves(&state.steps);
                            let ghost old_steps = ns@;
                            ns.push(p);
                            let h = nb.manhattan_distance();
                            let cost = ns.len() as u128 + h;
                            let child = State { cost, board: nb, steps: ns };
                            proof {
                                assert(ns@.drop_last() =~= old_steps);
                                assert(state_ok(*self, child, priority(cost) as int));
                            }
                            let ghost v1 = frontier@;
                            let prio_c = if cost < (usize::MAX - 1) as u128 {
                                cost as usize
                            } else {
                                usize::MAX - 1
                            };
                            frontier.push(prio_c, child);
                            proof {
                                if first_round && moves@[i as int] == solving_move as usize {
                                    lemma_adjacent(nn, self.position().1, solving_move);
                                    assert(nb.tiles() == step(self.position(), solving_move).0);
                                    lemma_manhattan_solved(nn, nb.tiles());
                                    assert(prio_c == 1);
                                }
                                let sub = moves@.subrange(0, i + 1);
                                if first_round && sub.contains(solving_move as usize) {
                                    let j = choose|j: int| 0 <= j < sub.len() && sub[j] == solving_move as usize;
                                    if j < i {
                                        assert(moves@.subrange(0, i as int)[j] == solving_move as usize);
                                    }
                                }
                                if first_round {
                                    assert(frontier@[0] == v1[0]);
                                }
                                lemma_frontier_push(*self, v1, frontier@, prio_c as int, child);
                                lemma_queued_push(v1, frontier@, prio_c as int, child);
                                assert(child.board.position() == step(x, moves@[i as int] as int));
                                assert forall|s: Position, q: int|
                                    valid_position(nn, s) && #[trigger] visited@.contains(key_of(s)) && #[trigger] adjacent(
                                        nn,
                                        s.1,
                                        q,
                                    ) && key_of(s) != key_of(x) implies visited@.contains(key_of(step(s, q))) || queued(
                                    frontier@,
                                    step(s, q),
                                    gmap[key_of(s)] + 1,
                                ) by {
                                    if !visited@.contains(key_of(step(s, q))) {
                                        assert(queued(v1, step(s, q), gmap[key_of(s)] + 1));
                                    }
                                }
                            }
                            i += 1;
                        }
                        proof {
                            lemma_close_expansion(nn, visited@, gmap, frontier@, x, moves@);
                            if first_round {
                                assert(moves@.subrange(0, moves@.len() as int) =~= moves@);
                            }
                        }
                    }
                },
            }
        }
    }
}

} // verus!
