use crate::board::{is_solved, swapped, NBoard};
use crate::closure::{closed_under_moves, keys_unsolved, lemma_closed_no_solution, step};
use crate::grid::{adjacent, lemma_adjacent};
use crate::keys::{key_of, lemma_bounded_keys, lemma_key_digits, lemma_key_injective, power};
use crate::moves::{solvable_by_moves, valid_position, Position};
use crate::parity::parity_rule;
use crate::solvability::{lemma_parity_violation_unsolvable, lemma_solution_path_solvable};
use crate::state_set::StateSet;
use vstd::prelude::*;

verus! {

/// `b` follows `a` by one legal move: the Missing tile of `a` moved to an
/// adjacent position, exchanging places with the tile there.
pub open(crate) spec fn one_move(a: NBoard, b: NBoard) -> bool {
    &&& b.side() == a.side()
    &&& b.template() == a.template()
    &&& adjacent(a.side() as int, a.blank(), b.blank())
    &&& b.tiles() == swapped(a.tiles(), a.blank(), b.blank())
}

/// `path` starts at `start`, each board follows the one before by a legal
/// move, and the last board is solved.
pub open(crate) spec fn forward_path(start: NBoard, path: Seq<NBoard>) -> bool {
    &&& path.len() >= 1
    &&& path[0].same(&start)
    &&& forall|i: int| 0 <= i < path.len() - 1 ==> one_move(#[trigger] path[i], path[i + 1])
    &&& path.last().is_won()
}

/// `path` is a solution for `start` reported from the solved end: the first
/// board is solved, each board is one legal move after the board following
/// it, and the last board is `start`.
pub open(crate) spec fn solution_path(start: NBoard, path: Seq<NBoard>) -> bool {
    &&& path.len() >= 1
    &&& path.last().same(&start)
    &&& forall|i: int| 0 <= i < path.len() - 1 ==> one_move(#[trigger] path[i + 1], path[i])
    &&& path[0].is_won()
}

/// Reading a path from the other end turns one form into the other.
pub proof fn lemma_reverse_path(start: NBoard, path: Seq<NBoard>)
    ensures
        forward_path(start, path) ==> solution_path(start, path.reverse()),
        solution_path(start, path) ==> forward_path(start, path.reverse()),
{
    let r = path.reverse();
    let len = path.len() as int;
    if forward_path(start, path) {
        assert forall|i: int| 0 <= i < r.len() - 1 implies one_move(#[trigger] r[i + 1], r[i]) by {
            assert(r[i + 1] == path[len - 2 - i] && r[i] == path[len - 1 - i]);
        }
        assert(r.last() == path[0]);
        assert(r[0] == path.last());
    }
    if solution_path(start, path) {
        assert forall|i: int| 0 <= i < r.len() - 1 implies one_move(#[trigger] r[i], r[i + 1]) by {
            let j = len - 2 - i;
            assert(one_move(path[j + 1], path[j]));
            assert(r[i] == path[j + 1] && r[i + 1] == path[j]);
        }
        assert(r[0] == path.last());
        assert(r.last() == path[0]);
    }
}

/// Sum over the frames of a depth-first search of the work each has left,
/// counting one for leaving the frame.
pub open(crate) spec fn pending(next: Seq<usize>) -> int
    decreases next.len(),
{
    if next.len() == 0 {
        0
    } else {
        pending(next.drop_last()) + 5 - next.last()
    }
}

/// The keys in `v` are keys of states in play on a board of side `n`.
pub open(crate) spec fn keys_in_play(n: int, v: Set<Seq<usize>>) -> bool {
    forall|k: Seq<usize>| #[trigger] v.contains(k) ==> exists|s| valid_position(n, s) && key_of(s) == k
}

/// A finite set of keys of states in play has at most
/// (n * n) to the power n * n + 1 members.
pub proof fn lemma_visited_bound(n: int, v: Set<Seq<usize>>)
    requires
        v.finite(),
        n >= 2,
        keys_in_play(n, v),
    ensures
        v.len() <= power(n * n, (n * n + 1) as nat),
{
    assert(n * n >= 1) by (nonlinear_arith)
        requires
            n >= 2,
    ;
    assert forall|k: Seq<usize>| #[trigger] v.contains(k) implies k.len() == n * n + 1
        && crate::keys::digits_below(k, n * n) by {
        let s = choose|s| valid_position(n, s) && key_of(s) == k;
        lemma_key_digits(n, s);
    }
    lemma_bounded_keys(v, (n * n + 1) as nat, n * n);
}

/// A well-formed board that is not solved is in play.
pub proof fn lemma_not_won_in_play(b: &NBoard)
    requires
        b.wf(),
        !(b.tiles().len() > 0 && b.is_won()),
    ensures
        b.in_play(),
{
    let n = b.side() as int;
    assert(n * n >= 4) by (nonlinear_arith)
        requires
            n >= 2,
    ;
    if b.fresh() {
        assert(is_solved(b.tiles()));
    }
}

/// Frames of a depth-first search on boards like `start`: each in play,
/// not solved, each one legal move after the one before, and with a list of
/// moves of which `next` have been tried.
pub open(crate) spec fn frames_ok(
    start: NBoard,
    frames: Seq<NBoard>,
    nbrs: Seq<Vec<usize>>,
    next: Seq<usize>,
) -> bool {
    &&& frames.len() == nbrs.len()
    &&& frames.len() == next.len()
    &&& frames.len() >= 1
    &&& frames[0].same(&start)
    &&& forall|f: int|
        0 <= f < frames.len() ==> (#[trigger] frames[f]).in_play() && frames[f].side() == start.side()
            && frames[f].template() == start.template() && !frames[f].is_won()
    &&& forall|f: int| 0 <= f < frames.len() - 1 ==> one_move(#[trigger] frames[f], frames[f + 1])
    &&& forall|f: int, k: int|
        0 <= f < frames.len() && 0 <= k < nbrs[f]@.len() ==> adjacent(
            start.side() as int,
            frames[f].blank(),
            #[trigger] nbrs[f]@[k] as int,
        )
    &&& forall|f: int| 0 <= f < frames.len() ==> #[trigger] next[f] <= nbrs[f]@.len() <= 4
}

proof fn lemma_pending_positive(next: Seq<usize>)
    requires
        forall|f: int| 0 <= f < next.len() ==> #[trigger] next[f] <= 4,
    ensures
        pending(next) >= next.len(),
    decreases next.len(),
{
    if next.len() > 0 {
        lemma_pending_positive(next.drop_last());
    }
}

proof fn lemma_frames_pending(
    start: NBoard,
    frames: Seq<NBoard>,
    nbrs: Seq<Vec<usize>>,
    next: Seq<usize>,
)
    requires
        frames_ok(start, frames, nbrs, next),
    ensures
        forall|f: int| 0 <= f < next.len() ==> #[trigger] next[f] <= 4,
        pending(next) >= next.len(),
{
    assert forall|f: int| 0 <= f < next.len() implies #[trigger] next[f] <= 4 by {
        assert(next[f] <= nbrs[f]@.len() <= 4);
    }
    lemma_pending_positive(next);
}

/// Trying one more move of the top frame keeps the frames well formed and
/// lowers the pending work by one.
proof fn lemma_frames_advance(
    start: NBoard,
    frames: Seq<NBoard>,
    nbrs: Seq<Vec<usize>>,
    next: Seq<usize>,
)
    requires
        frames_ok(start, frames, nbrs, next),
        next.last() < nbrs.last()@.len(),
    ensures
        ({
            let next2 = next.update(next.len() - 1, (next.last() + 1) as usize);
            &&& frames_ok(start, frames, nbrs, next2)
            &&& pending(next2) == pending(next) - 1
            &&& pending(next) >= 1
        }),
{
    assert forall|f: int| 0 <= f < next.len() implies #[trigger] next[f] <= 4 by {
        assert(next[f] <= nbrs[f]@.len() <= 4);
    }
    lemma_pending_positive(next);
    let next2 = next.update(next.len() - 1, (next.last() + 1) as usize);
    assert(next2.drop_last() =~= next.drop_last());
    assert forall|f: int| 0 <= f < frames.len() implies #[trigger] next2[f] <= nbrs[f]@.len() <= 4 by {
        assert(next[f] <= nbrs[f]@.len() <= 4);
    }
}

/// Pushing a frame for a board one move after the top keeps the frames well formed.
#[verifier::rlimit(40)]
proof fn lemma_frames_push(
    start: NBoard,
    frames: Seq<NBoard>,
    nbrs: Seq<Vec<usize>>,
    next: Seq<usize>,
    child: NBoard,
    moves: Vec<usize>,
)
    requires
        frames_ok(start, frames, nbrs, next),
        one_move(frames.last(), child),
        child.in_play(),
        !child.is_won(),
        forall|k: int| 0 <= k < moves@.len() ==> adjacent(start.side() as int, child.blank(), #[trigger] moves@[k] as int),
        moves@.len() <= 4,
    ensures
        frames_ok(start, frames.push(child), nbrs.push(moves), next.push(0)),
        pending(next.push(0)) == pending(next) + 5,
{
    let f2 = frames.push(child);
    let n2 = nbrs.push(moves);
    let x2 = next.push(0);
    assert(x2.drop_last() =~= next);
    assert forall|f: int| 0 <= f < f2.len() - 1 implies one_move(#[trigger] f2[f], f2[f + 1]) by {
        if f == frames.len() - 1 {
            assert(f2[f + 1] == child);
        } else {
            assert(f2[f] == frames[f] && f2[f + 1] == frames[f + 1]);
        }
    }
    assert forall|f: int, k: int| 0 <= f < f2.len() && 0 <= k < n2[f]@.len() implies adjacent(
        start.side() as int,
        f2[f].blank(),
        #[trigger] n2[f]@[k] as int,
    ) by {
        if f < frames.len() {
            assert(n2[f] == nbrs[f]);
        }
    }
    assert forall|f: int| 0 <= f < f2.len() implies #[trigger] x2[f] <= n2[f]@.len() <= 4 by {
        if f < frames.len() {
            assert(x2[f] == next[f] && n2[f] == nbrs[f]);
        }
    }
}

/// Dropping the top frame, all of whose moves were tried, lowers the pending
/// work; what is left is well formed unless it is empty.
proof fn lemma_frames_pop(
    start: NBoard,
    frames: Seq<NBoard>,
    nbrs: Seq<Vec<usize>>,
    next: Seq<usize>,
)
    requires
        frames_ok(start, frames, nbrs, next),
    ensures
        pending(next.drop_last()) < pending(next),
        pending(next) >= 1,
        pending(next.drop_last()) >= 0,
        frames.len() > 1 ==> frames_ok(start, frames.drop_last(), nbrs.drop_last(), next.drop_last()),
{
    lemma_frames_pending(start, frames, nbrs, next);
    assert forall|f: int| 0 <= f < next.drop_last().len() implies #[trigger] next.drop_last()[f] <= 4 by {
        assert(next.drop_last()[f] == next[f]);
    }
    lemma_pending_positive(next.drop_last());
    if frames.len() > 1 {
        let f2 = frames.drop_last();
        let n2 = nbrs.drop_last();
        let x2 = next.drop_last();
        assert forall|f: int| 0 <= f < f2.len() - 1 implies one_move(#[trigger] f2[f], f2[f + 1]) by {
            assert(f2[f] == frames[f] && f2[f + 1] == frames[f + 1]);
        }
        assert forall|f: int| 0 <= f < f2.len() implies (#[trigger] f2[f]).in_play() && f2[f].side()
            == start.side() && f2[f].template() == start.template() && !f2[f].is_won() by {
            assert(f2[f] == frames[f]);
        }
        assert forall|f: int, k: int| 0 <= f < f2.len() && 0 <= k < n2[f]@.len() implies adjacent(
            start.side() as int,
            f2[f].blank(),
            #[trigger] n2[f]@[k] as int,
        ) by {
            assert(f2[f] == frames[f] && n2[f] == nbrs[f]);
        }
        assert forall|f: int| 0 <= f < f2.len() implies #[trigger] x2[f] <= n2[f]@.len() <= 4 by {
            assert(x2[f] == next[f] && n2[f] == nbrs[f]);
        }
    }
}

/// A solved board one move after the top frame completes a solution path.
proof fn lemma_frames_solved(
    start: NBoard,
    frames: Seq<NBoard>,
    nbrs: Seq<Vec<usize>>,
    next: Seq<usize>,
    child: NBoard,
)
    requires
        frames_ok(start, frames, nbrs, next),
        one_move(frames.last(), child),
        child.is_won(),
    ensures
        forward_path(start, frames.push(child)),
{
    let f2 = frames.push(child);
    assert forall|f: int| 0 <= f < f2.len() - 1 implies one_move(#[trigger] f2[f], f2[f + 1]) by {
        if f == frames.len() - 1 {
            assert(f2[f + 1] == child);
        } else {
            assert(f2[f] == frames[f] && f2[f + 1] == frames[f + 1]);
        }
    }
}

/// Some frame of the search holds state `s`.
pub open(crate) spec fn on_stack(frames: Seq<NBoard>, s: Position) -> bool {
    exists|f: int| 0 <= f < frames.len() && (#[trigger] frames[f]).position() == s
}

/// What the search has covered: each frame's tried moves lead to visited
/// states, each frame's list holds all its legal moves, and every legal move
/// from a visited state that is no longer on the stack leads to a visited state.
pub open(crate) spec fn dfs_closed(
    n: int,
    visited: Set<Seq<usize>>,
    frames: Seq<NBoard>,
    nbrs: Seq<Vec<usize>>,
    next: Seq<usize>,
) -> bool {
    &&& forall|f: int, k: int|
        0 <= f < frames.len() && 0 <= k < next[f] ==> visited.contains(
            key_of(step(frames[f].position(), #[trigger] nbrs[f]@[k] as int)),
        )
    &&& forall|f: int, p: int|
        0 <= f < frames.len() && #[trigger] adjacent(n, frames[f].blank(), p) ==> nbrs[f]@.contains(
            p as usize,
        )
    &&& forall|s: Position, p: int|
        valid_position(n, s) && #[trigger] visited.contains(key_of(s)) && #[trigger] adjacent(n, s.1, p)
            && !on_stack(frames, s) ==> visited.contains(key_of(step(s, p)))
}

/// Trying a move of the top frame that leads to a visited state keeps the
/// coverage.
proof fn lemma_closed_skip(
    start: NBoard,
    visited: Set<Seq<usize>>,
    frames: Seq<NBoard>,
    nbrs: Seq<Vec<usize>>,
    next: Seq<usize>,
)
    requires
        frames_ok(start, frames, nbrs, next),
        dfs_closed(start.side() as int, visited, frames, nbrs, next),
        next.last() < nbrs.last()@.len(),
        visited.contains(key_of(step(frames.last().position(), nbrs.last()@[next.last() as int] as int))),
    ensures
        dfs_closed(
            start.side() as int,
            visited,
            frames,
            nbrs,
            next.update(next.len() - 1, (next.last() + 1) as usize),
        ),
{
    let next2 = next.update(next.len() - 1, (next.last() + 1) as usize);
    assert forall|f: int, k: int| 0 <= f < frames.len() && 0 <= k < next2[f] implies visited.contains(
        key_of(step(frames[f].position(), #[trigger] nbrs[f]@[k] as int)),
    ) by {
        if !(f == next.len() - 1 && k == next.last()) {
            assert(k < next[f]);
        }
    }
}

/// Visiting a new state one move after the top frame and pushing a frame
/// for it keeps the coverage.
proof fn lemma_closed_descend(
    start: NBoard,
    visited: Set<Seq<usize>>,
    frames: Seq<NBoard>,
    nbrs: Seq<Vec<usize>>,
    next: Seq<usize>,
    child: NBoard,
    moves: Vec<usize>,
)
    requires
        frames_ok(start, frames, nbrs, next),
        dfs_closed(start.side() as int, visited, frames, nbrs, next),
        next.last() < nbrs.last()@.len(),
        child.position() == step(frames.last().position(), nbrs.last()@[next.last() as int] as int),
        child.in_play(),
        child.side() == start.side(),
        forall|p: int| adjacent(start.side() as int, child.blank(), p) ==> moves@.contains(p as usize),
    ensures
        dfs_closed(
            start.side() as int,
            visited.insert(key_of(child.position())),
            frames.push(child),
            nbrs.push(moves),
            next.update(next.len() - 1, (next.last() + 1) as usize).push(0),
        ),
{
    let n = start.side() as int;
    let v2 = visited.insert(key_of(child.position()));
    let f2 = frames.push(child);
    let n2 = nbrs.push(moves);
    let next2 = next.update(next.len() - 1, (next.last() + 1) as usize);
    let x2 = next2.push(0);
    assert forall|f: int, k: int| 0 <= f < f2.len() && 0 <= k < x2[f] implies v2.contains(
        key_of(step(f2[f].position(), #[trigger] n2[f]@[k] as int)),
    ) by {
        assert(f < frames.len());
        assert(f2[f] == frames[f] && n2[f] == nbrs[f]);
        if !(f == next.len() - 1 && k == next.last()) {
            assert(k < next[f]);
        }
    }
    assert forall|f: int, p: int| 0 <= f < f2.len() && #[trigger] adjacent(n, f2[f].blank(), p) implies n2[f]@.contains(
        p as usize,
    ) by {
        if f < frames.len() {
            assert(f2[f] == frames[f] && n2[f] == nbrs[f]);
        }
    }
    assert forall|s: Position, p: int|
        valid_position(n, s) && #[trigger] v2.contains(key_of(s)) && #[trigger] adjacent(n, s.1, p) && !on_stack(
            f2,
            s,
        ) implies v2.contains(key_of(step(s, p))) by {
        assert(f2[f2.len() - 1] == child);
        if key_of(s) == key_of(child.position()) {
            lemma_key_injective(n, s, child.position());
        } else {
            if on_stack(frames, s) {
                let f = choose|f: int| 0 <= f < frames.len() && (#[trigger] frames[f]).position() == s;
                assert(f2[f] == frames[f]);
            }
        }
    }
}

/// Dropping the top frame, all of whose moves were tried, keeps the
/// coverage; once no frame is left, the visited states are closed under moves.
proof fn lemma_closed_pop(
    start: NBoard,
    visited: Set<Seq<usize>>,
    frames: Seq<NBoard>,
    nbrs: Seq<Vec<usize>>,
    next: Seq<usize>,
)
    requires
        frames_ok(start, frames, nbrs, next),
        dfs_closed(start.side() as int, visited, frames, nbrs, next),
        next.last() >= nbrs.last()@.len(),
    ensures
        dfs_closed(start.side() as int, visited, frames.drop_last(), nbrs.drop_last(), next.drop_last()),
        frames.len() == 1 ==> closed_under_moves(start.side() as int, visited),
{
    let n = start.side() as int;
    let top = frames.len() - 1;
    let f2 = frames.drop_last();
    let n2 = nbrs.drop_last();
    let x2 = next.drop_last();
    assert forall|f: int, k: int| 0 <= f < f2.len() && 0 <= k < x2[f] implies visited.contains(
        key_of(step(f2[f].position(), #[trigger] n2[f]@[k] as int)),
    ) by {
        assert(f2[f] == frames[f] && n2[f] == nbrs[f] && x2[f] == next[f]);
    }
    assert forall|f: int, p: int| 0 <= f < f2.len() && #[trigger] adjacent(n, f2[f].blank(), p) implies n2[f]@.contains(
        p as usize,
    ) by {
        assert(f2[f] == frames[f] && n2[f] == nbrs[f]);
    }
    assert forall|s: Position, p: int|
        valid_position(n, s) && #[trigger] visited.contains(key_of(s)) && #[trigger] adjacent(n, s.1, p) && !on_stack(
            f2,
            s,
        ) implies visited.contains(key_of(step(s, p))) by {
        if on_stack(frames, s) {
            let f = choose|f: int| 0 <= f < frames.len() && (#[trigger] frames[f]).position() == s;
            if f < top {
                assert(f2[f] == frames[f]);
            } else {
                assert(adjacent(n, frames[top].blank(), p));
                let k = choose|k: int| 0 <= k < nbrs[top]@.len() && nbrs[top]@[k] == p as usize;
                crate::grid::lemma_adjacent(n, s.1, p);
                assert(visited.contains(key_of(step(frames[top].position(), nbrs[top]@[k] as int))));
            }
        }
    }
    if frames.len() == 1 {
        assert forall|s: Position, p: int|
            valid_position(n, s) && #[trigger] visited.contains(key_of(s)) && #[trigger] adjacent(n, s.1, p) implies visited.contains(
            key_of(step(s, p)),
        ) by {
            assert(!on_stack(f2, s));
        }
    }
}

/// A board in play that breaks the parity rule has no solution path.
proof fn lemma_no_path_if_parity_fails(start: NBoard, path: Seq<NBoard>)
    requires
        forward_path(start, path),
    ensures
        start.in_play() ==> parity_rule(start.side() as int, start.tiles(), start.blank()),
        solvable_by_moves(start.side() as int, start.position()),
{
    lemma_reverse_path(start, path);
    lemma_solution_path_solvable(start, path.reverse());
    if start.in_play() && !parity_rule(start.side() as int, start.tiles(), start.blank()) {
        lemma_parity_violation_unsolvable(start);
    }
}

impl NBoard {
    /// The boards of `v` in the opposite order.
    fn reversed(v: Vec<NBoard>) -> (r: Vec<NBoard>)
        ensures
            r@ == v@.reverse(),
    {
        let ghost orig = v@;
        let mut v = v;
        let mut r: Vec<NBoard> = Vec::new();
        while v.len() > 0
            invariant
                v@ == orig.subrange(0, v@.len() as int),
                r@.len() + v@.len() == orig.len(),
                forall|j: int| 0 <= j < r@.len() ==> #[trigger] r@[j] == orig[orig.len() - 1 - j],
            decreases v@.len(),
        {
            let b = v.pop().unwrap();
            r.push(b);
            assert(v@ =~= orig.subrange(0, v@.len() as int));
        }
        assert(r@ =~= orig.reverse());
        r
    }

    /// Depth-first search with a set of visited states. Returns a path of
    /// boards reported from the solved end: a solved board first, each board
    /// one legal move after the one following it, and this board last; or
    /// `None` when no solved board is reachable. This board is left as it is.
    pub fn dfs_solve(&mut self) -> (r: Option<Vec<NBoard>>)
        requires
            old(self).wf(),
        ensures
            final(self).same(&*old(self)),
            match r {
                Some(path) => solution_path(*old(self), path@),
                None => true,
            },
            old(self).tiles().len() > 0 && old(self).is_won() ==> (r matches Some(p) && p@.len() == 1),
            old(self).in_play() && !parity_rule(old(self).side() as int, old(self).tiles(), old(self).blank())
                ==> r is None,
            r is Some <==> solvable_by_moves(old(self).side() as int, old(self).position()),
    {
        let start = self.snapshot();
        if start.check_win() {
            let mut path: Vec<NBoard> = Vec::new();
            path.push(start);
            proof {
                lemma_no_path_if_parity_fails(*self, path@);
                lemma_reverse_path(*self, path@);
                assert(path@.reverse() =~= path@);
            }
            return Some(path);
        }
        let n = self.n;
        let ghost nn = n as int;
        let ghost bound = power(nn * nn, (nn * nn + 1) as nat);
        let mut visited = StateSet::new();
        let first_key = start.state_key();
        proof {
            lemma_not_won_in_play(&start);
            assert(valid_position(nn, start.position()));
            assert(visited@.insert(first_key@).contains(first_key@));
        }
        visited.insert(first_key);
        let mut frames: Vec<NBoard> = Vec::new();
        let mut nbrs: Vec<Vec<usize>> = Vec::new();
        let mut next: Vec<usize> = Vec::new();
        nbrs.push(Self::get_available_to_swap(start.missing_index, n));
        next.push(0);
        frames.push(start);
        proof {
            lemma_visited_bound(nn, visited@);
            assert(next@.drop_last() =~= Seq::<usize>::empty());
            assert(frames_ok(*self, frames@, nbrs@, next@));
            assert(visited@.contains(key_of(self.position())));
            assert(keys_unsolved(nn, visited@)) by {
                assert forall|k: Seq<usize>| #[trigger] visited@.contains(k) implies exists|s: Position|
                    valid_position(nn, s) && key_of(s) == k && !is_solved(s.0) by {
                    assert(k == key_of(self.position()));
                    assert(valid_position(nn, self.position()) && !is_solved(self.position().0));
                }
            }
            assert forall|s: Position, q: int|
                valid_position(nn, s) && #[trigger] visited@.contains(key_of(s)) && #[trigger] adjacent(nn, s.1, q)
                    && !on_stack(frames@, s) implies visited@.contains(key_of(step(s, q))) by {
                lemma_key_injective(nn, s, self.position());
                assert(frames@[0].position() == s);
            }
            assert(dfs_closed(nn, visited@, frames@, nbrs@, next@));
        }
        loop
            invariant
                frames_ok(*self, frames@, nbrs@, next@),
                self.same(&*old(self)),
                self.in_play(),
                n == self.n,
                nn == n,
                bound == power(nn * nn, (nn * nn + 1) as nat),
                visited.wf(),
                visited@.finite(),
                keys_in_play(nn, visited@),
                visited@.len() <= bound,
                keys_unsolved(nn, visited@),
                dfs_closed(nn, visited@, frames@, nbrs@, next@),
                visited@.contains(key_of(self.position())),
                valid_position(nn, self.position()),
            decreases bound - visited@.len(), pending(next@),
        {
            let top = frames.len() - 1;
            if next[top] < nbrs[top].len() {
                let p = nbrs[top][next[top]];
                proof {
                    lemma_frames_advance(*self, frames@, nbrs@, next@);
                    lemma_adjacent(nn, frames@[top as int].blank(), p as int);
                }
                let ghost old_next = next@;
                let ghost old_frames = frames@;
                let ghost old_nbrs = nbrs@;
                next.set(top, next[top] + 1);
                let mut child = frames[top].snapshot();
                child.swap(p);
                assert(one_move(frames@[top as int], child));
                if child.check_win() {
                    proof {
                        lemma_frames_solved(*self, frames@, nbrs@, next@, child);
                    }
                    frames.push(child);
                    proof {
                        lemma_no_path_if_parity_fails(*self, frames@);
                        lemma_reverse_path(*self, frames@);
                    }
                    return Some(Self::reversed(frames));
                }
                let key = child.state_key();
                assert(child.position() == step(frames@.last().position(), nbrs@.last()@[old_next.last() as int] as int));
                if !visited.contains(&key) {
                    proof {
                        assert(valid_position(nn, child.position()));
                        assert(keys_in_play(nn, visited@.insert(key@)));
                        lemma_visited_bound(nn, visited@.insert(key@));
                    }
                    let ghost old_visited = visited@;
                    visited.insert(key);
                    assert(visited@ == old_visited.insert(key@));
                    assert(visited@.len() == old_visited.len() + 1);
                    let moves = Self::get_available_to_swap(child.missing_index, n);
                    proof {
                        lemma_frames_push(*self, frames@, nbrs@, next@, child, moves);
                        lemma_closed_descend(*self, old_visited, old_frames, old_nbrs, old_next, child, moves);
                        assert(keys_unsolved(nn, visited@)) by {
                            assert forall|k: Seq<usize>| #[trigger] visited@.contains(k) implies exists|s: Position|
                                valid_position(nn, s) && key_of(s) == k && !is_solved(s.0) by {
                                if k == key@ {
                                    assert(valid_position(nn, child.position()) && !is_solved(child.position().0));
                                }
                            }
                        }
                    }
                    nbrs.push(moves);
                    next.push(0);
                    frames.push(child);
                } else {
                    proof {
                        lemma_closed_skip(*self, visited@, old_frames, old_nbrs, old_next);
                    }
                }
            } else {
                proof {
                    lemma_frames_pop(*self, frames@, nbrs@, next@);
                    lemma_closed_pop(*self, visited@, frames@, nbrs@, next@);
                }
                frames.pop();
                nbrs.pop();
                next.pop();
                if frames.len() == 0 {
                    proof {
                        lemma_closed_no_solution(nn, visited@, self.position());
                    }
                    return None;
                }
            }
        }
    }
}

} // verus!
