use vstd::prelude::*;
use crate::model::{idx_of, lemma_idx_of_unique, spec_wins, wf, Board, Dir, StateV};
use crate::moves::{apply, entry_ok, legal_at};

verus! {

/// Each tagged move in turn names an existing block and is legal in the
/// state reached so far.
pub open spec fn path_ok(s: StateV, ms: Seq<(char, Dir)>) -> bool
    decreases ms.len(),
{
    ms.len() == 0 || {
        let i = idx_of(s.blocks, ms[0].0);
        0 <= i < s.blocks.len() && legal_at(s, i, ms[0].1) && path_ok(
            apply(s, i, ms[0].1),
            ms.drop_first(),
        )
    }
}

/// The state reached after replaying a path of tagged moves.
pub open spec fn path_end(s: StateV, ms: Seq<(char, Dir)>) -> StateV
    decreases ms.len(),
{
    if ms.len() == 0 {
        s
    } else {
        path_end(apply(s, idx_of(s.blocks, ms[0].0), ms[0].1), ms.drop_first())
    }
}

/// Extending a valid path by one move that is legal in its end state keeps
/// it valid and steps the end state by that move.
pub proof fn lemma_path_snoc(s: StateV, ms: Seq<(char, Dir)>, m: (char, Dir))
    requires
        path_ok(s, ms),
        0 <= idx_of(path_end(s, ms).blocks, m.0) < path_end(s, ms).blocks.len(),
        legal_at(path_end(s, ms), idx_of(path_end(s, ms).blocks, m.0), m.1),
    ensures
        path_ok(s, ms.push(m)),
        path_end(s, ms.push(m)) == apply(
            path_end(s, ms),
            idx_of(path_end(s, ms).blocks, m.0),
            m.1,
        ),
    decreases ms.len(),
{
    reveal_with_fuel(path_ok, 3);
    reveal_with_fuel(path_end, 3);
    if ms.len() == 0 {
        assert(ms.push(m)[0] == m);
        assert(ms.push(m).drop_first() =~= Seq::<(char, Dir)>::empty());
    } else {
        let s1 = apply(s, idx_of(s.blocks, ms[0].0), ms[0].1);
        assert(ms.push(m)[0] == ms[0]);
        assert(ms.push(m).drop_first() =~= ms.drop_first().push(m));
        lemma_path_snoc(s1, ms.drop_first(), m);
    }
}

/// Replaying a valid path never changes the number of blocks.
proof fn lemma_path_end_same_len(s: StateV, ms: Seq<(char, Dir)>)
    requires
        path_ok(s, ms),
    ensures
        path_end(s, ms).blocks.len() == s.blocks.len(),
    decreases ms.len(),
{
    if ms.len() > 0 {
        let i = idx_of(s.blocks, ms[0].0);
        lemma_path_end_same_len(apply(s, i, ms[0].1), ms.drop_first());
    }
}

/// Copy of a move list.
pub fn clone_path(p: &Vec<(char, Dir)>) -> (r: Vec<(char, Dir)>)
    ensures
        r@ == p@,
{
    let mut r: Vec<(char, Dir)> = Vec::new();
    let mut i: usize = 0;
    while i < p.len()
        invariant
            i <= p@.len(),
            r@ == p@.take(i as int),
        decreases p@.len() - i,
    {
        r.push(p[i]);
        proof {
            assert(p@.take(i + 1) =~= p@.take(i as int).push(p@[i as int]));
        }
        i = i + 1;
    }
    proof {
        assert(p@.take(p@.len() as int) =~= p@);
    }
    r
}

/// Whether some recorded board equals `b` (same size and block list).
pub fn contains_board(v: &Vec<Board>, b: &Board) -> (r: bool)
    ensures
        r <==> exists|k: int| 0 <= k < v@.len() && (#[trigger] v@[k])@ == b@,
{
    let mut i: usize = 0;
    while i < v.len()
        invariant
            i <= v@.len(),
            forall|k: int| 0 <= k < i ==> (#[trigger] v@[k])@ != b@,
        decreases v@.len() - i,
    {
        let e: &Board = &v[i];
        if e.eq(b) {
            return true;
        }
        i = i + 1;
    }
    false
}

/// The state `t` is on the search's records within `bound` moves: some
/// frontier entry of length at most `bound` ends at it, or it was
/// expanded at a recorded length of at most `bound`.
pub open spec fn covered(
    fr: Seq<(Vec<(char, Dir)>, Board)>,
    vs: Seq<Board>,
    vlens: Seq<int>,
    t: StateV,
    bound: int,
) -> bool {
    (exists|k: int|
        0 <= k < fr.len() && (#[trigger] fr[k]).1@ == t && fr[k].0@.len() <= bound) || (exists|
        k: int,
    |
        0 <= k < vs.len() && (#[trigger] vs[k])@ == t && vlens[k] <= bound)
}

/// Every expanded state's every legal successor is on the records with a
/// length at most one more than the state's own recorded length.
pub open spec fn successors_covered(
    fr: Seq<(Vec<(char, Dir)>, Board)>,
    vs: Seq<Board>,
    vlens: Seq<int>,
) -> bool {
    forall|v: int, i: int, d: Dir|
        0 <= v < vs.len() && #[trigger] legal_at(vs[v]@, i, d) ==> covered(
            fr,
            vs,
            vlens,
            apply(vs[v]@, i, d),
            vlens[v] + 1,
        )
}

/// A looser bound keeps a state covered.
proof fn lemma_covered_mono(
    fr: Seq<(Vec<(char, Dir)>, Board)>,
    vs: Seq<Board>,
    vlens: Seq<int>,
    t: StateV,
    b1: int,
    b2: int,
)
    requires
        covered(fr, vs, vlens, t, b1),
        b1 <= b2,
    ensures
        covered(fr, vs, vlens, t, b2),
{
    if exists|k: int| 0 <= k < fr.len() && (#[trigger] fr[k]).1@ == t && fr[k].0@.len() <= b1 {
        let k = choose|k: int|
            0 <= k < fr.len() && (#[trigger] fr[k]).1@ == t && fr[k].0@.len() <= b1;
        assert(fr[k].1@ == t && fr[k].0@.len() <= b2);
    } else {
        let k = choose|k: int| 0 <= k < vs.len() && (#[trigger] vs[k])@ == t && vlens[k] <= b1;
        assert(vs[k]@ == t && vlens[k] <= b2);
    }
}

/// Appending a frontier entry keeps every state covered.
proof fn lemma_covered_push_fr(
    fr: Seq<(Vec<(char, Dir)>, Board)>,
    e: (Vec<(char, Dir)>, Board),
    vs: Seq<Board>,
    vlens: Seq<int>,
    t: StateV,
    b: int,
)
    requires
        covered(fr, vs, vlens, t, b),
    ensures
        covered(fr.push(e), vs, vlens, t, b),
{
    if exists|k: int| 0 <= k < fr.len() && (#[trigger] fr[k]).1@ == t && fr[k].0@.len() <= b {
        let k = choose|k: int|
            0 <= k < fr.len() && (#[trigger] fr[k]).1@ == t && fr[k].0@.len() <= b;
        assert(fr.push(e)[k] == fr[k]);
        assert((fr.push(e)[k]).1@ == t && fr.push(e)[k].0@.len() <= b);
    }
}

/// Recording one more expanded state keeps every state covered.
proof fn lemma_covered_push_vs(
    fr: Seq<(Vec<(char, Dir)>, Board)>,
    vs: Seq<Board>,
    vlens: Seq<int>,
    x: Board,
    l: int,
    t: StateV,
    b: int,
)
    requires
        covered(fr, vs, vlens, t, b),
        vlens.len() == vs.len(),
    ensures
        covered(fr, vs.push(x), vlens.push(l), t, b),
{
    if exists|k: int| 0 <= k < vs.len() && (#[trigger] vs[k])@ == t && vlens[k] <= b {
        let k = choose|k: int| 0 <= k < vs.len() && (#[trigger] vs[k])@ == t && vlens[k] <= b;
        assert(vs.push(x)[k] == vs[k]);
        assert((vs.push(x)[k])@ == t && vlens.push(l)[k] <= b);
    }
}

/// Dequeuing the front entry keeps every state covered, provided the
/// dequeued state itself is recorded as expanded within its own length.
proof fn lemma_covered_after_pop(
    pre: Seq<(Vec<(char, Dir)>, Board)>,
    fr: Seq<(Vec<(char, Dir)>, Board)>,
    vs: Seq<Board>,
    vlens: Seq<int>,
    t: StateV,
    b: int,
)
    requires
        pre.len() > 0,
        fr == pre.remove(0),
        covered(pre, vs, vlens, t, b),
        exists|v: int|
            0 <= v < vs.len() && (#[trigger] vs[v])@ == pre[0].1@ && vlens[v] <= pre[0].0@.len(),
    ensures
        covered(fr, vs, vlens, t, b),
{
    if exists|k: int| 0 <= k < pre.len() && (#[trigger] pre[k]).1@ == t && pre[k].0@.len() <= b {
        let k = choose|k: int|
            0 <= k < pre.len() && (#[trigger] pre[k]).1@ == t && pre[k].0@.len() <= b;
        if k == 0 {
            let v = choose|v: int|
                0 <= v < vs.len() && (#[trigger] vs[v])@ == pre[0].1@ && vlens[v]
                    <= pre[0].0@.len();
            assert(vs[v]@ == t && vlens[v] <= b);
        } else {
            assert(fr[k - 1] == pre[k]);
            assert((fr[k - 1]).1@ == t && fr[k - 1].0@.len() <= b);
        }
    }
}

/// The length of the first goal state a breadth-first run dequeues is
/// minimal: walking any goal-reaching path through the records shows it
/// cannot be shorter than the length every queued entry has reached.
proof fn lemma_bfs_minimal(
    fr: Seq<(Vec<(char, Dir)>, Board)>,
    vs: Seq<Board>,
    vlens: Seq<int>,
    s0: StateV,
    gb: char,
    gp: (i32, i32),
    q: Seq<(char, Dir)>,
    j: int,
    lmin: int,
)
    requires
        wf(s0),
        path_ok(s0, q),
        spec_wins(path_end(s0, q), gb, gp),
        0 <= j <= q.len(),
        vlens.len() == vs.len(),
        covered(fr, vs, vlens, path_end(s0, q.take(j)), j),
        successors_covered(fr, vs, vlens),
        forall|k: int| 0 <= k < fr.len() ==> (#[trigger] fr[k]).0@.len() >= lmin,
        forall|v: int| 0 <= v < vs.len() ==> !spec_wins((#[trigger] vs[v])@, gb, gp),
    ensures
        q.len() >= lmin,
    decreases q.len() - j,
{
    let t = path_end(s0, q.take(j));
    if exists|k: int| 0 <= k < fr.len() && (#[trigger] fr[k]).1@ == t && fr[k].0@.len() <= j {
        let k = choose|k: int|
            0 <= k < fr.len() && (#[trigger] fr[k]).1@ == t && fr[k].0@.len() <= j;
        assert(lmin <= fr[k].0@.len() <= j <= q.len());
    } else {
        let v = choose|v: int| 0 <= v < vs.len() && (#[trigger] vs[v])@ == t && vlens[v] <= j;
        if j == q.len() {
            assert(q.take(j) =~= q);
            assert(spec_wins(vs[v]@, gb, gp));
            assert(false);
        }
        crate::replay::lemma_path_step(s0, q, j);
        let i = idx_of(t.blocks, q[j].0);
        assert(legal_at(vs[v]@, i, q[j].1));
        assert(covered(fr, vs, vlens, apply(vs[v]@, i, q[j].1), vlens[v] + 1));
        assert(apply(vs[v]@, i, q[j].1) == path_end(s0, q.take(j + 1)));
        lemma_covered_mono(fr, vs, vlens, path_end(s0, q.take(j + 1)), vlens[v] + 1, j + 1);
        lemma_bfs_minimal(fr, vs, vlens, s0, gb, gp, q, j + 1, lmin);
    }
}

/// Result of one breadth-first run.
pub enum SearchResult {
    /// A goal-reaching path was found; `explored` counts the distinct
    /// states expanded up to and including the winning one.
    Solved { path: Vec<(char, Dir)>, explored: u64 },
    /// Every reachable state was expanded and none wins; `explored` is the
    /// size of the reachable space.
    Exhausted { explored: u64 },
    /// The step budget ran out before the frontier emptied.
    OutOfBudget { explored: u64 },
}

/// A breadth-first run's result together with its expansion record: the
/// states expanded, in expansion order, without duplicates. The record is
/// what ties the reported counts to real work: every entry is reachable,
/// `explored` is the record's length, on exhaustion the record is closed
/// under legal moves (it is the whole reachable space), and a run cannot
/// blame the budget without a record of matching size.
pub struct BfsOutcome {
    /// How the run ended.
    pub result: SearchResult,
    /// The distinct states expanded, in order; the start state first.
    pub visited: Vec<Board>,
}

/// The state is reachable from `s0` by some valid move sequence.
pub open spec fn reachable_from(s0: StateV, t: StateV) -> bool {
    exists|q: Seq<(char, Dir)>| path_ok(s0, q) && path_end(s0, q) == t
}

/// A duplicate-free expansion record that contains a state and is closed
/// under legal moves contains every state reachable from that state by
/// valid moves. With the breadth-first contract's clauses on an exhausted
/// run — start state present, every entry reachable and distinct, record
/// closed — the record enumerates exactly the reachable space, so the
/// reported `explored` count equals that space's size.
pub proof fn lemma_closed_record_covers_reachable(s0: StateV, vs: Seq<Board>, q: Seq<(char, Dir)>)
    requires
        exists|k: int| 0 <= k < vs.len() && (#[trigger] vs[k])@ == s0,
        forall|v: int, i: int, d: Dir|
            0 <= v < vs.len() && #[trigger] legal_at(vs[v]@, i, d) ==> exists|v2: int|
                0 <= v2 < vs.len() && (#[trigger] vs[v2])@ == apply(vs[v]@, i, d),
        path_ok(s0, q),
    ensures
        exists|k: int| 0 <= k < vs.len() && (#[trigger] vs[k])@ == path_end(s0, q),
    decreases q.len(),
{
    if q.len() > 0 {
        let i = idx_of(s0.blocks, q[0].0);
        let k0 = choose|k: int| 0 <= k < vs.len() && (#[trigger] vs[k])@ == s0;
        assert(legal_at(vs[k0]@, i, q[0].1));
        let s1 = apply(s0, i, q[0].1);
        let k1 = choose|v2: int|
            0 <= v2 < vs.len() && (#[trigger] vs[v2])@ == apply(vs[k0]@, i, q[0].1);
        assert(vs[k1]@ == s1);
        lemma_closed_record_covers_reachable(s1, vs, q.drop_first());
    }
}

/// An exhausted breadth-first run's explored-state count is the size of
/// the reachable state space: the expansion record, with the properties
/// the breadth-first contract gives it on exhaustion, enumerates exactly
/// the set of reachable states, once each.
pub proof fn lemma_explored_counts_reachable(s0: StateV, vs: Seq<Board>)
    requires
        vs.len() >= 1,
        vs[0]@ == s0,
        forall|v1: int, v2: int|
            0 <= v1 < v2 < vs.len() ==> (#[trigger] vs[v1])@ != (#[trigger] vs[v2])@,
        forall|v: int| 0 <= v < vs.len() ==> reachable_from(s0, (#[trigger] vs[v])@),
        forall|v: int, i: int, d: Dir|
            0 <= v < vs.len() && #[trigger] legal_at(vs[v]@, i, d) ==> exists|v2: int|
                0 <= v2 < vs.len() && (#[trigger] vs[v2])@ == apply(vs[v]@, i, d),
    ensures
        Set::new(|t: StateV| reachable_from(s0, t)).finite(),
        Set::new(|t: StateV| reachable_from(s0, t)).len() == vs.len(),
{
    let views = vs.map_values(|b: Board| b@);
    let reach = Set::new(|t: StateV| reachable_from(s0, t));
    assert(forall|v: int| 0 <= v < vs.len() ==> #[trigger] views[v] == vs[v]@);
    assert(views.no_duplicates());
    views.unique_seq_to_set();
    vstd::seq_lib::seq_to_set_is_finite::<StateV>(views);
    assert forall|t: StateV| views.to_set().contains(t) implies reach.contains(t) by {
        let v = choose|v: int| 0 <= v < views.len() && views[v] == t;
        assert(reachable_from(s0, vs[v]@));
    }
    assert forall|t: StateV| reach.contains(t) implies views.to_set().contains(t) by {
        let q = choose|q: Seq<(char, Dir)>| path_ok(s0, q) && path_end(s0, q) == t;
        assert(vs[0]@ == s0);
        lemma_closed_record_covers_reachable(s0, vs, q);
        let k = choose|k: int| 0 <= k < vs.len() && (#[trigger] vs[k])@ == path_end(s0, q);
        assert(views[k] == t);
        assert(views.contains(t));
    }
    assert(views.to_set() =~= reach);
}

impl Board {
    /// Breadth-first search from this state: FIFO frontier of (path,
    /// state); a state is marked visited when dequeued, never expanded
    /// twice. Any returned path is a valid move sequence from this state
    /// to a state whose goal block sits at the goal position, and no
    /// goal-reaching move sequence is shorter: the first goal dequeued
    /// closes the search at the minimum length. A state already winning
    /// is solved at once with the empty path. `budget` caps the number of
    /// dequeues; running out is reported as its own outcome, distinct
    /// from exhaustion, and is only permitted when the expansion record
    /// accounts for the whole budget: each expanded state admits at most
    /// four moves per block, so the dequeues cannot outnumber
    /// `1 + 4 * blocks * expansions`. On exhaustion the record is closed
    /// under legal moves and `explored` is the size of the reachable
    /// space (see `lemma_closed_record_covers_reachable`).
    pub fn solve_bfs(&self, goal_block: &char, goal_pos: &(i32, i32), budget: u64) -> (r:
        BfsOutcome)
        requires
            wf(self@),
        ensures
            match r.result {
                SearchResult::Solved { path, explored } => path_ok(self@, path@) && spec_wins(
                    path_end(self@, path@),
                    *goal_block,
                    *goal_pos,
                ) && explored == r.visited@.len() && (forall|q: Seq<(char, Dir)>|
                    #[trigger] path_ok(self@, q) && spec_wins(
                        path_end(self@, q),
                        *goal_block,
                        *goal_pos,
                    ) ==> q.len() >= path@.len()),
                SearchResult::Exhausted { explored } => explored == r.visited@.len() && (forall|
                    q: Seq<(char, Dir)>,
                |
                    #[trigger] path_ok(self@, q) ==> !spec_wins(
                        path_end(self@, q),
                        *goal_block,
                        *goal_pos,
                    )) && (forall|v: int, i: int, d: Dir|
                    0 <= v < r.visited@.len() && #[trigger] legal_at(r.visited@[v]@, i, d)
                        ==> exists|v2: int|
                        0 <= v2 < r.visited@.len() && (#[trigger] r.visited@[v2])@ == apply(
                            r.visited@[v]@,
                            i,
                            d,
                        )),
                SearchResult::OutOfBudget { explored } => explored == r.visited@.len() && budget
                    <= 1 + 4 * self@.blocks.len() * r.visited@.len(),
            },
            budget >= 1 && spec_wins(self@, *goal_block, *goal_pos) ==> (r.result matches
            SearchResult::Solved { path, .. } && path@.len() == 0),
            budget >= 1 ==> r.visited@.len() >= 1 && r.visited@[0]@ == self@,
            forall|v1: int, v2: int|
                0 <= v1 < v2 < r.visited@.len() ==> (#[trigger] r.visited@[v1])@ != (
                #[trigger] r.visited@[v2])@,
            forall|v: int|
                0 <= v < r.visited@.len() ==> wf((#[trigger] r.visited@[v])@) && reachable_from(
                    self@,
                    r.visited@[v]@,
                ),
    {
        let mut frontier: Vec<(Vec<(char, Dir)>, Board)> = Vec::new();
        frontier.push((Vec::new(), self.clone()));
        let mut visited: Vec<Board> = Vec::new();
        let ghost mut vlens: Seq<int> = Seq::empty();
        let ghost mut pushed: int = 1;
        let mut explored: u64 = 0;
        let mut steps: u64 = 0;
        proof {
            assert(frontier@[0].0@.len() == 0 && frontier@[0].1@ == self@);
        }
        while frontier.len() != 0 && steps < budget
            invariant
                wf(self@),
                steps <= budget,
                explored <= steps,
                forall|k: int|
                    0 <= k < frontier@.len() ==> path_ok(self@, (#[trigger] frontier@[k]).0@)
                        && path_end(self@, frontier@[k].0@) == frontier@[k].1@ && wf(
                        frontier@[k].1@,
                    ),
                spec_wins(self@, *goal_block, *goal_pos) ==> steps == 0 && visited@.len() == 0
                    && frontier@.len() > 0 && frontier@[0].0@.len() == 0 && frontier@[0].1@
                    == self@,
                forall|k1: int, k2: int|
                    0 <= k1 < k2 < frontier@.len() ==> (#[trigger] frontier@[k1]).0@.len() <= (
                    #[trigger] frontier@[k2]).0@.len(),
                forall|k1: int, k2: int|
                    0 <= k1 < frontier@.len() && 0 <= k2 < frontier@.len() ==> (
                    #[trigger] frontier@[k2]).0@.len() <= (#[trigger] frontier@[k1]).0@.len() + 1,
                vlens.len() == visited@.len(),
                forall|v: int| 0 <= v < visited@.len() ==> wf((#[trigger] visited@[v])@),
                forall|v: int|
                    0 <= v < visited@.len() ==> !spec_wins(
                        (#[trigger] visited@[v])@,
                        *goal_block,
                        *goal_pos,
                    ),
                forall|v: int, k: int|
                    0 <= v < visited@.len() && 0 <= k < frontier@.len() ==> (#[trigger] vlens[v])
                        <= (#[trigger] frontier@[k]).0@.len(),
                covered(frontier@, visited@, vlens, self@, 0),
                successors_covered(frontier@, visited@, vlens),
                explored == visited@.len(),
                steps == 0 ==> visited@.len() == 0 && frontier@.len() == 1 && frontier@[0].0@.len()
                    == 0 && frontier@[0].1@ == self@,
                steps >= 1 ==> visited@.len() >= 1 && visited@[0]@ == self@,
                forall|v1: int, v2: int|
                    0 <= v1 < v2 < visited@.len() ==> (#[trigger] visited@[v1])@ != (
                    #[trigger] visited@[v2])@,
                forall|v: int|
                    0 <= v < visited@.len() ==> exists|q: Seq<(char, Dir)>|
                        path_ok(self@, q) && path_end(self@, q) == (#[trigger] visited@[v])@,
                steps + frontier@.len() == pushed,
                pushed <= 1 + 4 * self@.blocks.len() * visited@.len(),
            decreases budget - steps,
        {
            steps = steps + 1;
            let ghost pre_fr = frontier@;
            let ghost pre_vs = visited@;
            let ghost pre_vlens = vlens;
            let (path, state) = frontier.remove(0);
            let ghost l0 = path@.len() as int;
            proof {
                assert(frontier@ == pre_fr.remove(0));
                assert(forall|k: int|
                    0 <= k < frontier@.len() ==> #[trigger] frontier@[k] == pre_fr[k + 1]);
                assert forall|k: int|
                    0 <= k < pre_fr.len() implies (#[trigger] pre_fr[k]).0@.len() >= l0 by {
                    if k > 0 {
                        assert(pre_fr[0].0@.len() <= pre_fr[k].0@.len());
                    }
                }
            }
            if !contains_board(&visited, &state) {
                visited.push(state.clone());
                proof {
                    vlens = vlens.push(l0);
                    assert(visited@[visited@.len() - 1]@ == state@);
                    assert(forall|v: int|
                        0 <= v < pre_vs.len() ==> #[trigger] visited@[v] == pre_vs[v]);
                    if pre_vs.len() == 0 {
                        assert(state@ == self@);
                    }
                    assert forall|v1: int, v2: int|
                        0 <= v1 < v2 < visited@.len() implies (#[trigger] visited@[v1])@ != (
                    #[trigger] visited@[v2])@ by {
                        if v2 == visited@.len() - 1 {
                            assert(visited@[v1]@ != state@);
                        }
                    }
                    assert forall|v: int| 0 <= v < visited@.len() implies exists|
                        q: Seq<(char, Dir)>,
                    |
                        path_ok(self@, q) && path_end(self@, q) == (
                    #[trigger] visited@[v])@ by {
                        if v == visited@.len() - 1 {
                            assert(path_ok(self@, path@) && path_end(self@, path@)
                                == visited@[v]@);
                        }
                    }
                }
                explored = explored + 1;
                if state.wins(goal_block, goal_pos) {
                    proof {
                        assert forall|q: Seq<(char, Dir)>|
                            #[trigger] path_ok(self@, q) && spec_wins(
                                path_end(self@, q),
                                *goal_block,
                                *goal_pos,
                            ) implies q.len() >= path@.len() by {
                            assert(q.take(0) =~= Seq::<(char, Dir)>::empty());
                            assert(path_end(self@, q.take(0)) == self@);
                            lemma_bfs_minimal(
                                pre_fr,
                                pre_vs,
                                pre_vlens,
                                self@,
                                *goal_block,
                                *goal_pos,
                                q,
                                0,
                                l0,
                            );
                        }
                    }
                    return BfsOutcome { result: SearchResult::Solved { path, explored }, visited };
                }
                proof {
                    assert(!spec_wins(self@, *goal_block, *goal_pos));
                    lemma_covered_push_vs(
                        pre_fr,
                        pre_vs,
                        pre_vlens,
                        visited@[visited@.len() - 1],
                        l0,
                        self@,
                        0,
                    );
                    assert(visited@ == pre_vs.push(visited@[visited@.len() - 1]));
                    assert(vlens == pre_vlens.push(l0));
                    lemma_covered_after_pop(pre_fr, frontier@, visited@, vlens, self@, 0);
                    assert forall|v: int, i: int, d: Dir|
                        0 <= v < visited@.len() - 1 && #[trigger] legal_at(
                            visited@[v]@,
                            i,
                            d,
                        ) implies covered(
                        frontier@,
                        visited@,
                        vlens,
                        apply(visited@[v]@, i, d),
                        vlens[v] + 1,
                    ) by {
                        assert(visited@[v] == pre_vs[v] && vlens[v] == pre_vlens[v]);
                        assert(covered(pre_fr, pre_vs, pre_vlens, apply(pre_vs[v]@, i, d), pre_vlens[v] + 1));
                        lemma_covered_push_vs(
                            pre_fr,
                            pre_vs,
                            pre_vlens,
                            visited@[visited@.len() - 1],
                            l0,
                            apply(visited@[v]@, i, d),
                            vlens[v] + 1,
                        );
                        lemma_covered_after_pop(
                            pre_fr,
                            frontier@,
                            visited@,
                            vlens,
                            apply(visited@[v]@, i, d),
                            vlens[v] + 1,
                        );
                    }
                }
                let succs = state.get_moves();
                proof {
                    lemma_path_end_same_len(self@, path@);
                    assert(state@.blocks.len() == self@.blocks.len());
                }
                let mut j: usize = 0;
                while j < succs.len()
                    invariant
                        wf(self@),
                        wf(state@),
                        !spec_wins(self@, *goal_block, *goal_pos),
                        path_ok(self@, path@),
                        path_end(self@, path@) == state@,
                        path@.len() == l0,
                        j <= succs@.len(),
                        succs@.len() <= 4 * self@.blocks.len(),
                        visited@.len() >= 1,
                        steps + frontier@.len() == pushed,
                        pushed <= 1 + 4 * self@.blocks.len() * (visited@.len() - 1) + j,
                        forall|k: int|
                            0 <= k < succs@.len() ==> entry_ok(state@, #[trigger] succs@[k]) && wf(
                                succs@[k].1@,
                            ),
                        forall|k: int|
                            0 <= k < frontier@.len() ==> path_ok(
                                self@,
                                (#[trigger] frontier@[k]).0@,
                            ) && path_end(self@, frontier@[k].0@) == frontier@[k].1@ && wf(
                                frontier@[k].1@,
                            ),
                        forall|k: int|
                            0 <= k < frontier@.len() ==> l0 <= (
                            #[trigger] frontier@[k]).0@.len() <= l0 + 1,
                        forall|k1: int, k2: int|
                            0 <= k1 < k2 < frontier@.len() ==> (#[trigger] frontier@[k1]).0@.len()
                                <= (#[trigger] frontier@[k2]).0@.len(),
                        vlens.len() == visited@.len(),
                        visited@.len() >= 1,
                        visited@[visited@.len() - 1]@ == state@,
                        vlens[visited@.len() - 1] == l0,
                        forall|v: int| 0 <= v < visited@.len() ==> wf((#[trigger] visited@[v])@),
                        forall|v: int|
                            0 <= v < visited@.len() ==> !spec_wins(
                                (#[trigger] visited@[v])@,
                                *goal_block,
                                *goal_pos,
                            ),
                        forall|v: int| 0 <= v < visited@.len() ==> #[trigger] vlens[v] <= l0,
                        covered(frontier@, visited@, vlens, self@, 0),
                        forall|v: int, i: int, d: Dir|
                            0 <= v < visited@.len() - 1 && #[trigger] legal_at(
                                visited@[v]@,
                                i,
                                d,
                            ) ==> covered(
                                frontier@,
                                visited@,
                                vlens,
                                apply(visited@[v]@, i, d),
                                vlens[v] + 1,
                            ),
                        forall|kk: int|
                            0 <= kk < j ==> exists|fk: int|
                                0 <= fk < frontier@.len() && (#[trigger] frontier@[fk]).1@ == (
                                #[trigger] succs@[kk]).1@ && frontier@[fk].0@.len() == l0 + 1,
                    decreases succs@.len() - j,
                {
                    let entry: &((char, Dir), Board) = &succs[j];
                    let tag: (char, Dir) = entry.0;
                    let nb = entry.1.clone();
                    let mut np = clone_path(&path);
                    np.push(tag);
                    proof {
                        assert(entry_ok(state@, succs@[j as int]));
                        lemma_path_snoc(self@, path@, tag);
                    }
                    let ghost pf = frontier@;
                    frontier.push((np, nb));
                    proof {
                        pushed = pushed + 1;
                        assert(frontier@ == pf.push((np, nb)));
                        assert(forall|k: int| 0 <= k < pf.len() ==> #[trigger] frontier@[k] == pf[k]);
                        assert(frontier@[pf.len() as int].1@ == succs@[j as int].1@
                            && frontier@[pf.len() as int].0@.len() == l0 + 1);
                        lemma_covered_push_fr(pf, (np, nb), visited@, vlens, self@, 0);
                        assert forall|v: int, i: int, d: Dir|
                            0 <= v < visited@.len() - 1 && #[trigger] legal_at(
                                visited@[v]@,
                                i,
                                d,
                            ) implies covered(
                            frontier@,
                            visited@,
                            vlens,
                            apply(visited@[v]@, i, d),
                            vlens[v] + 1,
                        ) by {
                            lemma_covered_push_fr(
                                pf,
                                (np, nb),
                                visited@,
                                vlens,
                                apply(visited@[v]@, i, d),
                                vlens[v] + 1,
                            );
                        }
                        assert forall|kk: int| 0 <= kk < j + 1 implies exists|fk: int|
                            0 <= fk < frontier@.len() && (#[trigger] frontier@[fk]).1@ == (
                            #[trigger] succs@[kk]).1@ && frontier@[fk].0@.len() == l0 + 1 by {
                            if kk < j {
                                let fk0 = choose|fk: int|
                                    0 <= fk < pf.len() && (#[trigger] pf[fk]).1@
                                        == succs@[kk].1@ && pf[fk].0@.len() == l0 + 1;
                                assert(frontier@[fk0] == pf[fk0]);
                            } else {
                                assert(frontier@[pf.len() as int].1@ == succs@[kk].1@);
                            }
                        }
                    }
                    j = j + 1;
                }
                proof {
                    assert forall|v: int, i: int, d: Dir|
                        0 <= v < visited@.len() && #[trigger] legal_at(
                            visited@[v]@,
                            i,
                            d,
                        ) implies covered(
                        frontier@,
                        visited@,
                        vlens,
                        apply(visited@[v]@, i, d),
                        vlens[v] + 1,
                    ) by {
                        if v == visited@.len() - 1 {
                            assert(visited@[v]@ == state@);
                            assert(legal_at(state@, i, d));
                            let kk = choose|k: int|
                                0 <= k < succs@.len() && (#[trigger] succs@[k]).0 == (
                                state@.blocks[i].0,
                                d,
                                );
                            assert(entry_ok(state@, succs@[kk]));
                            lemma_idx_of_unique(state@.blocks, i);
                            assert(succs@[kk].1@ == apply(state@, i, d));
                            let fk = choose|fk: int|
                                0 <= fk < frontier@.len() && (#[trigger] frontier@[fk]).1@
                                    == succs@[kk].1@ && frontier@[fk].0@.len() == l0 + 1;
                            assert(frontier@[fk].1@ == apply(visited@[v]@, i, d)
                                && frontier@[fk].0@.len() <= vlens[v] + 1);
                        }
                    }
                    assert(successors_covered(frontier@, visited@, vlens));
                    assert(4 * (self@.blocks.len() as int) * ((visited@.len() - 1) as int) + 4 * (
                    self@.blocks.len() as int) == 4 * (self@.blocks.len() as int) * (
                    visited@.len() as int)) by (nonlinear_arith);
                    assert(pushed <= 1 + 4 * self@.blocks.len() * visited@.len());
                }
            } else {
                proof {
                    let v0 = choose|v: int|
                        0 <= v < visited@.len() && (#[trigger] visited@[v])@ == state@;
                    assert(pre_vs[v0]@ == pre_fr[0].1@);
                    assert(pre_vlens[v0] <= pre_fr[0].0@.len());
                    lemma_covered_after_pop(pre_fr, frontier@, visited@, vlens, self@, 0);
                    assert forall|v: int, i: int, d: Dir|
                        0 <= v < visited@.len() && #[trigger] legal_at(
                            visited@[v]@,
                            i,
                            d,
                        ) implies covered(
                        frontier@,
                        visited@,
                        vlens,
                        apply(visited@[v]@, i, d),
                        vlens[v] + 1,
                    ) by {
                        assert(covered(pre_fr, pre_vs, pre_vlens, apply(pre_vs[v]@, i, d), pre_vlens[v] + 1));
                        lemma_covered_after_pop(
                            pre_fr,
                            frontier@,
                            visited@,
                            vlens,
                            apply(visited@[v]@, i, d),
                            vlens[v] + 1,
                        );
                    }
                    assert(successors_covered(frontier@, visited@, vlens));
                }
            }
        }
        if frontier.len() == 0 {
            proof {
                assert(steps >= 1);
                assert forall|q: Seq<(char, Dir)>| #[trigger] path_ok(self@, q) implies !spec_wins(
                    path_end(self@, q),
                    *goal_block,
                    *goal_pos,
                ) by {
                    if spec_wins(path_end(self@, q), *goal_block, *goal_pos) {
                        assert(q.take(0) =~= Seq::<(char, Dir)>::empty());
                        assert(path_end(self@, q.take(0)) == self@);
                        lemma_bfs_minimal(
                            frontier@,
                            visited@,
                            vlens,
                            self@,
                            *goal_block,
                            *goal_pos,
                            q,
                            0,
                            q.len() as int + 1,
                        );
                        assert(false);
                    }
                }
                assert forall|v: int, i: int, d: Dir|
                    0 <= v < visited@.len() && #[trigger] legal_at(
                        visited@[v]@,
                        i,
                        d,
                    ) implies exists|v2: int|
                    0 <= v2 < visited@.len() && (#[trigger] visited@[v2])@ == apply(
                        visited@[v]@,
                        i,
                        d,
                    ) by {
                    assert(covered(frontier@, visited@, vlens, apply(visited@[v]@, i, d), vlens[v] + 1));
                    if exists|k: int|
                        0 <= k < frontier@.len() && (#[trigger] frontier@[k]).1@ == apply(
                            visited@[v]@,
                            i,
                            d,
                        ) && frontier@[k].0@.len() <= vlens[v] + 1 {
                        let k = choose|k: int|
                            0 <= k < frontier@.len() && (#[trigger] frontier@[k]).1@ == apply(
                                visited@[v]@,
                                i,
                                d,
                            ) && frontier@[k].0@.len() <= vlens[v] + 1;
                        assert(false);
                    } else {
                        let k = choose|k: int|
                            0 <= k < visited@.len() && (#[trigger] visited@[k])@ == apply(
                                visited@[v]@,
                                i,
                                d,
                            ) && vlens[k] <= vlens[v] + 1;
                        assert(visited@[k]@ == apply(visited@[v]@, i, d));
                    }
                }
            }
            BfsOutcome { result: SearchResult::Exhausted { explored }, visited }
        } else {
            proof {
                assert(steps == budget);
                assert(budget <= pushed);
            }
            BfsOutcome { result: SearchResult::OutOfBudget { explored }, visited }
        }
    }
}

/// Some frontier entry of length at most `bound` ends at state `t`.
pub open spec fn fr_witness(fr: Seq<(Vec<(char, Dir)>, Board)>, t: StateV, bound: int) -> bool {
    exists|k: int| 0 <= k < fr.len() && (#[trigger] fr[k]).1@ == t && fr[k].0@.len() <= bound
}

/// Some record marks state `t` as reached within `bound` moves.
pub open spec fn rec_at_most(recs: Seq<(Board, usize)>, t: StateV, bound: int) -> bool {
    exists|m: int| 0 <= m < recs.len() && (#[trigger] recs[m]).0@ == t && recs[m].1 <= bound
}

/// State `t`, reached at length `l`, has been expanded: it does not win,
/// and each of its legal successors carries a record within `l + 1`.
pub open spec fn processed(
    recs: Seq<(Board, usize)>,
    t: StateV,
    l: int,
    gb: char,
    gp: (i32, i32),
) -> bool {
    !spec_wins(t, gb, gp) && (forall|i: int, d: Dir|
        #[trigger] legal_at(t, i, d) && l + 1 < usize::MAX ==> rec_at_most(
            recs,
            apply(t, i, d),
            l + 1,
        ))
}

/// Every record below the bound is still queued at its length or has been
/// expanded.
pub open spec fn recs_tracked(
    fr: Seq<(Vec<(char, Dir)>, Board)>,
    recs: Seq<(Board, usize)>,
    bl: int,
    gb: char,
    gp: (i32, i32),
) -> bool {
    forall|m: int|
        0 <= m < recs.len() && (#[trigger] recs[m]).1 < bl ==> fr_witness(
            fr,
            recs[m].0@,
            recs[m].1 as int,
        ) || processed(recs, recs[m].0@, recs[m].1 as int, gb, gp)
}

/// Every recorded winning state is still queued at its length, or the
/// bound already accounts for it.
pub open spec fn wins_tracked(
    fr: Seq<(Vec<(char, Dir)>, Board)>,
    recs: Seq<(Board, usize)>,
    bl: int,
    gb: char,
    gp: (i32, i32),
) -> bool {
    forall|m: int|
        0 <= m < recs.len() && spec_wins((#[trigger] recs[m]).0@, gb, gp) ==> fr_witness(
            fr,
            recs[m].0@,
            recs[m].1 as int,
        ) || bl <= recs[m].1
}

/// Every goal-reaching path shorter than the bound has a prefix whose end
/// state is queued within the prefix length.
pub open spec fn paths_tracked(
    fr: Seq<(Vec<(char, Dir)>, Board)>,
    s0: StateV,
    gb: char,
    gp: (i32, i32),
    bl: int,
) -> bool {
    forall|q: Seq<(char, Dir)>|
        #[trigger] path_ok(s0, q) && spec_wins(path_end(s0, q), gb, gp) && q.len() < bl
            ==> exists|j: int| 0 <= j <= q.len() && fr_witness(fr, path_end(s0, q.take(j)), j)
}

/// A looser bound keeps a frontier witness.
proof fn lemma_fr_witness_mono(
    fr: Seq<(Vec<(char, Dir)>, Board)>,
    t: StateV,
    b1: int,
    b2: int,
)
    requires
        fr_witness(fr, t, b1),
        b1 <= b2,
    ensures
        fr_witness(fr, t, b2),
{
    let k = choose|k: int| 0 <= k < fr.len() && (#[trigger] fr[k]).1@ == t && fr[k].0@.len() <= b1;
    assert(fr[k].1@ == t && fr[k].0@.len() <= b2);
}

/// A looser bound keeps a record.
proof fn lemma_rec_at_most_mono(recs: Seq<(Board, usize)>, t: StateV, b1: int, b2: int)
    requires
        rec_at_most(recs, t, b1),
        b1 <= b2,
    ensures
        rec_at_most(recs, t, b2),
{
    let m = choose|m: int| 0 <= m < recs.len() && (#[trigger] recs[m]).0@ == t && recs[m].1 <= b1;
    assert(recs[m].0@ == t && recs[m].1 <= b2);
}

/// Appending a frontier entry keeps every witness.
proof fn lemma_fr_witness_push(
    fr: Seq<(Vec<(char, Dir)>, Board)>,
    e: (Vec<(char, Dir)>, Board),
    t: StateV,
    b: int,
)
    requires
        fr_witness(fr, t, b),
    ensures
        fr_witness(fr.push(e), t, b),
{
    let k = choose|k: int| 0 <= k < fr.len() && (#[trigger] fr[k]).1@ == t && fr[k].0@.len() <= b;
    assert(fr.push(e)[k] == fr[k]);
    assert((fr.push(e)[k]).1@ == t && fr.push(e)[k].0@.len() <= b);
}

/// Appending a record keeps every record.
proof fn lemma_rec_at_most_push(recs: Seq<(Board, usize)>, e: (Board, usize), t: StateV, b: int)
    requires
        rec_at_most(recs, t, b),
    ensures
        rec_at_most(recs.push(e), t, b),
{
    let m = choose|m: int| 0 <= m < recs.len() && (#[trigger] recs[m]).0@ == t && recs[m].1 <= b;
    assert(recs.push(e)[m] == recs[m]);
    assert((recs.push(e)[m]).0@ == t && recs.push(e)[m].1 <= b);
}

/// Appending a record keeps a state expanded.
proof fn lemma_processed_push(
    recs: Seq<(Board, usize)>,
    e: (Board, usize),
    t: StateV,
    l: int,
    gb: char,
    gp: (i32, i32),
)
    requires
        processed(recs, t, l, gb, gp),
    ensures
        processed(recs.push(e), t, l, gb, gp),
{
    assert forall|i: int, d: Dir|
        #[trigger] legal_at(t, i, d) && l + 1 < usize::MAX implies rec_at_most(
        recs.push(e),
        apply(t, i, d),
        l + 1,
    ) by {
        lemma_rec_at_most_push(recs, e, apply(t, i, d), l + 1);
    }
}

/// Dropping the last frontier entry keeps a witness that it did not carry.
proof fn lemma_fr_witness_pop(
    pre: Seq<(Vec<(char, Dir)>, Board)>,
    t: StateV,
    b: int,
)
    requires
        pre.len() > 0,
        fr_witness(pre, t, b),
        !(pre[pre.len() - 1].1@ == t && pre[pre.len() - 1].0@.len() <= b),
    ensures
        fr_witness(pre.drop_last(), t, b),
{
    let k = choose|k: int| 0 <= k < pre.len() && (#[trigger] pre[k]).1@ == t && pre[k].0@.len()
        <= b;
    assert(k < pre.len() - 1);
    assert(pre.drop_last()[k] == pre[k]);
    assert((pre.drop_last()[k]).1@ == t && pre.drop_last()[k].0@.len() <= b);
}

/// Following a goal-reaching path through the records: a prefix end state
/// recorded within its length leads, record by record, either to a queued
/// prefix or to a contradiction with the bound.
proof fn lemma_dfs_walk(
    fr: Seq<(Vec<(char, Dir)>, Board)>,
    recs: Seq<(Board, usize)>,
    s0: StateV,
    gb: char,
    gp: (i32, i32),
    bl: int,
    q: Seq<(char, Dir)>,
    j: int,
)
    requires
        wf(s0),
        path_ok(s0, q),
        spec_wins(path_end(s0, q), gb, gp),
        q.len() < bl,
        bl <= usize::MAX,
        0 <= j <= q.len(),
        fr_witness(fr, path_end(s0, q.take(j)), j) || rec_at_most(
            recs,
            path_end(s0, q.take(j)),
            j,
        ),
        recs_tracked(fr, recs, bl, gb, gp),
        wins_tracked(fr, recs, bl, gb, gp),
    ensures
        exists|j2: int| 0 <= j2 <= q.len() && fr_witness(fr, path_end(s0, q.take(j2)), j2),
    decreases q.len() - j,
{
    let t = path_end(s0, q.take(j));
    if fr_witness(fr, t, j) {
        assert(0 <= j <= q.len() && fr_witness(fr, path_end(s0, q.take(j)), j));
    } else {
        let m = choose|m: int|
            0 <= m < recs.len() && (#[trigger] recs[m]).0@ == t && recs[m].1 <= j;
        if spec_wins(t, gb, gp) {
            if fr_witness(fr, t, recs[m].1 as int) {
                lemma_fr_witness_mono(fr, t, recs[m].1 as int, j);
                assert(false);
            } else {
                assert(bl <= recs[m].1);
                assert(recs[m].1 <= j <= q.len() < bl);
                assert(false);
            }
        } else {
            if j == q.len() {
                assert(q.take(j) =~= q);
                assert(false);
            }
            if fr_witness(fr, t, recs[m].1 as int) {
                lemma_fr_witness_mono(fr, t, recs[m].1 as int, j);
                assert(false);
            }
            assert(processed(recs, t, recs[m].1 as int, gb, gp));
            crate::replay::lemma_path_step(s0, q, j);
            let i = idx_of(t.blocks, q[j].0);
            assert(legal_at(t, i, q[j].1));
            assert(recs[m].1 + 1 <= j + 1 <= q.len() < bl <= usize::MAX);
            assert(rec_at_most(recs, apply(t, i, q[j].1), recs[m].1 + 1));
            assert(apply(t, i, q[j].1) == path_end(s0, q.take(j + 1)));
            lemma_rec_at_most_mono(recs, path_end(s0, q.take(j + 1)), recs[m].1 + 1, j + 1);
            lemma_dfs_walk(fr, recs, s0, gb, gp, bl, q, j + 1);
        }
    }
}

/// With both searches run to completion on the same input, the final
/// incumbent of the branch-and-bound run has exactly the breadth-first
/// length: each of the two paths is a goal-reaching path the other run
/// proves cannot be beaten.
pub proof fn lemma_dfs_matches_bfs(
    s0: StateV,
    gb: char,
    gp: (i32, i32),
    bfs_path: Seq<(char, Dir)>,
    dfs_best: Seq<(char, Dir)>,
)
    requires
        path_ok(s0, bfs_path),
        spec_wins(path_end(s0, bfs_path), gb, gp),
        forall|q: Seq<(char, Dir)>|
            #[trigger] path_ok(s0, q) && spec_wins(path_end(s0, q), gb, gp) ==> q.len()
                >= bfs_path.len(),
        path_ok(s0, dfs_best),
        spec_wins(path_end(s0, dfs_best), gb, gp),
        forall|q: Seq<(char, Dir)>|
            #[trigger] path_ok(s0, q) && spec_wins(path_end(s0, q), gb, gp) ==> q.len()
                >= dfs_best.len(),
    ensures
        dfs_best.len() == bfs_path.len(),
{
    assert(dfs_best.len() >= bfs_path.len());
    assert(bfs_path.len() >= dfs_best.len());
}

/// Report of one depth-first branch-and-bound run.
pub struct DfsOutcome {
    /// The best (shortest) goal-reaching path found, if any.
    pub best: Option<Vec<(char, Dir)>>,
    /// Every improving incumbent in the order reported: its length and its
    /// full path, each a valid goal-reaching move sequence of exactly that
    /// length, the lengths strictly decreasing.
    pub incumbents: Vec<(usize, Vec<(char, Dir)>)>,
    /// Number of frontier entries popped.
    pub explored: u64,
    /// The frontier was emptied within the step budget.
    pub exhausted: bool,
    /// The per-state dedup record, in push order: each entry names a state
    /// together with the exact length of a valid path that reached it;
    /// entries for one state carry strictly decreasing lengths, all within
    /// the bound. One frontier push pairs with one record, which ties the
    /// budget to real work: a run may blame the budget only with a record
    /// list of matching size.
    pub records: Vec<(Board, usize)>,
}

/// The initial exclusive bound on solution lengths: one more than the
/// caller-supplied cap, or effectively unbounded without one.
pub open spec fn spec_bound(cap: Option<usize>) -> int {
    match cap {
        Some(c) => if c == usize::MAX {
            usize::MAX as int
        } else {
            c + 1
        },
        None => usize::MAX as int,
    }
}

/// The smallest length recorded for a board equal to `b`, or `usize::MAX`
/// when none is recorded.
fn lookup_shortest(m: &Vec<(Board, usize)>, b: &Board) -> (r: usize)
    ensures
        forall|k: int| 0 <= k < m@.len() && (#[trigger] m@[k]).0@ == b@ ==> r <= m@[k].1,
        r != usize::MAX ==> exists|k: int|
            0 <= k < m@.len() && (#[trigger] m@[k]).0@ == b@ && m@[k].1 == r,
{
    let mut best: usize = usize::MAX;
    let mut i: usize = 0;
    while i < m.len()
        invariant
            i <= m@.len(),
            forall|k: int| 0 <= k < i && (#[trigger] m@[k]).0@ == b@ ==> best <= m@[k].1,
            best != usize::MAX ==> exists|k: int|
                0 <= k < i && (#[trigger] m@[k]).0@ == b@ && m@[k].1 == best,
        decreases m@.len() - i,
    {
        let pair: &(Board, usize) = &m[i];
        if pair.0.eq(b) {
            if pair.1 < best {
                best = pair.1;
            }
        }
        i = i + 1;
    }
    best
}

impl Board {
    /// Depth-first branch-and-bound search from this state: LIFO frontier,
    /// a global bound (the caller's `cap` plus one, else unbounded), and a
    /// per-state record of the shortest length at which each state was
    /// pushed. Entries at or past the bound are discarded; a winning entry
    /// below the bound is recorded as a new incumbent and the run goes on
    /// until the frontier empties or `budget` pops are spent. The reported
    /// incumbents are strictly decreasing in length, each carrying its own
    /// valid goal-reaching path; the final one is the returned best path.
    /// When the run exhausts the frontier, no goal-reaching move sequence
    /// is shorter than the final incumbent — nor, when there is none, than
    /// the bound itself. A run may stop on the budget only when its dedup
    /// record accounts for it: pops never outnumber `1 + records`, and a
    /// state's records carry strictly decreasing lengths within the bound,
    /// each the exact length of some valid path reaching it.
    #[verifier::rlimit(100)]
    pub fn solve_dfs(
        &self,
        goal_block: &char,
        goal_pos: &(i32, i32),
        cap: Option<usize>,
        budget: u64,
    ) -> (r: DfsOutcome)
        requires
            wf(self@),
        ensures
            forall|k1: int, k2: int|
                0 <= k1 < k2 < r.incumbents@.len() ==> (#[trigger] r.incumbents@[k1]).0 > (
                #[trigger] r.incumbents@[k2]).0,
            forall|k: int|
                0 <= k < r.incumbents@.len() ==> (#[trigger] r.incumbents@[k]).0 < spec_bound(cap),
            forall|k: int|
                0 <= k < r.incumbents@.len() ==> path_ok(self@, (#[trigger] r.incumbents@[k]).1@)
                    && spec_wins(
                    path_end(self@, r.incumbents@[k].1@),
                    *goal_block,
                    *goal_pos,
                ) && r.incumbents@[k].1@.len() == r.incumbents@[k].0,
            match r.best {
                Some(p) => r.incumbents@.len() > 0 && path_ok(self@, p@) && spec_wins(
                    path_end(self@, p@),
                    *goal_block,
                    *goal_pos,
                ) && p@.len() == r.incumbents@[r.incumbents@.len() - 1].0 && p@
                    == r.incumbents@[r.incumbents@.len() - 1].1@,
                None => r.incumbents@.len() == 0,
            },
            r.explored <= budget,
            !r.exhausted ==> r.explored == budget && budget <= 1 + r.records@.len(),
            forall|m: int|
                0 <= m < r.records@.len() ==> 1 <= (#[trigger] r.records@[m]).1 <= spec_bound(cap)
                    && (exists|q: Seq<(char, Dir)>|
                    path_ok(self@, q) && path_end(self@, q) == r.records@[m].0@ && q.len()
                        == r.records@[m].1),
            forall|m1: int, m2: int|
                0 <= m1 < m2 < r.records@.len() && (#[trigger] r.records@[m1]).0@ == (
                #[trigger] r.records@[m2]).0@ ==> r.records@[m2].1 < r.records@[m1].1,
            r.exhausted && spec_wins(self@, *goal_block, *goal_pos) ==> (r.best matches Some(p)
                && p@.len() == 0),
            r.exhausted ==> match r.best {
                Some(p) => forall|q: Seq<(char, Dir)>|
                    #[trigger] path_ok(self@, q) && spec_wins(
                        path_end(self@, q),
                        *goal_block,
                        *goal_pos,
                    ) ==> q.len() >= p@.len(),
                None => forall|q: Seq<(char, Dir)>|
                    #[trigger] path_ok(self@, q) && spec_wins(
                        path_end(self@, q),
                        *goal_block,
                        *goal_pos,
                    ) ==> q.len() >= spec_bound(cap),
            },
    {
        let bound0: usize = match cap {
            Some(c) => if c < usize::MAX {
                c + 1
            } else {
                usize::MAX
            },
            None => usize::MAX,
        };
        let mut frontier: Vec<(Vec<(char, Dir)>, Board)> = Vec::new();
        frontier.push((Vec::new(), self.clone()));
        proof {
            assert(frontier@[0].0@.len() == 0 && frontier@[0].1@ == self@);
        }
        let mut best_length: usize = bound0;
        let mut best_path: Vec<(char, Dir)> = Vec::new();
        let mut have_best = false;
        let mut incumbents: Vec<(usize, Vec<(char, Dir)>)> = Vec::new();
        let mut shortest: Vec<(Board, usize)> = Vec::new();
        let mut steps: u64 = 0;
        proof {
            assert forall|q: Seq<(char, Dir)>|
                #[trigger] path_ok(self@, q) && spec_wins(path_end(self@, q), *goal_block, *goal_pos)
                    && q.len() < best_length implies exists|j: int|
                0 <= j <= q.len() && fr_witness(frontier@, path_end(self@, q.take(j)), j) by {
                assert(q.take(0) =~= Seq::<(char, Dir)>::empty());
                assert(path_end(self@, q.take(0)) == self@);
                assert(frontier@[0].1@ == self@ && frontier@[0].0@.len() <= 0);
                assert(fr_witness(frontier@, path_end(self@, q.take(0)), 0));
            }
        }
        while frontier.len() != 0 && steps < budget
            invariant
                wf(self@),
                bound0 == spec_bound(cap),
                bound0 >= 1,
                best_length <= bound0,
                steps <= budget,
                forall|k: int|
                    0 <= k < frontier@.len() ==> path_ok(self@, (#[trigger] frontier@[k]).0@)
                        && path_end(self@, frontier@[k].0@) == frontier@[k].1@ && wf(
                        frontier@[k].1@,
                    ),
                forall|k1: int, k2: int|
                    0 <= k1 < k2 < incumbents@.len() ==> (#[trigger] incumbents@[k1]).0 > (
                    #[trigger] incumbents@[k2]).0,
                forall|k: int|
                    0 <= k < incumbents@.len() ==> (#[trigger] incumbents@[k]).0 < bound0,
                forall|k: int|
                    0 <= k < incumbents@.len() ==> path_ok(self@, (#[trigger] incumbents@[k]).1@)
                        && spec_wins(
                        path_end(self@, incumbents@[k].1@),
                        *goal_block,
                        *goal_pos,
                    ) && incumbents@[k].1@.len() == incumbents@[k].0,
                have_best <==> incumbents@.len() > 0,
                have_best ==> best_length < bound0 && incumbents@[incumbents@.len() - 1].0
                    == best_length && best_path@.len() == best_length && path_ok(self@, best_path@)
                    && spec_wins(path_end(self@, best_path@), *goal_block, *goal_pos) && best_path@
                    == incumbents@[incumbents@.len() - 1].1@,
                !have_best ==> best_length == bound0,
                steps + frontier@.len() == 1 + shortest@.len(),
                forall|m: int| 0 <= m < shortest@.len() ==> 1 <= (#[trigger] shortest@[m]).1
                    <= bound0,
                forall|m: int|
                    0 <= m < shortest@.len() ==> exists|q: Seq<(char, Dir)>|
                        path_ok(self@, q) && path_end(self@, q) == (#[trigger] shortest@[m]).0@
                            && q.len() == shortest@[m].1,
                forall|m1: int, m2: int|
                    0 <= m1 < m2 < shortest@.len() && (#[trigger] shortest@[m1]).0@ == (
                    #[trigger] shortest@[m2]).0@ ==> shortest@[m2].1 < shortest@[m1].1,
                spec_wins(self@, *goal_block, *goal_pos) ==> (exists|k: int|
                    0 <= k < frontier@.len() && (#[trigger] frontier@[k]).0@.len() == 0
                        && frontier@[k].1@ == self@) || best_length == 0,
                recs_tracked(
                    frontier@,
                    shortest@,
                    best_length as int,
                    *goal_block,
                    *goal_pos,
                ),
                wins_tracked(
                    frontier@,
                    shortest@,
                    best_length as int,
                    *goal_block,
                    *goal_pos,
                ),
                paths_tracked(frontier@, self@, *goal_block, *goal_pos, best_length as int),
            decreases budget - steps,
        {
            steps = steps + 1;
            let ghost prev_frontier = frontier@;
            let ghost bl0 = best_length as int;
            let popped = frontier.pop();
            let (path, state) = popped.unwrap();
            let path_len = path.len();
            proof {
                assert(frontier@ == prev_frontier.drop_last());
                assert(prev_frontier[prev_frontier.len() - 1].0@ == path@
                    && prev_frontier[prev_frontier.len() - 1].1@ == state@);
                if spec_wins(self@, *goal_block, *goal_pos) && best_length != 0 {
                    let k0 = choose|k: int|
                        0 <= k < prev_frontier.len() && (#[trigger] prev_frontier[k]).0@.len() == 0
                            && prev_frontier[k].1@ == self@;
                    if k0 == prev_frontier.len() - 1 {
                        assert(path@.len() == 0 && state@ == self@);
                    } else {
                        assert(frontier@[k0] == prev_frontier[k0]);
                        assert(exists|k: int|
                            0 <= k < frontier@.len() && (#[trigger] frontier@[k]).0@.len() == 0
                                && frontier@[k].1@ == self@);
                    }
                    assert((path@.len() == 0 && state@ == self@) || (exists|k: int|
                        0 <= k < frontier@.len() && (#[trigger] frontier@[k]).0@.len() == 0
                            && frontier@[k].1@ == self@));
                }
            }
            if path_len < best_length {
                if state.wins(goal_block, goal_pos) {
                    best_length = path_len;
                    best_path = clone_path(&path);
                    let ghost prev_inc = incumbents@;
                    let winning_path = clone_path(&path);
                    incumbents.push((path_len, winning_path));
                    have_best = true;
                    proof {
                        assert(incumbents@.len() == prev_inc.len() + 1);
                        assert(forall|k: int|
                            0 <= k < prev_inc.len() ==> #[trigger] incumbents@[k] == prev_inc[k]);
                        assert(incumbents@[incumbents@.len() - 1].0 == path_len
                            && incumbents@[incumbents@.len() - 1].1@ == path@);
                        assert forall|k1: int, k2: int|
                            0 <= k1 < k2 < incumbents@.len() implies (#[trigger] incumbents@[k1]).0
                            > (#[trigger] incumbents@[k2]).0 by {
                            if k2 == incumbents@.len() - 1 {
                                assert(incumbents@[k1] == prev_inc[k1]);
                                if k1 < prev_inc.len() - 1 {
                                    assert(prev_inc[k1].0 > prev_inc[prev_inc.len() - 1].0);
                                }
                            } else {
                                assert(incumbents@[k1] == prev_inc[k1] && incumbents@[k2]
                                    == prev_inc[k2]);
                            }
                        }
                        assert forall|k: int| 0 <= k < incumbents@.len() implies path_ok(
                            self@,
                            (#[trigger] incumbents@[k]).1@,
                        ) && spec_wins(
                            path_end(self@, incumbents@[k].1@),
                            *goal_block,
                            *goal_pos,
                        ) && incumbents@[k].1@.len() == incumbents@[k].0 by {
                            if k == incumbents@.len() - 1 {
                                assert(incumbents@[k].1@ == path@);
                                assert(path_end(self@, path@) == state@);
                            } else {
                                assert(incumbents@[k] == prev_inc[k]);
                            }
                        }
                        if spec_wins(self@, *goal_block, *goal_pos) && best_length != 0 {
                            assert(exists|k: int|
                                0 <= k < frontier@.len() && (#[trigger] frontier@[k]).0@.len() == 0
                                    && frontier@[k].1@ == self@);
                        }
                        let bl1 = best_length as int;
                        assert forall|m: int|
                            0 <= m < shortest@.len() && (#[trigger] shortest@[m]).1
                                < bl1 implies fr_witness(
                            frontier@,
                            shortest@[m].0@,
                            shortest@[m].1 as int,
                        ) || processed(
                            shortest@,
                            shortest@[m].0@,
                            shortest@[m].1 as int,
                            *goal_block,
                            *goal_pos,
                        ) by {
                            assert(shortest@[m].1 < bl0);
                            if fr_witness(prev_frontier, shortest@[m].0@, shortest@[m].1 as int) {
                                if prev_frontier[prev_frontier.len() - 1].1@ == shortest@[m].0@
                                    && prev_frontier[prev_frontier.len() - 1].0@.len()
                                    <= shortest@[m].1 {
                                    assert(path_len <= shortest@[m].1 < bl1);
                                    assert(false);
                                } else {
                                    lemma_fr_witness_pop(
                                        prev_frontier,
                                        shortest@[m].0@,
                                        shortest@[m].1 as int,
                                    );
                                }
                            }
                        }
                        assert forall|m: int|
                            0 <= m < shortest@.len() && spec_wins(
                                (#[trigger] shortest@[m]).0@,
                                *goal_block,
                                *goal_pos,
                            ) implies fr_witness(frontier@, shortest@[m].0@, shortest@[m].1 as int)
                            || bl1 <= shortest@[m].1 by {
                            if fr_witness(prev_frontier, shortest@[m].0@, shortest@[m].1 as int)
                                && shortest@[m].1 < bl1 {
                                if prev_frontier[prev_frontier.len() - 1].1@ == shortest@[m].0@
                                    && prev_frontier[prev_frontier.len() - 1].0@.len()
                                    <= shortest@[m].1 {
                                    assert(bl1 == path_len <= shortest@[m].1);
                                    assert(false);
                                } else {
                                    lemma_fr_witness_pop(
                                        prev_frontier,
                                        shortest@[m].0@,
                                        shortest@[m].1 as int,
                                    );
                                }
                            }
                        }
                        assert forall|q: Seq<(char, Dir)>|
                            #[trigger] path_ok(self@, q) && spec_wins(
                                path_end(self@, q),
                                *goal_block,
                                *goal_pos,
                            ) && q.len() < bl1 implies exists|j: int|
                            0 <= j <= q.len() && fr_witness(
                                frontier@,
                                path_end(self@, q.take(j)),
                                j,
                            ) by {
                            assert(q.len() < bl0);
                            let j = choose|j: int|
                                0 <= j <= q.len() && fr_witness(
                                    prev_frontier,
                                    path_end(self@, q.take(j)),
                                    j,
                                );
                            let t = path_end(self@, q.take(j));
                            if prev_frontier[prev_frontier.len() - 1].1@ == t
                                && prev_frontier[prev_frontier.len() - 1].0@.len() <= j {
                                assert(path_len <= j <= q.len() < bl1);
                                assert(false);
                            } else {
                                lemma_fr_witness_pop(prev_frontier, t, j);
                            }
                        }
                        assert(recs_tracked(frontier@, shortest@, bl1, *goal_block, *goal_pos));
                        assert(wins_tracked(frontier@, shortest@, bl1, *goal_block, *goal_pos));
                        assert(paths_tracked(frontier@, self@, *goal_block, *goal_pos, bl1));
                    }
                } else {
                    proof {
                        if spec_wins(self@, *goal_block, *goal_pos) && best_length != 0 {
                            assert(!spec_wins(state@, *goal_block, *goal_pos));
                            assert(exists|k: int|
                                0 <= k < frontier@.len() && (#[trigger] frontier@[k]).0@.len() == 0
                                    && frontier@[k].1@ == self@);
                        }
                    }
                    let new_len = path_len + 1;
                    let succs = state.get_moves();
                    let mut j: usize = 0;
                    proof {
                        assert forall|m: int|
                            0 <= m < shortest@.len() && (#[trigger] shortest@[m]).1 < bl0 && !(
                            shortest@[m].0@ == state@ && path_len
                                <= shortest@[m].1) implies fr_witness(
                            frontier@,
                            shortest@[m].0@,
                            shortest@[m].1 as int,
                        ) || processed(
                            shortest@,
                            shortest@[m].0@,
                            shortest@[m].1 as int,
                            *goal_block,
                            *goal_pos,
                        ) by {
                            if fr_witness(prev_frontier, shortest@[m].0@, shortest@[m].1 as int)
                                && !processed(
                                shortest@,
                                shortest@[m].0@,
                                shortest@[m].1 as int,
                                *goal_block,
                                *goal_pos,
                            ) {
                                if prev_frontier[prev_frontier.len() - 1].1@ == shortest@[m].0@
                                    && prev_frontier[prev_frontier.len() - 1].0@.len()
                                    <= shortest@[m].1 {
                                    assert(shortest@[m].0@ == state@ && path_len
                                        <= shortest@[m].1);
                                    assert(false);
                                } else {
                                    lemma_fr_witness_pop(
                                        prev_frontier,
                                        shortest@[m].0@,
                                        shortest@[m].1 as int,
                                    );
                                }
                            }
                        }
                        assert forall|q: Seq<(char, Dir)>|
                            #[trigger] path_ok(self@, q) && spec_wins(
                                path_end(self@, q),
                                *goal_block,
                                *goal_pos,
                            ) && q.len() < best_length implies (exists|jj: int|
                                0 <= jj <= q.len() && fr_witness(
                                    frontier@,
                                    path_end(self@, q.take(jj)),
                                    jj,
                                )) || (exists|jj: int|
                                0 <= jj <= q.len() && path_end(self@, q.take(jj)) == state@
                                    && path_len <= jj) by {
                            let jj = choose|jj: int|
                                0 <= jj <= q.len() && fr_witness(
                                    prev_frontier,
                                    path_end(self@, q.take(jj)),
                                    jj,
                                );
                            let t = path_end(self@, q.take(jj));
                            if prev_frontier[prev_frontier.len() - 1].1@ == t
                                && prev_frontier[prev_frontier.len() - 1].0@.len() <= jj {
                                assert(t == state@ && path_len <= jj);
                            } else {
                                lemma_fr_witness_pop(prev_frontier, t, jj);
                            }
                        }
                        assert forall|m: int|
                            0 <= m < shortest@.len() && spec_wins(
                                (#[trigger] shortest@[m]).0@,
                                *goal_block,
                                *goal_pos,
                            ) implies fr_witness(frontier@, shortest@[m].0@, shortest@[m].1 as int)
                            || bl0 <= shortest@[m].1 by {
                            if fr_witness(prev_frontier, shortest@[m].0@, shortest@[m].1 as int)
                                && shortest@[m].1 < bl0 {
                                if prev_frontier[prev_frontier.len() - 1].1@ == shortest@[m].0@
                                    && prev_frontier[prev_frontier.len() - 1].0@.len()
                                    <= shortest@[m].1 {
                                    assert(spec_wins(state@, *goal_block, *goal_pos));
                                    assert(false);
                                } else {
                                    lemma_fr_witness_pop(
                                        prev_frontier,
                                        shortest@[m].0@,
                                        shortest@[m].1 as int,
                                    );
                                }
                            }
                        }
                    }
                    while j < succs.len()
                        invariant
                            wf(self@),
                            wf(state@),
                            !spec_wins(state@, *goal_block, *goal_pos),
                            path_ok(self@, path@),
                            path_end(self@, path@) == state@,
                            j <= succs@.len(),
                            new_len == path_len + 1,
                            path_len == path@.len(),
                            path_len < best_length,
                            best_length == bl0,
                            best_length <= bound0,
                            bound0 == spec_bound(cap),
                            steps + frontier@.len() == 1 + shortest@.len(),
                            forall|m: int|
                                0 <= m < shortest@.len() ==> 1 <= (#[trigger] shortest@[m]).1
                                    <= bound0,
                            forall|m: int|
                                0 <= m < shortest@.len() ==> exists|q: Seq<(char, Dir)>|
                                    path_ok(self@, q) && path_end(self@, q) == (
                                    #[trigger] shortest@[m]).0@ && q.len() == shortest@[m].1,
                            forall|m1: int, m2: int|
                                0 <= m1 < m2 < shortest@.len() && (#[trigger] shortest@[m1]).0@
                                    == (#[trigger] shortest@[m2]).0@ ==> shortest@[m2].1
                                    < shortest@[m1].1,
                            forall|k: int|
                                0 <= k < succs@.len() ==> entry_ok(state@, #[trigger] succs@[k])
                                    && wf(succs@[k].1@),
                            forall|k: int|
                                0 <= k < frontier@.len() ==> path_ok(
                                    self@,
                                    (#[trigger] frontier@[k]).0@,
                                ) && path_end(self@, frontier@[k].0@) == frontier@[k].1@ && wf(
                                    frontier@[k].1@,
                                ),
                            spec_wins(self@, *goal_block, *goal_pos) ==> (exists|k: int|
                                0 <= k < frontier@.len() && (#[trigger] frontier@[k]).0@.len() == 0
                                    && frontier@[k].1@ == self@) || best_length == 0,
                            forall|m: int|
                                0 <= m < shortest@.len() && (#[trigger] shortest@[m]).1
                                    < best_length && !(shortest@[m].0@ == state@ && path_len
                                    <= shortest@[m].1) ==> fr_witness(
                                    frontier@,
                                    shortest@[m].0@,
                                    shortest@[m].1 as int,
                                ) || processed(
                                    shortest@,
                                    shortest@[m].0@,
                                    shortest@[m].1 as int,
                                    *goal_block,
                                    *goal_pos,
                                ),
                            wins_tracked(
                                frontier@,
                                shortest@,
                                best_length as int,
                                *goal_block,
                                *goal_pos,
                            ),
                            forall|kk: int|
                                0 <= kk < j && new_len < usize::MAX ==> rec_at_most(
                                    shortest@,
                                    (#[trigger] succs@[kk]).1@,
                                    new_len as int,
                                ),
                            forall|q: Seq<(char, Dir)>|
                                #[trigger] path_ok(self@, q) && spec_wins(
                                    path_end(self@, q),
                                    *goal_block,
                                    *goal_pos,
                                ) && q.len() < best_length ==> (exists|jj: int|
                                    0 <= jj <= q.len() && fr_witness(
                                        frontier@,
                                        path_end(self@, q.take(jj)),
                                        jj,
                                    )) || (exists|jj: int|
                                    0 <= jj <= q.len() && path_end(self@, q.take(jj)) == state@
                                        && path_len <= jj),
                        decreases succs@.len() - j,
                    {
                        let entry: &((char, Dir), Board) = &succs[j];
                        let tag: (char, Dir) = entry.0;
                        let nb = entry.1.clone();
                        let prev = lookup_shortest(&shortest, &nb);
                        if new_len < prev {
                            let ghost pr = shortest@;
                            shortest.push((nb.clone(), new_len));
                            let mut np = clone_path(&path);
                            np.push(tag);
                            proof {
                                assert(entry_ok(state@, succs@[j as int]));
                                lemma_path_snoc(self@, path@, tag);
                            }
                            let ghost pf = frontier@;
                            frontier.push((np, nb));
                            proof {
                                assert(shortest@ == pr.push((shortest@[pr.len() as int].0, new_len)));
                                assert(shortest@[pr.len() as int].0@ == succs@[j as int].1@);
                                assert(frontier@ == pf.push((np, nb)));
                                assert(frontier@[pf.len() as int].1@ == succs@[j as int].1@
                                    && frontier@[pf.len() as int].0@.len() == new_len);
                                assert(forall|k: int|
                                    0 <= k < pf.len() ==> #[trigger] frontier@[k] == pf[k]);
                                assert(forall|m: int|
                                    0 <= m < pr.len() ==> #[trigger] shortest@[m] == pr[m]);
                                assert(shortest@[pr.len() as int].1 == new_len);
                                assert(1 <= new_len <= bound0);
                                assert forall|m: int|
                                    0 <= m < shortest@.len() implies exists|q: Seq<(char, Dir)>|
                                    path_ok(self@, q) && path_end(self@, q) == (
                                #[trigger] shortest@[m]).0@ && q.len() == shortest@[m].1 by {
                                    if m == pr.len() {
                                        assert(path_ok(self@, np@) && path_end(self@, np@) == nb@
                                            && np@.len() == new_len);
                                    }
                                }
                                assert forall|m1: int, m2: int|
                                    0 <= m1 < m2 < shortest@.len() && (
                                #[trigger] shortest@[m1]).0@ == (
                                #[trigger] shortest@[m2]).0@ implies shortest@[m2].1
                                    < shortest@[m1].1 by {
                                    if m2 == pr.len() {
                                        assert(pr[m1].0@ == nb@);
                                        assert(prev <= pr[m1].1);
                                    }
                                }
                                if spec_wins(self@, *goal_block, *goal_pos) && best_length != 0 {
                                    let k0 = choose|k: int|
                                        0 <= k < pf.len() && (#[trigger] pf[k]).0@.len() == 0
                                            && pf[k].1@ == self@;
                                    assert(frontier@[k0] == pf[k0]);
                                }
                                assert forall|m: int|
                                    0 <= m < shortest@.len() && (#[trigger] shortest@[m]).1 < bl0
                                        && !(shortest@[m].0@ == state@ && path_len
                                        <= shortest@[m].1) implies fr_witness(
                                    frontier@,
                                    shortest@[m].0@,
                                    shortest@[m].1 as int,
                                ) || processed(
                                    shortest@,
                                    shortest@[m].0@,
                                    shortest@[m].1 as int,
                                    *goal_block,
                                    *goal_pos,
                                ) by {
                                    if m < pr.len() {
                                        if fr_witness(pf, pr[m].0@, pr[m].1 as int) {
                                            lemma_fr_witness_push(
                                                pf,
                                                (np, nb),
                                                pr[m].0@,
                                                pr[m].1 as int,
                                            );
                                        } else {
                                            lemma_processed_push(
                                                pr,
                                                shortest@[pr.len() as int],
                                                pr[m].0@,
                                                pr[m].1 as int,
                                                *goal_block,
                                                *goal_pos,
                                            );
                                        }
                                    } else {
                                        assert(fr_witness(
                                            frontier@,
                                            shortest@[m].0@,
                                            shortest@[m].1 as int,
                                        ));
                                    }
                                }
                                assert forall|m: int|
                                    0 <= m < shortest@.len() && spec_wins(
                                        (#[trigger] shortest@[m]).0@,
                                        *goal_block,
                                        *goal_pos,
                                    ) implies fr_witness(
                                    frontier@,
                                    shortest@[m].0@,
                                    shortest@[m].1 as int,
                                ) || bl0 <= shortest@[m].1 by {
                                    if m < pr.len() {
                                        if fr_witness(pf, pr[m].0@, pr[m].1 as int) {
                                            lemma_fr_witness_push(
                                                pf,
                                                (np, nb),
                                                pr[m].0@,
                                                pr[m].1 as int,
                                            );
                                        }
                                    } else {
                                        assert(fr_witness(
                                            frontier@,
                                            shortest@[m].0@,
                                            shortest@[m].1 as int,
                                        ));
                                    }
                                }
                                assert forall|kk: int|
                                    0 <= kk < j + 1 && new_len < usize::MAX implies rec_at_most(
                                    shortest@,
                                    (#[trigger] succs@[kk]).1@,
                                    new_len as int,
                                ) by {
                                    if kk < j {
                                        lemma_rec_at_most_push(
                                            pr,
                                            shortest@[pr.len() as int],
                                            succs@[kk].1@,
                                            new_len as int,
                                        );
                                    } else {
                                        assert(shortest@[pr.len() as int].0@ == succs@[kk].1@
                                            && shortest@[pr.len() as int].1 <= new_len);
                                    }
                                }
                                assert forall|q: Seq<(char, Dir)>|
                                    #[trigger] path_ok(self@, q) && spec_wins(
                                        path_end(self@, q),
                                        *goal_block,
                                        *goal_pos,
                                    ) && q.len() < best_length implies (exists|jj: int|
                                        0 <= jj <= q.len() && fr_witness(
                                            frontier@,
                                            path_end(self@, q.take(jj)),
                                            jj,
                                        )) || (exists|jj: int|
                                        0 <= jj <= q.len() && path_end(self@, q.take(jj)) == state@
                                            && path_len <= jj) by {
                                    if exists|jj: int|
                                        0 <= jj <= q.len() && fr_witness(
                                            pf,
                                            path_end(self@, q.take(jj)),
                                            jj,
                                        ) {
                                        let jj = choose|jj: int|
                                            0 <= jj <= q.len() && fr_witness(
                                                pf,
                                                path_end(self@, q.take(jj)),
                                                jj,
                                            );
                                        lemma_fr_witness_push(
                                            pf,
                                            (np, nb),
                                            path_end(self@, q.take(jj)),
                                            jj,
                                        );
                                    }
                                }
                            }
                        } else {
                            proof {
                                if new_len < usize::MAX {
                                    assert(prev <= new_len);
                                    assert(prev != usize::MAX);
                                    assert(rec_at_most(shortest@, nb@, new_len as int));
                                    assert(nb@ == succs@[j as int].1@);
                                }
                                assert forall|kk: int|
                                    0 <= kk < j + 1 && new_len < usize::MAX implies rec_at_most(
                                    shortest@,
                                    (#[trigger] succs@[kk]).1@,
                                    new_len as int,
                                ) by {}
                            }
                        }
                        j = j + 1;
                    }
                    proof {
                        let bl1 = best_length as int;
                        assert forall|m: int|
                            0 <= m < shortest@.len() && (#[trigger] shortest@[m]).1
                                < bl1 implies fr_witness(
                            frontier@,
                            shortest@[m].0@,
                            shortest@[m].1 as int,
                        ) || processed(
                            shortest@,
                            shortest@[m].0@,
                            shortest@[m].1 as int,
                            *goal_block,
                            *goal_pos,
                        ) by {
                            if shortest@[m].0@ == state@ && path_len <= shortest@[m].1 {
                                let lm = shortest@[m].1 as int;
                                assert forall|i: int, d: Dir|
                                    #[trigger] legal_at(state@, i, d) && lm + 1
                                        < usize::MAX implies rec_at_most(
                                    shortest@,
                                    apply(state@, i, d),
                                    lm + 1,
                                ) by {
                                    let kk = choose|k: int|
                                        0 <= k < succs@.len() && (#[trigger] succs@[k]).0 == (
                                        state@.blocks[i].0,
                                        d,
                                        );
                                    assert(entry_ok(state@, succs@[kk]));
                                    lemma_idx_of_unique(state@.blocks, i);
                                    assert(succs@[kk].1@ == apply(state@, i, d));
                                    assert(new_len <= lm + 1 < usize::MAX);
                                    assert(rec_at_most(shortest@, succs@[kk].1@, new_len as int));
                                    lemma_rec_at_most_mono(
                                        shortest@,
                                        apply(state@, i, d),
                                        new_len as int,
                                        lm + 1,
                                    );
                                }
                                assert(processed(
                                    shortest@,
                                    shortest@[m].0@,
                                    shortest@[m].1 as int,
                                    *goal_block,
                                    *goal_pos,
                                ));
                            }
                        }
                        assert(recs_tracked(frontier@, shortest@, bl1, *goal_block, *goal_pos));
                        assert forall|q: Seq<(char, Dir)>|
                            #[trigger] path_ok(self@, q) && spec_wins(
                                path_end(self@, q),
                                *goal_block,
                                *goal_pos,
                            ) && q.len() < bl1 implies exists|jj: int|
                            0 <= jj <= q.len() && fr_witness(
                                frontier@,
                                path_end(self@, q.take(jj)),
                                jj,
                            ) by {
                            if !(exists|jj: int|
                                0 <= jj <= q.len() && fr_witness(
                                    frontier@,
                                    path_end(self@, q.take(jj)),
                                    jj,
                                )) {
                                let jj = choose|jj: int|
                                    0 <= jj <= q.len() && path_end(self@, q.take(jj)) == state@
                                        && path_len <= jj;
                                if jj == q.len() {
                                    assert(q.take(jj) =~= q);
                                    assert(spec_wins(state@, *goal_block, *goal_pos));
                                    assert(false);
                                }
                                crate::replay::lemma_path_step(self@, q, jj);
                                let i = idx_of(state@.blocks, q[jj].0);
                                assert(legal_at(state@, i, q[jj].1));
                                let kk = choose|k: int|
                                    0 <= k < succs@.len() && (#[trigger] succs@[k]).0 == (
                                    state@.blocks[i].0,
                                    q[jj].1,
                                    );
                                assert(entry_ok(state@, succs@[kk]));
                                lemma_idx_of_unique(state@.blocks, i);
                                assert(succs@[kk].1@ == apply(state@, i, q[jj].1));
                                assert(new_len <= jj + 1 <= q.len() < bl1 <= usize::MAX);
                                assert(rec_at_most(shortest@, succs@[kk].1@, new_len as int));
                                lemma_rec_at_most_mono(
                                    shortest@,
                                    path_end(self@, q.take(jj + 1)),
                                    new_len as int,
                                    jj + 1,
                                );
                                lemma_dfs_walk(
                                    frontier@,
                                    shortest@,
                                    self@,
                                    *goal_block,
                                    *goal_pos,
                                    bl1,
                                    q,
                                    jj + 1,
                                );
                                assert(false);
                            }
                        }
                        assert(paths_tracked(frontier@, self@, *goal_block, *goal_pos, bl1));
                    }
                }
            } else {
                proof {
                    assert(best_length <= path_len);
                    assert forall|m: int|
                        0 <= m < shortest@.len() && (#[trigger] shortest@[m]).1
                            < bl0 implies fr_witness(
                        frontier@,
                        shortest@[m].0@,
                        shortest@[m].1 as int,
                    ) || processed(
                        shortest@,
                        shortest@[m].0@,
                        shortest@[m].1 as int,
                        *goal_block,
                        *goal_pos,
                    ) by {
                        if fr_witness(prev_frontier, shortest@[m].0@, shortest@[m].1 as int)
                            && !processed(
                            shortest@,
                            shortest@[m].0@,
                            shortest@[m].1 as int,
                            *goal_block,
                            *goal_pos,
                        ) {
                            if prev_frontier[prev_frontier.len() - 1].1@ == shortest@[m].0@
                                && prev_frontier[prev_frontier.len() - 1].0@.len()
                                <= shortest@[m].1 {
                                assert(path_len <= shortest@[m].1 < bl0 <= path_len);
                                assert(false);
                            } else {
                                lemma_fr_witness_pop(
                                    prev_frontier,
                                    shortest@[m].0@,
                                    shortest@[m].1 as int,
                                );
                            }
                        }
                    }
                    assert forall|m: int|
                        0 <= m < shortest@.len() && spec_wins(
                            (#[trigger] shortest@[m]).0@,
                            *goal_block,
                            *goal_pos,
                        ) implies fr_witness(frontier@, shortest@[m].0@, shortest@[m].1 as int)
                        || bl0 <= shortest@[m].1 by {
                        if fr_witness(prev_frontier, shortest@[m].0@, shortest@[m].1 as int)
                            && shortest@[m].1 < bl0 {
                            if prev_frontier[prev_frontier.len() - 1].1@ == shortest@[m].0@
                                && prev_frontier[prev_frontier.len() - 1].0@.len()
                                <= shortest@[m].1 {
                                assert(path_len <= shortest@[m].1 < bl0 <= path_len);
                                assert(false);
                            } else {
                                lemma_fr_witness_pop(
                                    prev_frontier,
                                    shortest@[m].0@,
                                    shortest@[m].1 as int,
                                );
                            }
                        }
                    }
                    assert forall|q: Seq<(char, Dir)>|
                        #[trigger] path_ok(self@, q) && spec_wins(
                            path_end(self@, q),
                            *goal_block,
                            *goal_pos,
                        ) && q.len() < bl0 implies exists|jj: int|
                        0 <= jj <= q.len() && fr_witness(frontier@, path_end(self@, q.take(jj)), jj) by {
                        let jj = choose|jj: int|
                            0 <= jj <= q.len() && fr_witness(
                                prev_frontier,
                                path_end(self@, q.take(jj)),
                                jj,
                            );
                        let t = path_end(self@, q.take(jj));
                        if prev_frontier[prev_frontier.len() - 1].1@ == t
                            && prev_frontier[prev_frontier.len() - 1].0@.len() <= jj {
                            assert(path_len <= jj <= q.len() < bl0 <= path_len);
                            assert(false);
                        } else {
                            lemma_fr_witness_pop(prev_frontier, t, jj);
                        }
                    }
                    assert(recs_tracked(frontier@, shortest@, bl0, *goal_block, *goal_pos));
                    assert(wins_tracked(frontier@, shortest@, bl0, *goal_block, *goal_pos));
                    assert(paths_tracked(frontier@, self@, *goal_block, *goal_pos, bl0));
                }
            }
        }
        proof {
            if frontier@.len() == 0 {
                assert forall|q: Seq<(char, Dir)>|
                    #[trigger] path_ok(self@, q) && spec_wins(
                        path_end(self@, q),
                        *goal_block,
                        *goal_pos,
                    ) implies q.len() >= best_length by {
                    if q.len() < best_length {
                        let jj = choose|jj: int|
                            0 <= jj <= q.len() && fr_witness(
                                frontier@,
                                path_end(self@, q.take(jj)),
                                jj,
                            );
                        let t = path_end(self@, q.take(jj));
                        let k = choose|k: int|
                            0 <= k < frontier@.len() && (#[trigger] frontier@[k]).1@ == t
                                && frontier@[k].0@.len() <= jj;
                        assert(false);
                    }
                }
            }
        }
        let exhausted = frontier.len() == 0;
        proof {
            if !exhausted {
                assert(steps == budget);
                assert(budget <= 1 + shortest@.len());
            }
        }
        let best = if have_best {
            Some(best_path)
        } else {
            None
        };
        DfsOutcome { best, incumbents, explored: steps, exhausted, records: shortest }
    }
}

} // verus!
