use crate::traits::Solver;
use crate::tsp::def::{
    lemma_range_cost_bounds, lemma_tables_locate, next_pos, prev_pos, sol_cost, TSPInstance,
    TSPSolution,
};
use crate::tsp::neighborhoods::edges_transition::{
    pack_gap, pos_gap, unpacked_of_pair, EdgesTransition,
};
use crate::tsp::neighborhoods::inter_cycle_transition::{inter_delta, InterCycleTransition};
use crate::tsp::neighborhoods::transition::get_neighbors_in_cycle;
use vstd::prelude::*;

verus! {

/// A candidate move discovered earlier, kept in the incremental engine's
/// queue: the endpoint identities and their cycle-neighbors as they were at
/// discovery time, plus the move's kind and its score.
#[derive(Clone, Copy)]
pub struct State {
    pub a_prev: usize,
    pub a: usize,
    pub a_next: usize,
    pub b_prev: usize,
    pub b: usize,
    pub b_next: usize,
    pub inter_cycle: bool,
    pub score: i64,
}

/// The inter-cycle candidate's score: the snapshot form of the exchange
/// delta.
pub open spec fn inter_formula(inst: TSPInstance, st: State) -> int {
    inst.d(st.b_prev as int, st.a as int) + inst.d(st.a as int, st.b_next as int) + inst.d(
        st.a_prev as int,
        st.b as int,
    ) + inst.d(st.b as int, st.a_next as int) - inst.d(st.a_prev as int, st.a as int) - inst.d(
        st.a as int,
        st.a_next as int,
    ) - inst.d(st.b_prev as int, st.b as int) - inst.d(st.b as int, st.b_next as int)
}

/// The 2-opt candidate's score: the two edges `(a, a_next)` and
/// `(b, b_next)` leave, `(a, b)` and `(a_next, b_next)` arrive.
pub open spec fn edges_formula(inst: TSPInstance, st: State) -> int {
    inst.d(st.a as int, st.b as int) + inst.d(st.a_next as int, st.b_next as int) - inst.d(
        st.a as int,
        st.a_next as int,
    ) - inst.d(st.b as int, st.b_next as int)
}

/// What every queued candidate satisfies: its vertices exist, its score is
/// improving and equals its own formula, and a 2-opt candidate's endpoints
/// are far enough apart that its block is real.
pub open spec fn state_wf(inst: TSPInstance, st: State) -> bool {
    &&& (st.a as int) < inst.n()
    &&& (st.a_prev as int) < inst.n()
    &&& (st.a_next as int) < inst.n()
    &&& (st.b as int) < inst.n()
    &&& (st.b_prev as int) < inst.n()
    &&& (st.b_next as int) < inst.n()
    &&& st.score < 0
    &&& st.inter_cycle ==> st.score as int == inter_formula(inst, st)
    &&& !st.inter_cycle ==> st.score as int == edges_formula(inst, st) && st.b != st.a && st.b
        != st.a_next && st.b_next != st.a && st.b_next != st.a_next
}

pub open spec fn queue_wf(inst: TSPInstance, q: Seq<State>) -> bool {
    forall|i: int| 0 <= i < q.len() ==> state_wf(inst, #[trigger] q[i])
}

/// Whether the queue holds the candidate.
pub open spec fn in_queue(q: Seq<State>, st: State) -> bool {
    exists|i: int| 0 <= i < q.len() && q[i] == st
}

proof fn lemma_in_queue_push(q: Seq<State>, x: State, st: State)
    requires
        in_queue(q, st),
    ensures
        in_queue(q.push(x), st),
{
    let i = choose|i: int| 0 <= i < q.len() && q[i] == st;
    assert(q.push(x)[i] == st);
}

/// The current successor of point `v` on its tour.
pub open spec fn cur_next(s: TSPSolution, v: int) -> int {
    if s.cycle@[v] as int == 0 {
        s.perm_a@[next_pos(s.perm_a@.len() as int, s.order@[v] as int)] as int
    } else {
        s.perm_b@[next_pos(s.perm_b@.len() as int, s.order@[v] as int)] as int
    }
}

/// The current predecessor of point `v` on its tour.
pub open spec fn cur_prev(s: TSPSolution, v: int) -> int {
    if s.cycle@[v] as int == 0 {
        s.perm_a@[prev_pos(s.perm_a@.len() as int, s.order@[v] as int)] as int
    } else {
        s.perm_b@[prev_pos(s.perm_b@.len() as int, s.order@[v] as int)] as int
    }
}

/// An inter-cycle candidate is applicable when its two points are still in
/// different tours and all six snapshot identities match the present
/// neighbors exactly.
pub open spec fn applicable_inter(s: TSPSolution, st: State) -> bool {
    &&& (st.a as int) < s.n()
    &&& (st.b as int) < s.n()
    &&& s.cycle@[st.a as int] != s.cycle@[st.b as int]
    &&& st.a_prev as int == cur_prev(s, st.a as int)
    &&& st.a_next as int == cur_next(s, st.a as int)
    &&& st.b_prev as int == cur_prev(s, st.b as int)
    &&& st.b_next as int == cur_next(s, st.b as int)
}

/// A 2-opt candidate is applicable when both points share a tour, both
/// forward edges still exist, and the two edges do not touch.
pub open spec fn applicable_edges(s: TSPSolution, st: State) -> bool {
    &&& (st.a as int) < s.n()
    &&& (st.b as int) < s.n()
    &&& s.cycle@[st.a as int] == s.cycle@[st.b as int]
    &&& st.a_next as int == cur_next(s, st.a as int)
    &&& st.b_next as int == cur_next(s, st.b as int)
    &&& st.b != st.a
    &&& st.b != st.a_next
    &&& st.b_next != st.a
}

pub open spec fn applicable(s: TSPSolution, st: State) -> bool {
    if st.inter_cycle {
        applicable_inter(s, st)
    } else {
        applicable_edges(s, st)
    }
}

/// The exact effect on the tours of applying an applicable candidate: the
/// inter-cycle exchange swaps the two points at their recorded positions,
/// and the 2-opt move reverses the block between the two recorded edges.
pub open spec fn state_move_effect(s: TSPSolution, t: TSPSolution, st: State) -> bool {
    if st.inter_cycle {
        if s.cycle@[st.a as int] as int == 0 {
            let ca = s.order@[st.a as int] as int;
            let cb = s.order@[st.b as int] as int;
            &&& t.perm_a@ == s.perm_a@.update(ca, s.perm_b@[cb])
            &&& t.perm_b@ == s.perm_b@.update(cb, s.perm_a@[ca])
        } else {
            let ca = s.order@[st.b as int] as int;
            let cb = s.order@[st.a as int] as int;
            &&& t.perm_a@ == s.perm_a@.update(ca, s.perm_b@[cb])
            &&& t.perm_b@ == s.perm_b@.update(cb, s.perm_a@[ca])
        }
    } else {
        let cyc = s.cycle@[st.a as int] as int;
        let va = s.order@[st.a as int] as int;
        let vb = s.order@[st.b as int] as int;
        let u = unpacked_of_pair(s, cyc, va, vb);
        crate::tsp::neighborhoods::edges_transition::is_edges_reversal(s, t, u.0, u.1, u.2)
    }
}

/// Whether a fresh candidate involves one of the six points of the change
/// just applied: the localized rescan queues nothing else.
pub open spec fn touches(st2: State, st: State) -> bool {
    ||| st2.a == st.a
    ||| st2.a == st.a_prev
    ||| st2.a == st.a_next
    ||| st2.a == st.b
    ||| st2.a == st.b_prev
    ||| st2.a == st.b_next
}

/// Builds an inter-cycle candidate and scores it by its formula.
fn make_inter_state(
    a_prev: usize,
    a: usize,
    a_next: usize,
    b_prev: usize,
    b: usize,
    b_next: usize,
    instance: &TSPInstance,
) -> (st: State)
    requires
        instance.wf(),
        (a_prev as int) < instance.n(),
        (a as int) < instance.n(),
        (a_next as int) < instance.n(),
        (b_prev as int) < instance.n(),
        (b as int) < instance.n(),
        (b_next as int) < instance.n(),
    ensures
        st.a_prev == a_prev && st.a == a && st.a_next == a_next,
        st.b_prev == b_prev && st.b == b && st.b_next == b_next,
        st.inter_cycle,
        st.score as int == inter_formula(*instance, st),
{
    let score = instance.dist_k(b_prev, a) + instance.dist_k(a, b_next) + instance.dist_k(
        a_prev,
        b,
    ) + instance.dist_k(b, a_next) - instance.dist_k(a_prev, a) - instance.dist_k(a, a_next)
        - instance.dist_k(b_prev, b) - instance.dist_k(b, b_next);
    State { a_prev, a, a_next, b_prev, b, b_next, inter_cycle: true, score }
}

/// Builds a 2-opt candidate and scores it by its formula.
fn make_edges_state(a: usize, a_next: usize, b: usize, b_next: usize, instance: &TSPInstance) -> (st:
    State)
    requires
        instance.wf(),
        (a as int) < instance.n(),
        (a_next as int) < instance.n(),
        (b as int) < instance.n(),
        (b_next as int) < instance.n(),
    ensures
        st.a == a && st.a_next == a_next && st.b == b && st.b_next == b_next,
        st.a_prev == 0 && st.b_prev == 0,
        !st.inter_cycle,
        st.score as int == edges_formula(*instance, st),
{
    let score = instance.dist_k(a, b) + instance.dist_k(a_next, b_next) - instance.dist_k(
        a,
        a_next,
    ) - instance.dist_k(b, b_next);
    State { a_prev: 0, a, a_next, b_prev: 0, b, b_next, inter_cycle: false, score }
}

/// The point's current neighbors, read through the side tables.
pub(crate) fn neighbors_of(v: usize, solution: &TSPSolution) -> (r: (usize, usize, usize))
    requires
        solution.wf(),
        solution.n() <= usize::MAX as int,
        (v as int) < solution.n(),
    ensures
        r.0 as int == cur_prev(*solution, v as int),
        r.1 == v,
        r.2 as int == cur_next(*solution, v as int),
        (r.0 as int) < solution.n(),
        (r.2 as int) < solution.n(),
{
    proof {
        lemma_tables_locate(*solution, v as int);
    }
    let pos = solution.order[v];
    if solution.cycle[v] == 0 {
        get_neighbors_in_cycle(pos, &solution.perm_a)
    } else {
        get_neighbors_in_cycle(pos, &solution.perm_b)
    }
}

/// Removes and returns a candidate of minimal score, or nothing when the
/// queue is empty.
fn pop_min(q: &mut Vec<State>, Ghost(inst): Ghost<TSPInstance>) -> (r: Option<State>)
    requires
        queue_wf(inst, old(q)@),
    ensures
        queue_wf(inst, final (q)@),
        match r {
            Some(st) => state_wf(inst, st) && final (q)@.len() == old(q)@.len() - 1 && (forall|
                i: int,
            | 0 <= i < final (q)@.len() ==> st.score <= #[trigger] (final (q)@[i]).score) && (
            exists|k: int|
                0 <= k < old(q)@.len() && old(q)@[k] == st && final (q)@ == #[trigger] old(
                    q,
                )@.remove(k)),
            None => final (q)@.len() == old(q)@.len() && old(q)@.len() == 0,
        },
{
    if q.len() == 0 {
        return None;
    }
    let mut best: usize = 0;
    let mut i: usize = 1;
    let n = q.len();
    while i < n
        invariant
            queue_wf(inst, q@),
            n == q@.len(),
            best < i <= n,
            1 <= i,
            forall|k: int| 0 <= k < i ==> (q@[best as int]).score <= (#[trigger] q@[k]).score,
        decreases n - i,
    {
        if q[i].score < q[best].score {
            best = i;
        }
        i += 1;
    }
    let st = q.remove(best);
    proof {
        assert(old(q)@[best as int] == st && q@ == #[trigger] old(q)@.remove(best as int));
        assert forall|k: int| 0 <= k < q@.len() implies st.score <= (#[trigger] q@[k]).score by {
            if k < best as int {
                assert(q@[k] == old(q)@[k]);
            } else {
                assert(q@[k] == old(q)@[k + 1]);
            }
        }
        assert forall|k: int| 0 <= k < q@.len() implies state_wf(inst, #[trigger] q@[k]) by {
            if k < best as int {
                assert(q@[k] == old(q)@[k]);
            } else {
                assert(q@[k] == old(q)@[k + 1]);
            }
        }
    }
    Some(st)
}

/// Priority-queue local search with lazy invalidation: previously
/// discovered improving candidates are kept in a queue keyed by score and
/// validated against the present solution only when popped.
pub struct MemorySolver<S> {
    pub initial_solver: S,
}

impl<S> MemorySolver<S> {
    pub fn new(initial_solver: S) -> (r: MemorySolver<S>) {
        MemorySolver { initial_solver }
    }

    /// Scans the inter-cycle candidates that touch point `a` and queues the
    /// improving ones.
    fn update_vertex(
        &self,
        a: usize,
        instance: &TSPInstance,
        solution: &TSPSolution,
        q: &mut Vec<State>,
    )
        requires
            instance.wf(),
            solution.wf(),
            solution.n() == instance.n(),
            (a as int) < solution.n(),
            queue_wf(*instance, old(q)@),
        ensures
            queue_wf(*instance, final (q)@),
            final (q)@.len() >= old(q)@.len(),
            forall|i: int| 0 <= i < old(q)@.len() ==> final (q)@[i] == old(q)@[i],
            forall|i: int|
                old(q)@.len() <= i < final (q)@.len() ==> (#[trigger] final (q)@[i]).inter_cycle
                    && final (q)@[i].a == a,
            forall|st: State|
                st.inter_cycle && #[trigger] state_wf(*instance, st) && applicable_inter(
                    *solution,
                    st,
                ) && st.a == a ==> in_queue(final (q)@, st),
    {
        let (a_prev, a, a_next) = neighbors_of(a, solution);
        let mut b: usize = 0;
        let dim = instance.dimension;
        while b < dim
            invariant
                instance.wf(),
                solution.wf(),
                solution.n() == instance.n(),
                (a as int) < solution.n(),
                (a_prev as int) < solution.n(),
                (a_next as int) < solution.n(),
                a_prev as int == cur_prev(*solution, a as int),
                a_next as int == cur_next(*solution, a as int),
                b <= dim,
                dim == instance.dimension,
                queue_wf(*instance, q@),
                q@.len() >= old(q)@.len(),
                forall|i: int| 0 <= i < old(q)@.len() ==> q@[i] == old(q)@[i],
                forall|i: int|
                    old(q)@.len() <= i < q@.len() ==> (#[trigger] q@[i]).inter_cycle && q@[i].a
                        == a,
                forall|st: State|
                    st.inter_cycle && #[trigger] state_wf(*instance, st) && applicable_inter(
                        *solution,
                        st,
                    ) && st.a == a && (st.b as int) < b ==> in_queue(q@, st),
            decreases dim - b,
        {
            let ghost q_top = q@;
            if solution.cycle[a] != solution.cycle[b] {
                let (b_prev, b_mid, b_next) = neighbors_of(b, solution);
                let st = make_inter_state(a_prev, a, a_next, b_prev, b_mid, b_next, instance);
                if st.score < 0 {
                    let ghost pre = q@;
                    q.push(st);
                    proof {
                        assert forall|i: int| 0 <= i < q@.len() implies state_wf(
                            *instance,
                            #[trigger] q@[i],
                        ) by {
                            if i < pre.len() {
                                assert(q@[i] == pre[i]);
                            } else {
                                assert(q@[i] == st);
                            }
                        }
                        assert(q@[pre.len() as int] == st);
                        assert(in_queue(q@, st));
                    }
                }
                proof {
                    assert forall|st2: State|
                        st2.inter_cycle && #[trigger] state_wf(*instance, st2) && applicable_inter(
                            *solution,
                            st2,
                        ) && st2.a == a && (st2.b as int) == b as int implies in_queue(q@, st2) by {
                        assert(st2.b == b_mid);
                        assert(st2.a_prev == a_prev && st2.a_next == a_next);
                        assert(st2.b_prev == b_prev && st2.b_next == b_next);
                        assert(st2.score as int == inter_formula(*instance, st2));
                        assert(inter_formula(*instance, st2) == inter_formula(*instance, st));
                        assert(st2.score == st.score);
                        assert(st2 == st);
                    }
                }
            } else {
                proof {
                    assert forall|st2: State|
                        st2.inter_cycle && #[trigger] state_wf(*instance, st2) && applicable_inter(
                            *solution,
                            st2,
                        ) && st2.a == a && (st2.b as int) == b as int implies in_queue(q@, st2) by {
                        assert(solution.cycle@[st2.a as int] != solution.cycle@[st2.b as int]);
                        assert(false);
                    }
                }
            }
            proof {
                assert forall|st2: State|
                    st2.inter_cycle && #[trigger] state_wf(*instance, st2) && applicable_inter(
                        *solution,
                        st2,
                    ) && st2.a == a && (st2.b as int) < b + 1 implies in_queue(q@, st2) by {
                    if (st2.b as int) < b as int {
                        assert(in_queue(q_top, st2));
                        let i = choose|i: int| 0 <= i < q_top.len() && q_top[i] == st2;
                        assert(q@[i] == st2);
                    }
                }
            }
            b += 1;
        }
    }

    /// Scans the 2-opt candidates that pair the directed edge with every
    /// other edge of the same tour, in both orientations, and queues the
    /// improving ones.
    fn update_edge(
        &self,
        edge: (usize, usize),
        instance: &TSPInstance,
        solution: &TSPSolution,
        q: &mut Vec<State>,
    )
        requires
            instance.wf(),
            solution.wf(),
            solution.n() == instance.n(),
            (edge.0 as int) < solution.n(),
            (edge.1 as int) < solution.n(),
            queue_wf(*instance, old(q)@),
        ensures
            queue_wf(*instance, final (q)@),
            final (q)@.len() >= old(q)@.len(),
            forall|i: int| 0 <= i < old(q)@.len() ==> final (q)@[i] == old(q)@[i],
            forall|i: int|
                old(q)@.len() <= i < final (q)@.len() ==> !(#[trigger] final (
                q)@[i]).inter_cycle && final (q)@[i].a == edge.0 && final (q)@[i].a_next == edge.1,
            forall|st: State|
                !st.inter_cycle && #[trigger] state_wf(*instance, st) && applicable_edges(
                    *solution,
                    st,
                ) && st.a == edge.0 && st.a_next == edge.1 && st.a_prev == 0 && st.b_prev == 0
                    ==> in_queue(final (q)@, st),
    {
        let mut b: usize = 0;
        let dim = instance.dimension;
        while b < dim
            invariant
                instance.wf(),
                solution.wf(),
                solution.n() == instance.n(),
                (edge.0 as int) < solution.n(),
                (edge.1 as int) < solution.n(),
                b <= dim,
                dim == instance.dimension,
                queue_wf(*instance, q@),
                q@.len() >= old(q)@.len(),
                forall|i: int| 0 <= i < old(q)@.len() ==> q@[i] == old(q)@[i],
                forall|i: int|
                    old(q)@.len() <= i < q@.len() ==> !(#[trigger] q@[i]).inter_cycle && q@[i].a
                        == edge.0 && q@[i].a_next == edge.1,
                forall|st: State|
                    !st.inter_cycle && #[trigger] state_wf(*instance, st) && applicable_edges(
                        *solution,
                        st,
                    ) && st.a == edge.0 && st.a_next == edge.1 && st.a_prev == 0 && st.b_prev == 0
                        && (st.b as int) < b ==> in_queue(q@, st),
            decreases dim - b,
        {
            let ghost q_top = q@;
            if solution.cycle[edge.0] == solution.cycle[b] {
                let (_, b_mid, b_next) = neighbors_of(b, solution);
                if b_mid != edge.0 && b_mid != edge.1 && b_next != edge.0 && b_next != edge.1 {
                    let st = make_edges_state(edge.0, edge.1, b_mid, b_next, instance);
                    if st.score < 0 {
                        proof {
                            assert(state_wf(*instance, st));
                        }
                        let ghost pre = q@;
                        q.push(st);
                        proof {
                            assert forall|i: int| 0 <= i < q@.len() implies state_wf(
                                *instance,
                                #[trigger] q@[i],
                            ) by {
                                if i < pre.len() {
                                    assert(q@[i] == pre[i]);
                                } else {
                                    assert(q@[i] == st);
                                }
                            }
                            assert(q@[pre.len() as int] == st);
                            assert(in_queue(q@, st));
                        }
                    }
                    let ns = make_edges_state(edge.0, edge.1, b_next, b_mid, instance);
                    if ns.score < 0 {
                        proof {
                            assert(state_wf(*instance, ns));
                        }
                        let ghost pre = q@;
                        q.push(ns);
                        proof {
                            assert forall|i: int| 0 <= i < q@.len() implies state_wf(
                                *instance,
                                #[trigger] q@[i],
                            ) by {
                                if i < pre.len() {
                                    assert(q@[i] == pre[i]);
                                } else {
                                    assert(q@[i] == ns);
                                }
                            }
                        }
                    }
                    proof {
                        assert forall|st2: State|
                            !st2.inter_cycle && #[trigger] state_wf(*instance, st2)
                                && applicable_edges(*solution, st2) && st2.a == edge.0
                                && st2.a_next == edge.1 && st2.a_prev == 0 && st2.b_prev == 0 && (
                            st2.b as int) == b as int implies in_queue(q@, st2) by {
                            assert(st2.b == b_mid);
                            assert(st2.b_next == b_next);
                            assert(st2.score as int == edges_formula(*instance, st2));
                            assert(edges_formula(*instance, st2) == edges_formula(*instance, st));
                            assert(st2.score == st.score);
                            assert(st2 == st);
                            if st.score >= 0 {
                                assert(false);
                            }
                            assert(in_queue(q_top.push(st), st2)) by {
                                assert(q_top.push(st)[q_top.len() as int] == st2);
                            }
                            let i = choose|i: int|
                                0 <= i < q_top.push(st).len() && q_top.push(st)[i] == st2;
                            assert(q@[i] == st2);
                        }
                    }
                } else {
                    proof {
                        assert forall|st2: State|
                            !st2.inter_cycle && #[trigger] state_wf(*instance, st2)
                                && applicable_edges(*solution, st2) && st2.a == edge.0
                                && st2.a_next == edge.1 && st2.a_prev == 0 && st2.b_prev == 0 && (
                            st2.b as int) == b as int implies in_queue(q@, st2) by {
                            assert(st2.b == b_mid);
                            assert(st2.b_next == b_next);
                            assert(false);
                        }
                    }
                }
            } else {
                proof {
                    assert forall|st2: State|
                        !st2.inter_cycle && #[trigger] state_wf(*instance, st2) && applicable_edges(
                            *solution,
                            st2,
                        ) && st2.a == edge.0 && st2.a_next == edge.1 && st2.a_prev == 0
                            && st2.b_prev == 0 && (st2.b as int) == b as int implies in_queue(
                        q@,
                        st2,
                    ) by {
                        assert(solution.cycle@[st2.a as int] == solution.cycle@[st2.b as int]);
                        assert(false);
                    }
                }
            }
            proof {
                assert forall|st2: State|
                    !st2.inter_cycle && #[trigger] state_wf(*instance, st2) && applicable_edges(
                        *solution,
                        st2,
                    ) && st2.a == edge.0 && st2.a_next == edge.1 && st2.a_prev == 0 && st2.b_prev
                        == 0 && (st2.b as int) < b + 1 implies in_queue(q@, st2) by {
                    if (st2.b as int) < b as int {
                        assert(in_queue(q_top, st2));
                        let i = choose|i: int| 0 <= i < q_top.len() && q_top[i] == st2;
                        assert(q@[i] == st2);
                    }
                }
            }
            b += 1;
        }
    }

    /// Validates a popped candidate against the present solution: 0 means
    /// discard, 1 means defer (the snapshot matches only under a reversed
    /// orientation), 2 means the returned candidate is applicable now.
    fn is_valid(&self, s: &State, instance: &TSPInstance, solution: &TSPSolution) -> (r: (
        Option<State>,
        usize,
    ))
        requires
            instance.wf(),
            solution.wf(),
            solution.n() == instance.n(),
            state_wf(*instance, *s),
            2 <= solution.perm_a@.len(),
            2 <= solution.perm_b@.len(),
        ensures
            r.1 == 0 || r.1 == 1 || r.1 == 2,
            r.1 != 0 ==> (r.0 matches Some(ns) && state_wf(*instance, ns)),
            r.1 == 2 ==> applicable(*solution, r.0.unwrap()),
            r.1 == 1 ==> r.0 == Some(*s),
            applicable(*solution, *s) ==> r.1 == 2,
    {
        let (a_prev, a, a_next) = neighbors_of(s.a, solution);
        let (b_prev, b, b_next) = neighbors_of(s.b, solution);
        if s.inter_cycle {
            if solution.cycle[s.a] == solution.cycle[s.b] {
                (None, 0)
            } else {
                let ns = make_inter_state(a_prev, a, a_next, b_prev, b, b_next, instance);
                if ns.score == s.score {
                    (Some(ns), 2)
                } else {
                    (None, 0)
                }
            }
        } else {
            if solution.cycle[s.a] != solution.cycle[s.b] {
                (None, 0)
            } else if a_next == s.a_next && b_next == s.b_next {
                (Some(*s), 2)
            } else if a_prev == s.a_next && b_prev == s.b_next && b_prev != a && b != a_prev {
                // the snapshot matches with both edges reversed; rebuild the
                // candidate in the current orientation, unless the two edges
                // now touch, which would leave no real block to reverse
                let ns = make_edges_state(a_prev, a, b_prev, b, instance);
                proof {
                    lemma_cur_prev_next(*solution, s.a as int);
                    lemma_cur_prev_next(*solution, s.b as int);
                    lemma_cur_prev_distinct(*solution, s.a as int, s.b as int);
                }
                if ns.score < 0 {
                    (Some(ns), 2)
                } else {
                    (None, 0)
                }
            } else if (a_prev == s.a_next && b_next == s.b_next) || (a_next == s.a_next && b_prev
                == s.b_next) {
                (Some(*s), 1)
            } else {
                (None, 0)
            }
        }
    }
}

impl<S> MemorySolver<S> {
    /// Applies an applicable candidate and rescans only the points and
    /// edges adjacent to the change, queueing fresh improving candidates.
    /// The objective drops by exactly the candidate's score.
    fn apply_state(
        &self,
        ns: &State,
        instance: &TSPInstance,
        solution: &mut TSPSolution,
        q: &mut Vec<State>,
    )
        requires
            instance.wf(),
            old(solution).wf(),
            old(solution).n() == instance.n(),
            3 <= old(solution).perm_a@.len(),
            3 <= old(solution).perm_b@.len(),
            state_wf(*instance, *ns),
            applicable(*old(solution), *ns),
            queue_wf(*instance, old(q)@),
        ensures
            final (solution).wf(),
            final (solution).n() == instance.n(),
            final (solution).perm_a@.len() == old(solution).perm_a@.len(),
            final (solution).perm_b@.len() == old(solution).perm_b@.len(),
            queue_wf(*instance, final (q)@),
            final (q)@.len() >= old(q)@.len(),
            forall|i: int| 0 <= i < old(q)@.len() ==> final (q)@[i] == old(q)@[i],
            forall|i: int|
                old(q)@.len() <= i < final (q)@.len() ==> touches(#[trigger] final (q)@[i], *ns),
            state_move_effect(*old(solution), *final (solution), *ns),
            sol_cost(*instance, *final (solution)) == sol_cost(*instance, *old(solution))
                + ns.score,
    {
        proof {
            lemma_tables_locate(*old(solution), ns.a as int);
            lemma_tables_locate(*old(solution), ns.b as int);
        }
        if ns.inter_cycle {
            let t = InterCycleTransition::new();
            let ghost pre = *solution;
            if solution.cycle[ns.a] == 0 {
                let ca = solution.order[ns.a];
                let cb = solution.order[ns.b];
                proof {
                    assert((pre.cycle@[ns.b as int] as int) == 1) by {
                        if (pre.cycle@[ns.b as int] as int) == 0 {
                            assert(false);
                        }
                    }
                }
                t.apply_explicit(ca, cb, solution);
                proof {
                    crate::tsp::neighborhoods::inter_cycle_transition::lemma_inter_delta_correct(
                        *instance,
                        pre,
                        *solution,
                        ca as int,
                        cb as int,
                    );
                    assert(inter_delta(*instance, pre, ca as int, cb as int) == inter_formula(
                        *instance,
                        *ns,
                    ));
                }
            } else {
                let cb = solution.order[ns.a];
                let ca = solution.order[ns.b];
                proof {
                    assert((pre.cycle@[ns.b as int] as int) == 0) by {
                        if (pre.cycle@[ns.b as int] as int) != 0 {
                            assert(false);
                        }
                    }
                }
                t.apply_explicit(ca, cb, solution);
                proof {
                    crate::tsp::neighborhoods::inter_cycle_transition::lemma_inter_delta_correct(
                        *instance,
                        pre,
                        *solution,
                        ca as int,
                        cb as int,
                    );
                    assert(inter_delta(*instance, pre, ca as int, cb as int) == inter_formula(
                        *instance,
                        *ns,
                    ));
                }
            }
            let ghost l0 = q@.len() as int;
            self.update_edge((ns.a_prev, ns.b), instance, solution, q);
            let ghost l1 = q@.len() as int;
            self.update_edge((ns.b, ns.a_next), instance, solution, q);
            let ghost l2 = q@.len() as int;
            self.update_edge((ns.b_prev, ns.a), instance, solution, q);
            let ghost l3 = q@.len() as int;
            self.update_edge((ns.a, ns.b_next), instance, solution, q);
            let ghost l4 = q@.len() as int;
            self.update_vertex(ns.a_prev, instance, solution, q);
            let ghost l5 = q@.len() as int;
            self.update_vertex(ns.a, instance, solution, q);
            let ghost l6 = q@.len() as int;
            self.update_vertex(ns.a_next, instance, solution, q);
            let ghost l7 = q@.len() as int;
            self.update_vertex(ns.b_prev, instance, solution, q);
            let ghost l8 = q@.len() as int;
            self.update_vertex(ns.b, instance, solution, q);
            let ghost l9 = q@.len() as int;
            self.update_vertex(ns.b_next, instance, solution, q);
            proof {
                assert forall|i: int| l0 <= i < q@.len() implies touches(
                    #[trigger] q@[i],
                    *ns,
                ) by {
                    if i < l1 {
                        assert(q@[i].a == ns.a_prev);
                    } else if i < l2 {
                        assert(q@[i].a == ns.b);
                    } else if i < l3 {
                        assert(q@[i].a == ns.b_prev);
                    } else if i < l4 {
                        assert(q@[i].a == ns.a);
                    } else if i < l5 {
                        assert(q@[i].a == ns.a_prev);
                    } else if i < l6 {
                        assert(q@[i].a == ns.a);
                    } else if i < l7 {
                        assert(q@[i].a == ns.a_next);
                    } else if i < l8 {
                        assert(q@[i].a == ns.b_prev);
                    } else if i < l9 {
                        assert(q@[i].a == ns.b);
                    } else {
                        assert(q@[i].a == ns.b_next);
                    }
                }
            }
        } else {
            let t = EdgesTransition::new();
            let ghost pre = *solution;
            let cyc = solution.cycle[ns.a];
            let va = solution.order[ns.a];
            let vb = solution.order[ns.b];
            let ghost n_c = if cyc as int == 0 {
                pre.perm_a@.len() as int
            } else {
                pre.perm_b@.len() as int
            };
            proof {
                lemma_edges_positions(*old(solution), *ns, cyc as int, va as int, vb as int);
                assert(cyc == 0 || cyc == 1) by {
                    if (pre.cycle@[ns.a as int] as int) == 0 {
                    } else {
                        assert((pre.cycle@[ns.a as int] as int) == 1);
                    }
                }
            }
            t.apply_explicit(cyc, va, vb, solution);
            proof {
                let u = unpacked_of_pair(pre, cyc as int, va as int, vb as int);
                lemma_edges_delta_matches(*instance, pre, *ns, cyc as int, va as int, vb as int);
                if cyc as int == 0 {
                    crate::tsp::neighborhoods::edges_transition::lemma_edges_delta_correct(
                        *instance,
                        pre.perm_a@,
                        u.1,
                        u.2,
                    );
                } else {
                    crate::tsp::neighborhoods::edges_transition::lemma_edges_delta_correct(
                        *instance,
                        pre.perm_b@,
                        u.1,
                        u.2,
                    );
                }
            }
            let ghost l0 = q@.len() as int;
            self.update_edge((ns.a, ns.b), instance, solution, q);
            let ghost l1 = q@.len() as int;
            self.update_edge((ns.a_next, ns.b_next), instance, solution, q);
            let ghost l2 = q@.len() as int;
            self.update_vertex(ns.a, instance, solution, q);
            let ghost l3 = q@.len() as int;
            self.update_vertex(ns.a_next, instance, solution, q);
            let ghost l4 = q@.len() as int;
            self.update_vertex(ns.b, instance, solution, q);
            let ghost l5 = q@.len() as int;
            self.update_vertex(ns.b_next, instance, solution, q);
            proof {
                assert forall|i: int| l0 <= i < q@.len() implies touches(
                    #[trigger] q@[i],
                    *ns,
                ) by {
                    if i < l1 {
                        assert(q@[i].a == ns.a);
                    } else if i < l2 {
                        assert(q@[i].a == ns.a_next);
                    } else if i < l3 {
                        assert(q@[i].a == ns.a);
                    } else if i < l4 {
                        assert(q@[i].a == ns.a_next);
                    } else if i < l5 {
                        assert(q@[i].a == ns.b);
                    } else {
                        assert(q@[i].a == ns.b_next);
                    }
                }
            }
        }
    }
}

impl<S> MemorySolver<S> {
    /// Drains the queue until one candidate validates and is applied, or
    /// the queue runs dry.  Deferred candidates are pushed back just before
    /// a move is applied, as the lazy-invalidation discipline requires.
    fn improve_once(
        &self,
        instance: &TSPInstance,
        solution: &mut TSPSolution,
        q: &mut Vec<State>,
    ) -> (improved: bool)
        requires
            instance.wf(),
            old(solution).wf(),
            old(solution).n() == instance.n(),
            3 <= old(solution).perm_a@.len(),
            3 <= old(solution).perm_b@.len(),
            queue_wf(*instance, old(q)@),
        ensures
            final (solution).wf(),
            final (solution).n() == instance.n(),
            final (solution).perm_a@.len() == old(solution).perm_a@.len(),
            final (solution).perm_b@.len() == old(solution).perm_b@.len(),
            queue_wf(*instance, final (q)@),
            improved ==> sol_cost(*instance, *final (solution)) < sol_cost(
                *instance,
                *old(solution),
            ),
            !improved ==> *final (solution) == *old(solution),
            (exists|i: int|
                0 <= i < old(q)@.len() && applicable(*old(solution), #[trigger] old(q)@[i]))
                ==> improved,
    {
        let mut to_add: Vec<State> = Vec::new();
        loop
            invariant_except_break
                *solution == *old(solution),
                (exists|i: int|
                    0 <= i < old(q)@.len() && applicable(*old(solution), #[trigger] old(q)@[i]))
                    ==> (exists|i: int|
                    0 <= i < q@.len() && applicable(*old(solution), #[trigger] q@[i])),
            invariant
                instance.wf(),
                solution.wf(),
                solution.n() == instance.n(),
                3 <= solution.perm_a@.len(),
                3 <= solution.perm_b@.len(),
                solution.perm_a@.len() == old(solution).perm_a@.len(),
                solution.perm_b@.len() == old(solution).perm_b@.len(),
                queue_wf(*instance, q@),
                queue_wf(*instance, to_add@),
            ensures
                *solution == *old(solution),
                queue_wf(*instance, q@),
                q@.len() == 0,
                (exists|i: int|
                    0 <= i < old(q)@.len() && applicable(*old(solution), #[trigger] old(q)@[i]))
                    ==> (exists|i: int|
                    0 <= i < q@.len() && applicable(*old(solution), #[trigger] q@[i])),
            decreases q@.len(),
        {
            let ghost q_before = q@;
            let popped = pop_min(q, Ghost(*instance));
            match popped {
                None => {
                    break ;
                },
                Some(s) => {
                    proof {
                        if !applicable(*solution, s) {
                            let k = choose|k: int|
                                0 <= k < q_before.len() && q_before[k] == s && q@
                                    == #[trigger] q_before.remove(k);
                            assert forall|i: int|
                                0 <= i < q_before.len() && applicable(
                                    *old(solution),
                                    #[trigger] q_before[i],
                                ) implies exists|j: int|
                                0 <= j < q@.len() && applicable(
                                    *old(solution),
                                    #[trigger] q@[j],
                                ) by {
                                if i < k {
                                    assert(q@[i] == q_before[i]);
                                } else if i > k {
                                    assert(q@[i - 1] == q_before[i]);
                                } else {
                                    assert(q_before[i] == s);
                                    assert(false);
                                }
                            }
                        }
                    }
                    let (vs, c) = self.is_valid(&s, instance, solution);
                    if c == 2 {
                        let ns = vs.unwrap();
                        let mut k: usize = 0;
                        let n_add = to_add.len();
                        while k < n_add
                            invariant
                                instance.wf(),
                                queue_wf(*instance, q@),
                                queue_wf(*instance, to_add@),
                                n_add == to_add@.len(),
                                k <= n_add,
                            decreases n_add - k,
                        {
                            let ghost pre = q@;
                            let item = to_add[k];
                            q.push(item);
                            proof {
                                assert forall|i: int| 0 <= i < q@.len() implies state_wf(
                                    *instance,
                                    #[trigger] q@[i],
                                ) by {
                                    if i < pre.len() {
                                        assert(q@[i] == pre[i]);
                                    } else {
                                        assert(q@[i] == item);
                                    }
                                }
                            }
                            k += 1;
                        }
                        self.apply_state(&ns, instance, solution, q);
                        return true;
                    } else if c == 1 {
                        let ghost pre = to_add@;
                        let item = vs.unwrap();
                        to_add.push(item);
                        proof {
                            assert forall|i: int| 0 <= i < to_add@.len() implies state_wf(
                                *instance,
                                #[trigger] to_add@[i],
                            ) by {
                                if i < pre.len() {
                                    assert(to_add@[i] == pre[i]);
                                } else {
                                    assert(to_add@[i] == item);
                                }
                            }
                        }
                    }
                },
            }
        }
        false
    }

    /// Seeds the queue with every improving candidate that touches each
    /// point, then drains it to a local optimum.
    fn solve_impl(&self, instance: &TSPInstance, mut solution: TSPSolution) -> (r: TSPSolution)
        requires
            instance.wf(),
            solution.wf(),
            solution.n() == instance.n(),
            3 <= solution.perm_a@.len(),
            3 <= solution.perm_b@.len(),
        ensures
            r.wf(),
            r.n() == instance.n(),
            3 <= r.perm_a@.len(),
            3 <= r.perm_b@.len(),
            sol_cost(*instance, r) <= sol_cost(*instance, solution),
            (exists|st: State| #[trigger] state_wf(*instance, st) && applicable(solution, st))
                ==> sol_cost(*instance, r) < sol_cost(*instance, solution),
    {
        let ghost start = solution;
        let mut q: Vec<State> = Vec::new();
        let dim = instance.dimension;
        let mut i: usize = 0;
        while i < dim
            invariant
                instance.wf(),
                solution.wf(),
                solution == start,
                solution.n() == instance.n(),
                dim == instance.dimension,
                i <= dim,
                queue_wf(*instance, q@),
                forall|st: State|
                    st.inter_cycle && #[trigger] state_wf(*instance, st) && applicable_inter(
                        start,
                        st,
                    ) && (st.a as int) < i ==> in_queue(q@, st),
                forall|st: State|
                    !st.inter_cycle && #[trigger] state_wf(*instance, st) && applicable_edges(
                        start,
                        st,
                    ) && st.a_prev == 0 && st.b_prev == 0 && (st.a as int) < i ==> in_queue(q@, st),
            decreases dim - i,
        {
            let ghost q0 = q@;
            self.update_vertex(i, instance, &solution, &mut q);
            let ghost q1 = q@;
            let (_, _, i_next) = neighbors_of(i, &solution);
            self.update_edge((i, i_next), instance, &solution, &mut q);
            proof {
                assert forall|st: State|
                    st.inter_cycle && #[trigger] state_wf(*instance, st) && applicable_inter(
                        start,
                        st,
                    ) && (st.a as int) < i + 1 implies in_queue(q@, st) by {
                    if (st.a as int) < i as int {
                        let k = choose|k: int| 0 <= k < q0.len() && q0[k] == st;
                        assert(q1[k] == st);
                        assert(q@[k] == st);
                    } else {
                        assert(in_queue(q1, st));
                        let k = choose|k: int| 0 <= k < q1.len() && q1[k] == st;
                        assert(q@[k] == st);
                    }
                }
                assert forall|st: State|
                    !st.inter_cycle && #[trigger] state_wf(*instance, st) && applicable_edges(
                        start,
                        st,
                    ) && st.a_prev == 0 && st.b_prev == 0 && (st.a as int) < i + 1 implies in_queue(
                    q@,
                    st,
                ) by {
                    if (st.a as int) < i as int {
                        let k = choose|k: int| 0 <= k < q0.len() && q0[k] == st;
                        assert(q1[k] == st);
                        assert(q@[k] == st);
                    } else {
                        assert(st.a == i);
                        assert(st.a_next as int == cur_next(start, i as int));
                        assert(st.a_next == i_next);
                    }
                }
            }
            i += 1;
        }
        let ghost had_candidate = exists|st: State|
            #[trigger] state_wf(*instance, st) && applicable(start, st);
        proof {
            if had_candidate {
                lemma_seeded_queue_has_candidate(*instance, start, q@);
            }
        }
        let mut improvement_flag = self.improve_once(instance, &mut solution, &mut q);
        let ghost first_improved = improvement_flag;
        let ghost mut fuel: int = 1;
        proof {
            lemma_range_cost_bounds(*instance, solution.perm_a@, 0, solution.perm_a@.len() as int);
            lemma_range_cost_bounds(*instance, solution.perm_b@, 0, solution.perm_b@.len() as int);
            fuel = if improvement_flag {
                1int
            } else {
                0int
            };
            assert(had_candidate ==> first_improved);
        }
        while improvement_flag
            invariant
                instance.wf(),
                solution.wf(),
                solution.n() == instance.n(),
                3 <= solution.perm_a@.len(),
                3 <= solution.perm_b@.len(),
                solution.perm_a@.len() == start.perm_a@.len(),
                solution.perm_b@.len() == start.perm_b@.len(),
                queue_wf(*instance, q@),
                sol_cost(*instance, solution) <= sol_cost(*instance, start),
                sol_cost(*instance, solution) >= 0,
                first_improved ==> sol_cost(*instance, solution) < sol_cost(*instance, start),
                had_candidate ==> first_improved,
                improvement_flag ==> fuel == 1,
                0 <= fuel <= 1,
            decreases sol_cost(*instance, solution) + fuel,
        {
            improvement_flag = self.improve_once(instance, &mut solution, &mut q);
            proof {
                lemma_range_cost_bounds(
                    *instance,
                    solution.perm_a@,
                    0,
                    solution.perm_a@.len() as int,
                );
                lemma_range_cost_bounds(
                    *instance,
                    solution.perm_b@,
                    0,
                    solution.perm_b@.len() as int,
                );
                fuel = if improvement_flag {
                    1int
                } else {
                    0int
                };
            }
        }
        solution
    }
}

/// After seeding, the queue holds an applicable candidate whenever any
/// exists: an inter-cycle candidate's fields are all forced by the present
/// neighbors, and a 2-opt candidate matches its queued twin with the unused
/// predecessor fields zeroed.
proof fn lemma_seeded_queue_has_candidate(inst: TSPInstance, s: TSPSolution, q: Seq<State>)
    requires
        inst.wf(),
        s.wf(),
        s.n() == inst.n(),
        1 <= s.n(),
        exists|st: State| #[trigger] state_wf(inst, st) && applicable(s, st),
        forall|st: State|
            st.inter_cycle && #[trigger] state_wf(inst, st) && applicable_inter(s, st) && (
            st.a as int) < s.n() ==> in_queue(q, st),
        forall|st: State|
            !st.inter_cycle && #[trigger] state_wf(inst, st) && applicable_edges(s, st)
                && st.a_prev == 0 && st.b_prev == 0 && (st.a as int) < s.n() ==> in_queue(q, st),
    ensures
        exists|i: int| 0 <= i < q.len() && applicable(s, #[trigger] q[i]),
{
    let st = choose|st: State| #[trigger] state_wf(inst, st) && applicable(s, st);
    if st.inter_cycle {
        assert(in_queue(q, st));
        let i = choose|i: int| 0 <= i < q.len() && q[i] == st;
        assert(applicable(s, q[i]));
    } else {
        let st2 = State {
            a_prev: 0,
            b_prev: 0,
            a: st.a,
            a_next: st.a_next,
            b: st.b,
            b_next: st.b_next,
            inter_cycle: false,
            score: st.score,
        };
        assert(edges_formula(inst, st2) == edges_formula(inst, st));
        assert(state_wf(inst, st2));
        assert(applicable_edges(s, st2));
        assert(in_queue(q, st2));
        let i = choose|i: int| 0 <= i < q.len() && q[i] == st2;
        assert(applicable(s, q[i]));
    }
}

impl<S: Solver> Solver for MemorySolver<S> {
    fn solve(&self, start_vertex: usize, instance: &TSPInstance) -> (r: TSPSolution) {
        let solution = self.initial_solver.solve(start_vertex, instance);
        self.solve_impl(instance, solution)
    }

    fn solve_s(&self, start_vertex: usize, instance: &TSPInstance, solution: TSPSolution) -> (r:
        TSPSolution)
        ensures
            sol_cost(*instance, r) <= sol_cost(*instance, solution),
            (exists|st: State| #[trigger] state_wf(*instance, st) && applicable(solution, st))
                ==> sol_cost(*instance, r) < sol_cost(*instance, solution),
    {
        self.solve_impl(instance, solution)
    }
}

/// An applicable 2-opt candidate's endpoints sit at a workable cyclic gap:
/// neither coincident nor adjacent in the wrong way.
proof fn lemma_edges_positions(s: TSPSolution, st: State, cyc: int, va: int, vb: int)
    requires
        s.wf(),
        s.n() <= usize::MAX,
        state_wf_shape(st),
        applicable_edges(s, st),
        cyc == s.cycle@[st.a as int] as int,
        va == s.order@[st.a as int] as int,
        vb == s.order@[st.b as int] as int,
    ensures
        cyc == 0 ==> va < s.perm_a@.len() && vb < s.perm_a@.len() && pack_gap(
            s.perm_a@.len() as int,
            va,
            vb,
        ),
        cyc != 0 ==> va < s.perm_b@.len() && vb < s.perm_b@.len() && pack_gap(
            s.perm_b@.len() as int,
            va,
            vb,
        ),
{
    lemma_tables_locate(s, st.a as int);
    lemma_tables_locate(s, st.b as int);
    if cyc == 0 {
        let p = s.perm_a@;
        let n = p.len() as int;
        assert(p[va] as int == st.a as int);
        assert(p[vb] as int == st.b as int);
        assert(va != vb);
        let g = pos_gap(n, va, vb);
        assert(0 <= g < n);
        if g == 1 {
            assert(vb == next_pos(n, va));
            assert(cur_next(s, st.a as int) == p[vb] as int);
            assert(false);
        }
        if g == n - 1 {
            assert(va == next_pos(n, vb));
            assert(cur_next(s, st.b as int) == p[va] as int);
            assert(false);
        }
    } else {
        let p = s.perm_b@;
        let n = p.len() as int;
        assert((s.cycle@[st.a as int] as int) == 1);
        assert(p[va] as int == st.a as int);
        assert(p[vb] as int == st.b as int);
        assert(va != vb);
        let g = pos_gap(n, va, vb);
        assert(0 <= g < n);
        if g == 1 {
            assert(vb == next_pos(n, va));
            assert(cur_next(s, st.a as int) == p[vb] as int);
            assert(false);
        }
        if g == n - 1 {
            assert(va == next_pos(n, vb));
            assert(cur_next(s, st.b as int) == p[va] as int);
            assert(false);
        }
    }
}

/// The shape part of a candidate's well-formedness, independent of scores.
pub open spec fn state_wf_shape(st: State) -> bool {
    &&& st.b != st.a
    &&& st.b != st.a_next
    &&& st.b_next != st.a
}

/// The 2-opt delta at the packed positions is the candidate's own formula.
proof fn lemma_edges_delta_matches(
    inst: TSPInstance,
    s: TSPSolution,
    st: State,
    cyc: int,
    va: int,
    vb: int,
)
    requires
        inst.wf(),
        s.wf(),
        s.n() == inst.n(),
        applicable_edges(s, st),
        state_wf_shape(st),
        cyc == s.cycle@[st.a as int] as int,
        va == s.order@[st.a as int] as int,
        vb == s.order@[st.b as int] as int,
        cyc == 0 ==> pack_gap(s.perm_a@.len() as int, va, vb),
        cyc != 0 ==> pack_gap(s.perm_b@.len() as int, va, vb),
    ensures
        cyc == 0 ==> crate::tsp::neighborhoods::edges_transition::edges_delta_perm(
            inst,
            s.perm_a@,
            unpacked_of_pair(s, 0, va, vb).1,
            unpacked_of_pair(s, 0, va, vb).2,
        ) == edges_formula(inst, st),
        cyc != 0 ==> crate::tsp::neighborhoods::edges_transition::edges_delta_perm(
            inst,
            s.perm_b@,
            unpacked_of_pair(s, 1, va, vb).1,
            unpacked_of_pair(s, 1, va, vb).2,
        ) == edges_formula(inst, st),
{
    lemma_tables_locate(s, st.a as int);
    lemma_tables_locate(s, st.b as int);
    if cyc == 0 {
        let p = s.perm_a@;
        let n = p.len() as int;
        let start = if va + 1 == n {
            0
        } else {
            va + 1
        };
        let shift = pos_gap(n, va, vb) - 2;
        assert(p[start] as int == cur_next(s, st.a as int));
        assert(prev_pos(n, start) == va);
        let vbp = if start + shift + 1 < n {
            start + shift + 1
        } else {
            start + shift + 1 - n
        };
        assert(vbp == vb);
        assert(p[next_pos(n, vb)] as int == cur_next(s, st.b as int));
    } else {
        let p = s.perm_b@;
        let n = p.len() as int;
        assert((s.cycle@[st.a as int] as int) == 1);
        let start = if va + 1 == n {
            0
        } else {
            va + 1
        };
        let shift = pos_gap(n, va, vb) - 2;
        assert(p[start] as int == cur_next(s, st.a as int));
        assert(prev_pos(n, start) == va);
        let vbp = if start + shift + 1 < n {
            start + shift + 1
        } else {
            start + shift + 1 - n
        };
        assert(vbp == vb);
        assert(p[next_pos(n, vb)] as int == cur_next(s, st.b as int));
    }
}

/// Following an edge backward and then forward returns to the same point.
proof fn lemma_cur_prev_next(s: TSPSolution, v: int)
    requires
        s.wf(),
        s.n() <= usize::MAX,
        0 <= v < s.n(),
    ensures
        cur_next(s, cur_prev(s, v)) == v,
        0 <= cur_prev(s, v) < s.n(),
        s.cycle@[cur_prev(s, v)] == s.cycle@[v],
{
    lemma_tables_locate(s, v);
    if s.cycle@[v] as int == 0 {
        let pa = s.perm_a@;
        let pos = s.order@[v] as int;
        let pp = prev_pos(pa.len() as int, pos);
        let w = pa[pp] as int;
        assert((s.cycle@[pa[pp] as int] as int) == 0);
        assert((s.order@[pa[pp] as int] as int) == pp);
        assert(next_pos(pa.len() as int, pp) == pos);
    } else {
        let pb = s.perm_b@;
        let pos = s.order@[v] as int;
        let pp = prev_pos(pb.len() as int, pos);
        assert((s.cycle@[pb[pp] as int] as int) == 1);
        assert((s.order@[pb[pp] as int] as int) == pp);
        assert(next_pos(pb.len() as int, pp) == pos);
    }
}

/// Distinct points of one tour have distinct predecessors.
proof fn lemma_cur_prev_distinct(s: TSPSolution, v: int, w: int)
    requires
        s.wf(),
        s.n() <= usize::MAX,
        0 <= v < s.n(),
        0 <= w < s.n(),
        v != w,
        s.cycle@[v] == s.cycle@[w],
    ensures
        cur_prev(s, v) != cur_prev(s, w),
{
    lemma_tables_locate(s, v);
    lemma_tables_locate(s, w);
    if s.cycle@[v] as int == 0 {
        let pa = s.perm_a@;
        let pv = s.order@[v] as int;
        let pw = s.order@[w] as int;
        assert(pv != pw);
        assert(prev_pos(pa.len() as int, pv) != prev_pos(pa.len() as int, pw));
    } else {
        let pb = s.perm_b@;
        let pv = s.order@[v] as int;
        let pw = s.order@[w] as int;
        assert(pv != pw);
        assert(prev_pos(pb.len() as int, pv) != prev_pos(pb.len() as int, pw));
    }
}

} // verus!
