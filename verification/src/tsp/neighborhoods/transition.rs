use crate::tsp::def::{next_pos, prev_pos, TSPInstance, TSPSolution};
use crate::tsp::neighborhoods::edges_transition::{edges_delta, edges_unpack, EdgesTransition};
use crate::tsp::neighborhoods::inter_cycle_transition::{inter_delta, InterCycleTransition};
use crate::tsp::neighborhoods::vertex_transition::{vertex_delta, vertex_unpack, VertexTransition};
use vstd::prelude::*;

verus! {

/// The closed set of move kinds that the enumerator can compose.
#[derive(Clone, Copy, PartialEq, Eq, Structural)]
pub enum TransitionKind {
    InterCycle,
    Edges,
    Vertex,
}

/// The size of one kind's address space, as a function of the two tour
/// lengths.
pub open spec fn kind_size(k: TransitionKind, s: TSPSolution) -> int {
    match k {
        TransitionKind::InterCycle => InterCycleTransition::size_spec(s),
        TransitionKind::Edges => EdgesTransition::size_spec(s),
        TransitionKind::Vertex => VertexTransition::size_spec(s),
    }
}

/// Walks the composed kinds from position `i` with remaining index `cur`,
/// and names the kind that claims the index together with the kind-local
/// index.
pub open spec fn locate(s: TSPSolution, ts: Seq<TransitionKind>, i: int, cur: int) -> Option<
    (int, int),
>
    decreases ts.len() - i,
{
    if i < 0 || i >= ts.len() {
        None
    } else if cur <= kind_size(ts[i], s) {
        Some((i, cur))
    } else {
        locate(s, ts, i + 1, cur - kind_size(ts[i], s))
    }
}

/// The delta that the kind's own scoring assigns to its local move index.
pub open spec fn kind_delta(inst: TSPInstance, s: TSPSolution, k: TransitionKind, local: int) -> int {
    match k {
        TransitionKind::InterCycle => inter_delta(
            inst,
            s,
            (local - 1) / (s.perm_b@.len() as int),
            (local - 1) % (s.perm_b@.len() as int),
        ),
        TransitionKind::Edges => edges_delta(
            inst,
            s,
            edges_unpack(s, local).0,
            edges_unpack(s, local).1,
            edges_unpack(s, local).2,
        ),
        TransitionKind::Vertex => vertex_delta(
            inst,
            s,
            vertex_unpack(s, local).0,
            vertex_unpack(s, local).1,
            vertex_unpack(s, local).2,
        ),
    }
}

/// The exact effect on the two tours of applying a kind's move at a local
/// index: the dispatcher hands this through from the owning kind.
pub open spec fn kind_effect(
    s: TSPSolution,
    t: TSPSolution,
    k: TransitionKind,
    local: int,
) -> bool {
    match k {
        TransitionKind::InterCycle => {
            let nb = s.perm_b@.len() as int;
            let ca = (local - 1) / nb;
            let cb = (local - 1) % nb;
            &&& t.perm_a@ == s.perm_a@.update(ca, s.perm_b@[cb])
            &&& t.perm_b@ == s.perm_b@.update(cb, s.perm_a@[ca])
        },
        TransitionKind::Edges => crate::tsp::neighborhoods::edges_transition::is_edges_reversal(
            s,
            t,
            edges_unpack(s, local).0,
            edges_unpack(s, local).1,
            edges_unpack(s, local).2,
        ),
        TransitionKind::Vertex => crate::tsp::neighborhoods::vertex_transition::is_vertex_swap(
            s,
            t,
            vertex_unpack(s, local).0,
            vertex_unpack(s, local).1,
            vertex_unpack(s, local).2,
        ),
    }
}

/// The move a steepest pass applies, named by its global index `tm`: an
/// improving move of minimal delta whose effect took `s` to `t`, and the
/// first move of that minimal delta in scan order.
pub open spec fn steepest_choice(
    inst: TSPInstance,
    s: TSPSolution,
    t: TSPSolution,
    ts: Seq<TransitionKind>,
    tm: int,
) -> bool {
    &&& 1 <= tm
    &&& match locate(s, ts, 0, tm) {
        Some(kl) => {
            &&& kind_delta(inst, s, ts[kl.0], kl.1) < 0
            &&& kind_effect(s, t, ts[kl.0], kl.1)
            &&& forall|t2: int|
                1 <= t2 ==> match #[trigger] locate(s, ts, 0, t2) {
                    Some(kl2) => kind_delta(inst, s, ts[kl2.0], kl2.1) >= kind_delta(
                        inst,
                        s,
                        ts[kl.0],
                        kl.1,
                    ),
                    None => true,
                }
            &&& forall|t2: int|
                1 <= t2 < tm ==> match #[trigger] locate(s, ts, 0, t2) {
                    Some(kl2) => kind_delta(inst, s, ts[kl2.0], kl2.1) > kind_delta(
                        inst,
                        s,
                        ts[kl.0],
                        kl.1,
                    ),
                    None => true,
                }
        },
        None => false,
    }
}

/// A solution is a local optimum of the composed move space when no
/// addressable move scores below zero against it.
pub open spec fn is_local_optimum(inst: TSPInstance, s: TSPSolution, ts: Seq<TransitionKind>) -> bool {
    forall|t: int|
        1 <= t ==> match #[trigger] locate(s, ts, 0, t) {
            Some(kl) => kind_delta(inst, s, ts[kl.0], kl.1) >= 0,
            None => true,
        }
}

/// Where a move lands and what it scores depend only on the two tours, not
/// on the side tables.
pub proof fn lemma_locate_perms(
    s: TSPSolution,
    t: TSPSolution,
    ts: Seq<TransitionKind>,
    i: int,
    cur: int,
)
    requires
        s.perm_a@ == t.perm_a@,
        s.perm_b@ == t.perm_b@,
    ensures
        locate(s, ts, i, cur) == locate(t, ts, i, cur),
    decreases ts.len() - i,
{
    if 0 <= i < ts.len() {
        lemma_kind_size_depends_on_lens(ts[i], s, t);
        if cur > kind_size(ts[i], s) {
            lemma_locate_perms(s, t, ts, i + 1, cur - kind_size(ts[i], s));
        }
    }
}

/// Local optimality carries over to any solution with the same tours: every
/// move's location and score read only the tours.
pub proof fn lemma_local_optimum_perms(
    inst: TSPInstance,
    s: TSPSolution,
    t: TSPSolution,
    ts: Seq<TransitionKind>,
)
    requires
        is_local_optimum(inst, s, ts),
        s.perm_a@ == t.perm_a@,
        s.perm_b@ == t.perm_b@,
    ensures
        is_local_optimum(inst, t, ts),
{
    assert forall|x: int| 1 <= x implies match #[trigger] locate(t, ts, 0, x) {
        Some(kl) => kind_delta(inst, t, ts[kl.0], kl.1) >= 0,
        None => true,
    } by {
        lemma_locate_perms(s, t, ts, 0, x);
        match locate(s, ts, 0, x) {
            Some(kl) => {
                assert(kind_delta(inst, s, ts[kl.0], kl.1) >= 0);
                assert(kind_delta(inst, t, ts[kl.0], kl.1) == kind_delta(inst, s, ts[kl.0], kl.1));
            },
            None => {},
        }
    }
}

/// The kind sets the engines compose: a few kinds, always including the
/// inter-cycle exchange, and never mixing the 2-opt reversal with the
/// vertex exchange, whose applications leave the position table stale.
pub open spec fn kinds_ok(ts: Seq<TransitionKind>) -> bool {
    &&& ts.len() <= 3
    &&& ts.contains(TransitionKind::InterCycle)
    &&& !(ts.contains(TransitionKind::Edges) && ts.contains(TransitionKind::Vertex))
}

/// A kind's address-space size depends only on the two tour lengths.
pub proof fn lemma_kind_size_depends_on_lens(k: TransitionKind, s: TSPSolution, t: TSPSolution)
    requires
        s.perm_a@.len() == t.perm_a@.len(),
        s.perm_b@.len() == t.perm_b@.len(),
    ensures
        kind_size(k, s) == kind_size(k, t),
{
}

/// The point at position `id` of the tour, together with its two
/// cycle-neighbors.
pub fn get_neighbors_in_cycle(id: usize, perm: &Vec<usize>) -> (r: (usize, usize, usize))
    requires
        id < perm@.len(),
    ensures
        r.0 == perm@[prev_pos(perm@.len() as int, id as int)],
        r.1 == perm@[id as int],
        r.2 == perm@[next_pos(perm@.len() as int, id as int)],
{
    let n = perm.len();
    let prev = if id == 0 {
        n - 1
    } else {
        id - 1
    };
    let next = if id + 1 == n {
        0
    } else {
        id + 1
    };
    (perm[prev], perm[id], perm[next])
}

} // verus!
