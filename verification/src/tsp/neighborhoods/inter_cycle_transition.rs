use crate::tsp::def::{
    lemma_update_cost, next_pos, prev_pos, sol_cost, TSPInstance, TSPSolution, MAX_DIM,
};
use crate::tsp::neighborhoods::transition::get_neighbors_in_cycle;
use vstd::prelude::*;

verus! {

/// The move that exchanges one point of each tour: both points change
/// membership while every tour keeps its length.
pub struct InterCycleTransition {}

/// The cost change of exchanging the points at position `ca` of the first
/// tour and `cb` of the second: the four new adjacent edges minus the four
/// removed ones, with each point's neighbors read before the swap.
pub open spec fn inter_delta(inst: TSPInstance, s: TSPSolution, ca: int, cb: int) -> int {
    let pa = s.perm_a@;
    let pb = s.perm_b@;
    let n_a = pa.len() as int;
    let n_b = pb.len() as int;
    let a = pa[ca] as int;
    let b = pb[cb] as int;
    let a_prev = pa[prev_pos(n_a, ca)] as int;
    let a_next = pa[next_pos(n_a, ca)] as int;
    let b_prev = pb[prev_pos(n_b, cb)] as int;
    let b_next = pb[next_pos(n_b, cb)] as int;
    inst.d(b_prev, a) + inst.d(a, b_next) + inst.d(a_prev, b) + inst.d(b, a_next) - inst.d(
        a_prev,
        a,
    ) - inst.d(a, a_next) - inst.d(b_prev, b) - inst.d(b, b_next)
}

impl InterCycleTransition {
    pub fn new() -> (r: InterCycleTransition) {
        InterCycleTransition {  }
    }

    /// The number of addressable moves of this kind.
    pub open spec fn size_spec(s: TSPSolution) -> int {
        s.perm_a@.len() * (s.perm_b@.len() as int)
    }

    pub fn size(&self, solution: &TSPSolution) -> (r: usize)
        requires
            solution.perm_a@.len() * solution.perm_b@.len() <= usize::MAX as int,
        ensures
            r as int == Self::size_spec(*solution),
    {
        let n_a = solution.perm_a.len();
        let n_b = solution.perm_b.len();
        n_a * n_b
    }

    /// Decodes a 1-based move index into tour positions, or nothing when the
    /// index lies beyond this kind's address space.
    pub fn unpack_state(&self, state: usize, solution: &TSPSolution) -> (r: Option<(usize, usize)>)
        requires
            1 <= state,
            1 <= solution.perm_b@.len(),
        ensures
            match r {
                Some(pair) => {
                    &&& state - 1 < Self::size_spec(*solution)
                    &&& pair.0 as int == (state - 1) as int / (solution.perm_b@.len() as int)
                    &&& pair.1 as int == (state - 1) as int % (solution.perm_b@.len() as int)
                    &&& (pair.0 as int) < solution.perm_a@.len()
                    &&& (pair.1 as int) < solution.perm_b@.len()
                },
                None => state - 1 >= Self::size_spec(*solution),
            },
    {
        let state = state - 1;
        let n_a = solution.perm_a.len();
        let n_b = solution.perm_b.len();
        let ca = state / n_b;
        let cb = state % n_b;
        if ca >= n_a {
            proof {
                vstd::arithmetic::div_mod::lemma_fundamental_div_mod(state as int, n_b as int);
                vstd::arithmetic::div_mod::lemma_mod_bound(state as int, n_b as int);
                assert(state as int >= n_a * n_b) by (nonlinear_arith)
                    requires
                        n_b >= 1,
                        state as int / (n_b as int) >= n_a,
                        state as int == (n_b as int) * (state as int / (n_b as int)) + (state as int
                            % (n_b as int)),
                        state as int % (n_b as int) >= 0,
                {}
            }
            return None;
        }
        proof {
            vstd::arithmetic::div_mod::lemma_fundamental_div_mod(state as int, n_b as int);
            vstd::arithmetic::div_mod::lemma_mod_bound(state as int, n_b as int);
            assert((state as int) < n_a * n_b) by (nonlinear_arith)
                requires
                    n_b >= 1,
                    state as int / (n_b as int) < n_a,
                    state as int == (n_b as int) * (state as int / (n_b as int)) + (state as int % (
                    n_b as int)),
                    state as int % (n_b as int) < n_b,
            {}
        }
        Some((ca, cb))
    }

    /// Encodes two tour positions as the 1-based move index that
    /// `unpack_state` maps back to them.
    pub fn pack_state(&self, cycle_a: usize, cycle_b: usize, solution: &TSPSolution) -> (r: usize)
        requires
            (cycle_a as int) < solution.perm_a@.len(),
            (cycle_b as int) < solution.perm_b@.len(),
            solution.perm_a@.len() * solution.perm_b@.len() <= usize::MAX as int - 1,
        ensures
            1 <= r,
            r - 1 < Self::size_spec(*solution),
            (r - 1) as int / (solution.perm_b@.len() as int) == cycle_a as int,
            (r - 1) as int % (solution.perm_b@.len() as int) == cycle_b as int,
    {
        let n_a = solution.perm_a.len();
        let n_b = solution.perm_b.len();
        proof {
            assert((cycle_a as int) * (n_b as int) + (cycle_b as int) < n_a * n_b)
                by (nonlinear_arith)
                requires
                    (cycle_a as int) < n_a,
                    (cycle_b as int) < n_b,
                    0 <= cycle_a as int,
                    0 <= cycle_b as int,
            {}
            assert((cycle_a as int) * (n_b as int) >= 0) by (nonlinear_arith)
                requires
                    0 <= cycle_a as int,
                    0 <= n_b as int,
            {}
            vstd::arithmetic::div_mod::lemma_fundamental_div_mod_converse(
                (cycle_a as int) * (n_b as int) + (cycle_b as int),
                n_b as int,
                cycle_a as int,
                cycle_b as int,
            );
        }
        cycle_b + cycle_a * n_b + 1
    }

    /// Scores the move without applying it: the closed-form cost change, or
    /// nothing when the index is out of range.
    pub fn score(&self, state: usize, instance: &TSPInstance, solution: &TSPSolution) -> (r: Option<
        i64,
    >)
        requires
            instance.wf(),
            solution.wf_base(),
            solution.n() == instance.n(),
            1 <= state,
            1 <= solution.perm_b@.len(),
        ensures
            match r {
                Some(delta) => state - 1 < Self::size_spec(*solution) && delta as int == inter_delta(
                    *instance,
                    *solution,
                    (state - 1) as int / (solution.perm_b@.len() as int),
                    (state - 1) as int % (solution.perm_b@.len() as int),
                ),
                None => state - 1 >= Self::size_spec(*solution),
            },
    {
        let ids = self.unpack_state(state, solution);
        if ids.is_none() {
            return None;
        }
        let (cycle_a, cycle_b) = ids.unwrap();
        let (a_prev, a, a_next) = get_neighbors_in_cycle(cycle_a, &solution.perm_a);
        let (b_prev, b, b_next) = get_neighbors_in_cycle(cycle_b, &solution.perm_b);
        let delta = instance.dist_k(b_prev, a) + instance.dist_k(a, b_next) + instance.dist_k(
            a_prev,
            b,
        ) + instance.dist_k(b, a_next) - instance.dist_k(a_prev, a) - instance.dist_k(a, a_next)
            - instance.dist_k(b_prev, b) - instance.dist_k(b, b_next);
        Some(delta)
    }

    /// Applies the exchange: the two points swap tours, memberships and
    /// recorded positions.
    pub fn apply(&self, state: usize, solution: &mut TSPSolution)
        requires
            old(solution).wf_base(),
            old(solution).memb_ok(),
            1 <= state,
            1 <= old(solution).perm_b@.len(),
            state - 1 < Self::size_spec(*old(solution)),
        ensures
            final (solution).perm_a@ == old(solution).perm_a@.update(
                (state - 1) as int / (old(solution).perm_b@.len() as int),
                old(solution).perm_b@[(state - 1) as int % (old(solution).perm_b@.len() as int)],
            ),
            final (solution).perm_b@ == old(solution).perm_b@.update(
                (state - 1) as int % (old(solution).perm_b@.len() as int),
                old(solution).perm_a@[(state - 1) as int / (old(solution).perm_b@.len() as int)],
            ),
            final (solution).wf_base(),
            final (solution).memb_ok(),
            old(solution).pos_ok() ==> final (solution).pos_ok(),
            final (solution).n() == old(solution).n(),
            final (solution).perm_a@.len() == old(solution).perm_a@.len(),
            final (solution).perm_b@.len() == old(solution).perm_b@.len(),
    {
        let ids = self.unpack_state(state, solution);
        let (cycle_a, cycle_b) = ids.unwrap();
        let vertex_a = solution.perm_a[cycle_a];
        let vertex_b = solution.perm_b[cycle_b];

        assert(solution.cycle@[vertex_a as int] != solution.cycle@[vertex_b as int]);

        let ca_memb = solution.cycle[vertex_a];
        let cb_memb = solution.cycle[vertex_b];
        solution.cycle.set(vertex_a, ca_memb ^ 1);
        solution.cycle.set(vertex_b, cb_memb ^ 1);

        proof {
            assert((ca_memb ^ 1) == 1usize) by (bit_vector)
                requires
                    ca_memb == 0usize,
            ;
            assert((cb_memb ^ 1) == 0usize) by (bit_vector)
                requires
                    cb_memb == 1usize,
            ;
        }

        let tmp = solution.order[vertex_b];
        let order_a = solution.order[vertex_a];
        solution.order.set(vertex_b, order_a);
        solution.order.set(vertex_a, tmp);

        let t = solution.perm_a[cycle_a];
        let pb_val = solution.perm_b[cycle_b];
        solution.perm_a.set(cycle_a, pb_val);
        solution.perm_b.set(cycle_b, t);

        proof {
            let os = *old(solution);
            let ns = *solution;
            let ca = cycle_a as int;
            let cb = cycle_b as int;
            assert forall|i: int| 0 <= i < ns.perm_a@.len() implies #[trigger] (
            ns.cycle@[ns.perm_a@[i] as int] as int) == 0 by {
                if i != ca {
                    assert(os.perm_a@[i] != vertex_a);
                    assert(os.perm_a@[i] != vertex_b);
                }
            }
            assert forall|i: int| 0 <= i < ns.perm_b@.len() implies #[trigger] (
            ns.cycle@[ns.perm_b@[i] as int] as int) == 1 by {
                if i != cb {
                    assert(os.perm_b@[i] != vertex_a);
                    assert(os.perm_b@[i] != vertex_b);
                }
            }
            if os.pos_ok() {
                assert forall|i: int| 0 <= i < ns.perm_a@.len() implies #[trigger] (
                ns.order@[ns.perm_a@[i] as int] as int) == i by {
                    if i != ca {
                        assert(os.perm_a@[i] != vertex_a);
                        assert(os.perm_a@[i] != vertex_b);
                    }
                }
                assert forall|i: int| 0 <= i < ns.perm_b@.len() implies #[trigger] (
                ns.order@[ns.perm_b@[i] as int] as int) == i by {
                    if i != cb {
                        assert(os.perm_b@[i] != vertex_a);
                        assert(os.perm_b@[i] != vertex_b);
                    }
                }
            }
        }
    }

    /// Applies the exchange named by two tour positions directly.
    pub fn apply_explicit(&self, cycle_a: usize, cycle_b: usize, solution: &mut TSPSolution)
        requires
            old(solution).wf_base(),
            old(solution).memb_ok(),
            (cycle_a as int) < old(solution).perm_a@.len(),
            (cycle_b as int) < old(solution).perm_b@.len(),
            old(solution).n() <= MAX_DIM as int,
        ensures
            final (solution).perm_a@ == old(solution).perm_a@.update(
                cycle_a as int,
                old(solution).perm_b@[cycle_b as int],
            ),
            final (solution).perm_b@ == old(solution).perm_b@.update(
                cycle_b as int,
                old(solution).perm_a@[cycle_a as int],
            ),
            final (solution).wf_base(),
            final (solution).memb_ok(),
            old(solution).pos_ok() ==> final (solution).pos_ok(),
            final (solution).n() == old(solution).n(),
            final (solution).perm_a@.len() == old(solution).perm_a@.len(),
            final (solution).perm_b@.len() == old(solution).perm_b@.len(),
    {
        proof {
            let na = old(solution).perm_a@.len() as int;
            let nb = old(solution).perm_b@.len() as int;
            let nn = old(solution).n();
            assert(na * nb <= nn * nn) by (nonlinear_arith)
                requires
                    nn == na + nb,
                    na >= 0,
                    nb >= 0,
            {}
            assert(nn * nn <= usize::MAX as int - 1) by (nonlinear_arith)
                requires
                    0 <= nn <= MAX_DIM as int,
            {}
        }
        let state = self.pack_state(cycle_a, cycle_b, solution);
        self.apply(state, solution);
    }

    /// Scores the exchange named by two tour positions directly.
    pub fn score_explicit(
        &self,
        cycle_a: usize,
        cycle_b: usize,
        instance: &TSPInstance,
        solution: &TSPSolution,
    ) -> (r: Option<i64>)
        requires
            instance.wf(),
            solution.wf_base(),
            solution.n() == instance.n(),
            (cycle_a as int) < solution.perm_a@.len(),
            (cycle_b as int) < solution.perm_b@.len(),
        ensures
            match r {
                Some(delta) => delta as int == inter_delta(
                    *instance,
                    *solution,
                    cycle_a as int,
                    cycle_b as int,
                ),
                None => false,
            },
    {
        proof {
            let na = solution.perm_a@.len() as int;
            let nb = solution.perm_b@.len() as int;
            let nn = solution.n();
            assert(na * nb <= nn * nn) by (nonlinear_arith)
                requires
                    nn == na + nb,
                    na >= 0,
                    nb >= 0,
            {}
            assert(nn * nn <= usize::MAX as int - 1) by (nonlinear_arith)
                requires
                    0 <= nn <= MAX_DIM as int,
            {}
        }
        let state = self.pack_state(cycle_a, cycle_b, solution);
        self.score(state, instance, solution)
    }
}

/// The inter-cycle exchange's closed-form delta is exactly the change of the
/// objective that applying it causes, whenever both tours have at least two
/// points.
pub proof fn lemma_inter_delta_correct(
    inst: TSPInstance,
    s: TSPSolution,
    t: TSPSolution,
    ca: int,
    cb: int,
)
    requires
        inst.wf(),
        s.wf_base(),
        s.n() == inst.n(),
        0 <= ca < s.perm_a@.len(),
        0 <= cb < s.perm_b@.len(),
        s.perm_a@.len() >= 2,
        s.perm_b@.len() >= 2,
        t.perm_a@ == s.perm_a@.update(ca, s.perm_b@[cb]),
        t.perm_b@ == s.perm_b@.update(cb, s.perm_a@[ca]),
    ensures
        sol_cost(inst, t) - sol_cost(inst, s) == inter_delta(inst, s, ca, cb),
{
    let a = s.perm_a@[ca];
    let b = s.perm_b@[cb];
    lemma_update_cost(inst, s.perm_a@, ca, b);
    lemma_update_cost(inst, s.perm_b@, cb, a);
}

} // verus!
