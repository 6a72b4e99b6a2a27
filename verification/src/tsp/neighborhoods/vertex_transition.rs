use crate::tsp::def::{
    bounded, lemma_update_cost, next_pos, prev_pos, tour_cost, TSPInstance, TSPSolution,
};
use crate::tsp::neighborhoods::transition::get_neighbors_in_cycle;
use vstd::prelude::*;

verus! {

/// The move that swaps two points within one tour; up to four edges change,
/// with a correction term when the two positions are cycle-adjacent.
pub struct VertexTransition {}

/// The cost change of swapping the points at positions `i` and `j` of the
/// tour `p`: the same four-edge formula as the inter-cycle exchange, plus
/// twice the distance between the two points when they are adjacent, which
/// the naive formula counts wrongly.
pub open spec fn vertex_delta_perm(inst: TSPInstance, p: Seq<usize>, i: int, j: int) -> int {
    let n = p.len() as int;
    let a = p[i] as int;
    let b = p[j] as int;
    let a_prev = p[prev_pos(n, i)] as int;
    let a_next = p[next_pos(n, i)] as int;
    let b_prev = p[prev_pos(n, j)] as int;
    let b_next = p[next_pos(n, j)] as int;
    let base = inst.d(b_prev, a) + inst.d(a, b_next) + inst.d(a_prev, b) + inst.d(b, a_next)
        - inst.d(a_prev, a) - inst.d(a, a_next) - inst.d(b_prev, b) - inst.d(b, b_next);
    if next_pos(n, i) == j || next_pos(n, j) == i {
        base + 2 * inst.d(a, b)
    } else {
        base
    }
}

/// The delta of the vertex exchange `(c, i, j)` on the solution.
pub open spec fn vertex_delta(inst: TSPInstance, s: TSPSolution, c: int, i: int, j: int) -> int {
    if c == 0 {
        vertex_delta_perm(inst, s.perm_a@, i, j)
    } else {
        vertex_delta_perm(inst, s.perm_b@, i, j)
    }
}

/// The decoded form of a 1-based move index of this kind: a tour choice
/// and two distinct positions.  Meaningful only for indices inside the
/// address space.
pub open spec fn vertex_unpack(s: TSPSolution, state: int) -> (int, int, int) {
    let st = state - 1;
    let n_a = s.perm_a@.len() as int;
    let n_b = s.perm_b@.len() as int;
    if st < n_a * (n_a - 1) {
        let a = st / (n_a - 1);
        let b0 = st % (n_a - 1);
        (0, a, if b0 >= a {
            b0 + 1
        } else {
            b0
        })
    } else {
        let st2 = st - n_a * (n_a - 1);
        let a = st2 / (n_b - 1);
        let b0 = st2 % (n_b - 1);
        (1, a, if b0 >= a {
            b0 + 1
        } else {
            b0
        })
    }
}

impl VertexTransition {
    pub fn new() -> (r: VertexTransition) {
        VertexTransition {  }
    }

    /// The number of addressable moves of this kind.
    pub open spec fn size_spec(s: TSPSolution) -> int {
        let n_a = s.perm_a@.len() as int;
        let n_b = s.perm_b@.len() as int;
        n_a * (n_a - 1) + n_b * (n_b - 1)
    }

    pub fn size(&self, solution: &TSPSolution) -> (r: usize)
        requires
            1 <= solution.perm_a@.len(),
            1 <= solution.perm_b@.len(),
            solution.n() <= crate::tsp::def::MAX_DIM as int,
        ensures
            r as int == Self::size_spec(*solution),
    {
        let n_a = solution.perm_a.len();
        let n_b = solution.perm_b.len();
        proof {
            lemma_vertex_size_bound(n_a as int, n_b as int);
        }
        n_a * (n_a - 1) + n_b * (n_b - 1)
    }

    /// Decodes a 1-based move index into a tour choice and two distinct
    /// positions, or nothing when the index lies beyond this kind's address
    /// space.
    pub fn unpack_state(&self, state: usize, solution: &TSPSolution) -> (r: Option<
        (usize, usize, usize),
    >)
        requires
            1 <= state,
            1 <= solution.perm_a@.len(),
            1 <= solution.perm_b@.len(),
            solution.n() <= crate::tsp::def::MAX_DIM as int,
        ensures
            match r {
                Some(t) => {
                    &&& state - 1 < Self::size_spec(*solution)
                    &&& (t.0 as int, t.1 as int, t.2 as int) == vertex_unpack(
                        *solution,
                        state as int,
                    )
                    &&& valid_vertex_move(*solution, t.0 as int, t.1 as int, t.2 as int)
                },
                None => state - 1 >= Self::size_spec(*solution),
            },
    {
        let state = state - 1;
        let n_a = solution.perm_a.len();
        let n_b = solution.perm_b.len();
        proof {
            lemma_vertex_size_bound(n_a as int, n_b as int);
        }
        if n_a * (n_a - 1) > state {
            proof {
                assert(n_a >= 2) by (nonlinear_arith)
                    requires
                        1 <= n_a,
                        (n_a as int) * ((n_a as int) - 1) > state as int,
                        state as int >= 0,
                {}
            }
            let a = state / (n_a - 1);
            let mut b = state % (n_a - 1);
            proof {
                vstd::arithmetic::div_mod::lemma_fundamental_div_mod(state as int, (n_a - 1) as int);
                vstd::arithmetic::div_mod::lemma_mod_bound(state as int, (n_a - 1) as int);
                assert((state as int / ((n_a - 1) as int)) < n_a as int) by (nonlinear_arith)
                    requires
                        (n_a - 1) as int >= 1,
                        (state as int) < (n_a as int) * ((n_a - 1) as int),
                        state as int == ((n_a - 1) as int) * (state as int / ((n_a - 1) as int)) + (
                        state as int % ((n_a - 1) as int)),
                        state as int % ((n_a - 1) as int) >= 0,
                {}
            }
            if b >= a {
                b += 1;
            }
            Some((0, a, b))
        } else if n_a * (n_a - 1) + n_b * (n_b - 1) > state {
            let state = state - n_a * (n_a - 1);
            proof {
                assert(n_b >= 2) by (nonlinear_arith)
                    requires
                        1 <= n_b,
                        (n_b as int) * ((n_b as int) - 1) > state as int,
                        state as int >= 0,
                {}
            }
            let a = state / (n_b - 1);
            let mut b = state % (n_b - 1);
            proof {
                vstd::arithmetic::div_mod::lemma_fundamental_div_mod(state as int, (n_b - 1) as int);
                vstd::arithmetic::div_mod::lemma_mod_bound(state as int, (n_b - 1) as int);
                assert((state as int / ((n_b - 1) as int)) < n_b as int) by (nonlinear_arith)
                    requires
                        (n_b - 1) as int >= 1,
                        (state as int) < (n_b as int) * ((n_b - 1) as int),
                        state as int == ((n_b - 1) as int) * (state as int / ((n_b - 1) as int)) + (
                        state as int % ((n_b - 1) as int)),
                        state as int % ((n_b - 1) as int) >= 0,
                {}
            }
            if b >= a {
                b += 1;
            }
            Some((1, a, b))
        } else {
            None
        }
    }

    /// Scores the move without applying it.
    pub fn score(&self, state: usize, instance: &TSPInstance, solution: &TSPSolution) -> (r: Option<
        i64,
    >)
        requires
            instance.wf(),
            solution.wf_base(),
            solution.n() == instance.n(),
            1 <= state,
            1 <= solution.perm_a@.len(),
            1 <= solution.perm_b@.len(),
        ensures
            match r {
                Some(delta) => {
                    &&& state - 1 < Self::size_spec(*solution)
                    &&& delta as int == vertex_delta(
                        *instance,
                        *solution,
                        vertex_unpack(*solution, state as int).0,
                        vertex_unpack(*solution, state as int).1,
                        vertex_unpack(*solution, state as int).2,
                    )
                },
                None => state - 1 >= Self::size_spec(*solution),
            },
    {
        let st = self.unpack_state(state, solution);
        if st.is_none() {
            return None;
        }
        let (cycle, vertex_a, vertex_b) = st.unwrap();
        let perm = if cycle == 0 {
            &solution.perm_a
        } else {
            &solution.perm_b
        };
        let (a_prev, a, a_next) = get_neighbors_in_cycle(vertex_a, perm);
        let (b_prev, b, b_next) = get_neighbors_in_cycle(vertex_b, perm);
        let mut delta = instance.dist_k(b_prev, a) + instance.dist_k(a, b_next) + instance.dist_k(
            a_prev,
            b,
        ) + instance.dist_k(b, a_next) - instance.dist_k(a_prev, a) - instance.dist_k(a, a_next)
            - instance.dist_k(b_prev, b) - instance.dist_k(b, b_next);
        let n = perm.len();
        let a_succ = if vertex_a + 1 == n {
            0
        } else {
            vertex_a + 1
        };
        let b_succ = if vertex_b + 1 == n {
            0
        } else {
            vertex_b + 1
        };
        if a_succ == vertex_b || b_succ == vertex_a {
            delta = delta + 2 * instance.dist_k(a, b);
        }
        Some(delta)
    }

    /// Applies the swap: only the two tour cells change; the side tables are
    /// left as they were, so the caller owns a reindex before any later read
    /// of the position table.
    pub fn apply(&self, state: usize, solution: &mut TSPSolution)
        requires
            old(solution).wf_base(),
            1 <= state,
            1 <= old(solution).perm_a@.len(),
            1 <= old(solution).perm_b@.len(),
            old(solution).n() <= crate::tsp::def::MAX_DIM as int,
            state - 1 < Self::size_spec(*old(solution)),
        ensures
            is_vertex_swap(
                *old(solution),
                *final (solution),
                vertex_unpack(*old(solution), state as int).0,
                vertex_unpack(*old(solution), state as int).1,
                vertex_unpack(*old(solution), state as int).2,
            ),
            final (solution).wf_base(),
            final (solution).memb_ok() == old(solution).memb_ok(),
            final (solution).cycle@ == old(solution).cycle@,
            final (solution).order@ == old(solution).order@,
            final (solution).n() == old(solution).n(),
            final (solution).perm_a@.len() == old(solution).perm_a@.len(),
            final (solution).perm_b@.len() == old(solution).perm_b@.len(),
    {
        let st = self.unpack_state(state, solution);
        let (cycle, vertex_a, vertex_b) = st.unwrap();
        if cycle == 0 {
            let t = solution.perm_a[vertex_a];
            let u = solution.perm_a[vertex_b];
            solution.perm_a.set(vertex_a, u);
            solution.perm_a.set(vertex_b, t);
            proof {
                lemma_vertex_swap_keeps_tables(*old(solution), *solution, 0, vertex_a as int, vertex_b as int);
            }
        } else {
            let t = solution.perm_b[vertex_a];
            let u = solution.perm_b[vertex_b];
            solution.perm_b.set(vertex_a, u);
            solution.perm_b.set(vertex_b, t);
            proof {
                lemma_vertex_swap_keeps_tables(*old(solution), *solution, 1, vertex_a as int, vertex_b as int);
            }
        }
    }
}

/// `(c, i, j)` names a swap of two distinct positions of one of the tours.
pub open spec fn valid_vertex_move(s: TSPSolution, c: int, i: int, j: int) -> bool {
    &&& (c == 0 || c == 1)
    &&& i != j
    &&& 0 <= i
    &&& 0 <= j
    &&& c == 0 ==> i < s.perm_a@.len() && j < s.perm_a@.len()
    &&& c == 1 ==> i < s.perm_b@.len() && j < s.perm_b@.len()
}

/// `t` is `s` with positions `i` and `j` of tour `c` swapped and everything
/// else unchanged.
pub open spec fn is_vertex_swap(s: TSPSolution, t: TSPSolution, c: int, i: int, j: int) -> bool {
    &&& t.cycle@ == s.cycle@
    &&& t.order@ == s.order@
    &&& c == 0 ==> t.perm_a@ == s.perm_a@.update(i, s.perm_a@[j]).update(j, s.perm_a@[i])
        && t.perm_b@ == s.perm_b@
    &&& c == 1 ==> t.perm_b@ == s.perm_b@.update(i, s.perm_b@[j]).update(j, s.perm_b@[i])
        && t.perm_a@ == s.perm_a@
}

/// Swapping two points of one tour keeps the partition and both side-table
/// agreements that held before.
proof fn lemma_vertex_swap_keeps_tables(s: TSPSolution, t: TSPSolution, c: int, i: int, j: int)
    requires
        s.wf_base(),
        valid_vertex_move(s, c, i, j),
        is_vertex_swap(s, t, c, i, j),
    ensures
        t.wf_base(),
        t.memb_ok() == s.memb_ok(),
{
    if c == 0 {
        let p = s.perm_a@;
        let q = t.perm_a@;
        assert(q.len() == p.len());
        assert forall|k: int| 0 <= k < q.len() implies (#[trigger] q[k] as int) < t.n() by {
            if k != i && k != j {
                assert(q[k] == p[k]);
            }
        }
        if s.memb_ok() {
            assert forall|k: int| 0 <= k < q.len() implies #[trigger] (t.cycle@[q[k] as int] as int)
                == 0 by {
                if k == i {
                    assert(q[k] == p[j]);
                } else if k == j {
                    assert(q[k] == p[i]);
                } else {
                    assert(q[k] == p[k]);
                }
            }
        }
        if t.memb_ok() {
            assert forall|k: int| 0 <= k < p.len() implies #[trigger] (s.cycle@[p[k] as int] as int)
                == 0 by {
                if k == i {
                    assert(q[j] == p[k]);
                } else if k == j {
                    assert(q[i] == p[k]);
                } else {
                    assert(q[k] == p[k]);
                }
            }
        }
    } else {
        let p = s.perm_b@;
        let q = t.perm_b@;
        assert(q.len() == p.len());
        assert forall|k: int| 0 <= k < q.len() implies (#[trigger] q[k] as int) < t.n() by {
            if k != i && k != j {
                assert(q[k] == p[k]);
            }
        }
        if s.memb_ok() {
            assert forall|k: int| 0 <= k < q.len() implies #[trigger] (t.cycle@[q[k] as int] as int)
                == 1 by {
                if k == i {
                    assert(q[k] == p[j]);
                } else if k == j {
                    assert(q[k] == p[i]);
                } else {
                    assert(q[k] == p[k]);
                }
            }
        }
        if t.memb_ok() {
            assert forall|k: int| 0 <= k < p.len() implies #[trigger] (s.cycle@[p[k] as int] as int)
                == 1 by {
                if k == i {
                    assert(q[j] == p[k]);
                } else if k == j {
                    assert(q[i] == p[k]);
                } else {
                    assert(q[k] == p[k]);
                }
            }
        }
    }
}

/// The address space of the vertex exchange fits comfortably in a machine
/// word for any instance the crate admits.
proof fn lemma_vertex_size_bound(n_a: int, n_b: int)
    requires
        1 <= n_a,
        1 <= n_b,
        n_a + n_b <= crate::tsp::def::MAX_DIM as int,
    ensures
        n_a * (n_a - 1) + n_b * (n_b - 1) <= (crate::tsp::def::MAX_DIM as int) * (
        crate::tsp::def::MAX_DIM as int),
        n_a * (n_a - 1) >= 0,
        n_b * (n_b - 1) >= 0,
{
    let m = crate::tsp::def::MAX_DIM as int;
    assert(n_a * (n_a - 1) + n_b * (n_b - 1) <= m * m && n_a * (n_a - 1) >= 0 && n_b * (n_b - 1)
        >= 0) by (nonlinear_arith)
        requires
            1 <= n_a,
            1 <= n_b,
            n_a + n_b <= m,
            0 < m,
    {}
}

/// The vertex exchange's delta, adjacency correction included, is exactly
/// the change of the tour length that the swap causes, for tours of at
/// least three points.
pub proof fn lemma_vertex_delta_correct(inst: TSPInstance, p: Seq<usize>, i: int, j: int)
    requires
        inst.wf(),
        bounded(p, inst.n()),
        0 <= i < p.len(),
        0 <= j < p.len(),
        i != j,
        p.len() >= 3,
    ensures
        tour_cost(inst, p.update(i, p[j]).update(j, p[i])) - tour_cost(inst, p)
            == vertex_delta_perm(inst, p, i, j),
{
    let n = p.len() as int;
    let a = p[i];
    let b = p[j];
    let p1 = p.update(i, b);
    let q = p1.update(j, a);
    lemma_update_cost(inst, p, i, b);
    assert(bounded(p1, inst.n())) by {
        assert forall|k: int| 0 <= k < p1.len() implies (#[trigger] p1[k] as int) < inst.n() by {
            if k != i {
                assert(p1[k] == p[k]);
            }
        }
    }
    lemma_update_cost(inst, p1, j, a);
    let ip = prev_pos(n, i);
    let inx = next_pos(n, i);
    let jp = prev_pos(n, j);
    let jn = next_pos(n, j);
    assert(p1[j] == p[j]);
    if inx == j {
        // the swapped positions are adjacent with j after i
        assert(jp == i);
        assert(jn != i && jn != j);
        assert(p1[jn] == p[jn]);
        assert(p1[jp] == b);
        assert(inst.d(b as int, b as int) == 0);
    } else if jn == i {
        assert(ip == j);
        assert(jp != i);
        assert(p1[jp] == p[jp]);
        assert(p1[jn] == b);
        assert(inst.d(b as int, b as int) == 0);
    } else {
        assert(jp != i && jn != i);
        assert(p1[jp] == p[jp]);
        assert(p1[jn] == p[jn]);
    }
}

/// A move index inside the address space decodes to a valid swap.
pub proof fn lemma_vertex_unpack_valid(s: TSPSolution, state: int)
    requires
        1 <= state,
        state - 1 < VertexTransition::size_spec(s),
        1 <= s.perm_a@.len(),
        1 <= s.perm_b@.len(),
    ensures
        valid_vertex_move(
            s,
            vertex_unpack(s, state).0,
            vertex_unpack(s, state).1,
            vertex_unpack(s, state).2,
        ),
{
    let st = state - 1;
    let n_a = s.perm_a@.len() as int;
    let n_b = s.perm_b@.len() as int;
    if st < n_a * (n_a - 1) {
        assert(n_a >= 2) by (nonlinear_arith)
            requires
                1 <= n_a,
                n_a * (n_a - 1) > st,
                st >= 0,
        {}
        vstd::arithmetic::div_mod::lemma_fundamental_div_mod(st, n_a - 1);
        vstd::arithmetic::div_mod::lemma_mod_bound(st, n_a - 1);
        assert(st / (n_a - 1) < n_a) by (nonlinear_arith)
            requires
                n_a - 1 >= 1,
                st < n_a * (n_a - 1),
                st == (n_a - 1) * (st / (n_a - 1)) + (st % (n_a - 1)),
                0 <= st % (n_a - 1) < n_a - 1,
        {}
        assert(st / (n_a - 1) >= 0) by (nonlinear_arith)
            requires
                n_a - 1 >= 1,
                0 <= st,
                st == (n_a - 1) * (st / (n_a - 1)) + (st % (n_a - 1)),
                0 <= st % (n_a - 1) < n_a - 1,
        {}
    } else {
        let st2 = st - n_a * (n_a - 1);
        assert(n_a * (n_a - 1) >= 0) by (nonlinear_arith)
            requires
                1 <= n_a,
        {}
        assert(st2 < n_b * (n_b - 1));
        assert(n_b >= 2) by (nonlinear_arith)
            requires
                1 <= n_b,
                n_b * (n_b - 1) > st2,
                st2 >= 0,
        {}
        vstd::arithmetic::div_mod::lemma_fundamental_div_mod(st2, n_b - 1);
        vstd::arithmetic::div_mod::lemma_mod_bound(st2, n_b - 1);
        assert(st2 / (n_b - 1) < n_b) by (nonlinear_arith)
            requires
                n_b - 1 >= 1,
                st2 < n_b * (n_b - 1),
                st2 == (n_b - 1) * (st2 / (n_b - 1)) + (st2 % (n_b - 1)),
                0 <= st2 % (n_b - 1) < n_b - 1,
        {}
        assert(st2 / (n_b - 1) >= 0) by (nonlinear_arith)
            requires
                n_b - 1 >= 1,
                0 <= st2,
                st2 == (n_b - 1) * (st2 / (n_b - 1)) + (st2 % (n_b - 1)),
                0 <= st2 % (n_b - 1) < n_b - 1,
        {}
    }
}

} // verus!
