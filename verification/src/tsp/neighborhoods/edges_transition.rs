use crate::tsp::def::{
    bounded, distinct, lemma_reverse_cost, next_pos, prev_pos, reverse_range, tour_cost,
    TSPInstance, TSPSolution, MAX_DIM,
};
use crate::tsp::neighborhoods::transition::get_neighbors_in_cycle;
use vstd::prelude::*;

verus! {

/// The classic 2-opt move: it reverses a contiguous block of one tour,
/// which replaces two tour edges by two others.
pub struct EdgesTransition {}

/// The decoded form of a 1-based move index of this kind: a tour choice, a
/// start position and a shift.  Meaningful only for indices inside the
/// address space.
pub open spec fn edges_unpack(s: TSPSolution, state: int) -> (int, int, int) {
    let st = state - 1;
    let n_a = s.perm_a@.len() as int;
    let n_b = s.perm_b@.len() as int;
    if st < n_a * (n_a - 3) {
        (0, st / (n_a - 3), st % (n_a - 3))
    } else {
        let st2 = st - n_a * (n_a - 3);
        (1, st2 / (n_b - 3), st2 % (n_b - 3))
    }
}

/// The block of positions that the move `(v, shift)` reverses on a tour of
/// length `n`: from the position after `v`... the pair `(x, y)` with
/// `x <= y`.  When the nominal block wraps past the end of the tour, the
/// complementary inner block is reversed instead, which leaves a closed
/// tour of the same cost.
pub open spec fn edges_segment(n: int, v: int, shift: int) -> (int, int) {
    let b = if v + shift + 1 < n {
        v + shift + 1
    } else {
        v + shift + 1 - n
    };
    if b >= v {
        (v, b)
    } else {
        (b + 1, v - 1)
    }
}

/// The cost change of the 2-opt move `(v, shift)` on the tour `p`: the two
/// edges leaving the block boundaries are exchanged for the two that close
/// the reversed block.
pub open spec fn edges_delta_perm(inst: TSPInstance, p: Seq<usize>, v: int, shift: int) -> int {
    let n = p.len() as int;
    let vb = if v + shift + 1 < n {
        v + shift + 1
    } else {
        v + shift + 1 - n
    };
    let a = p[v] as int;
    let b = p[vb] as int;
    let a_prev = p[prev_pos(n, v)] as int;
    let b_next = p[next_pos(n, vb)] as int;
    inst.d(a, b_next) + inst.d(a_prev, b) - inst.d(a_prev, a) - inst.d(b, b_next)
}

/// The delta of the 2-opt move on the solution.
pub open spec fn edges_delta(inst: TSPInstance, s: TSPSolution, c: int, v: int, shift: int) -> int {
    if c == 0 {
        edges_delta_perm(inst, s.perm_a@, v, shift)
    } else {
        edges_delta_perm(inst, s.perm_b@, v, shift)
    }
}

impl EdgesTransition {
    pub fn new() -> (r: EdgesTransition) {
        EdgesTransition {  }
    }

    /// The number of addressable moves of this kind; degenerate reversals
    /// that could not change any edge are not addressed.
    pub open spec fn size_spec(s: TSPSolution) -> int {
        let n_a = s.perm_a@.len() as int;
        let n_b = s.perm_b@.len() as int;
        n_a * (n_a - 3) + n_b * (n_b - 3)
    }

    pub fn size(&self, solution: &TSPSolution) -> (r: usize)
        requires
            3 <= solution.perm_a@.len(),
            3 <= solution.perm_b@.len(),
            solution.n() <= MAX_DIM as int,
        ensures
            r as int == Self::size_spec(*solution),
    {
        let n_a = solution.perm_a.len();
        let n_b = solution.perm_b.len();
        proof {
            lemma_edges_size_bound(n_a as int, n_b as int);
        }
        n_a * (n_a - 3) + n_b * (n_b - 3)
    }

    /// Decodes a 1-based move index, or nothing when the index lies beyond
    /// this kind's address space.
    pub fn unpack_state(&self, state: usize, solution: &TSPSolution) -> (r: Option<
        (usize, usize, usize),
    >)
        requires
            1 <= state,
            3 <= solution.perm_a@.len(),
            3 <= solution.perm_b@.len(),
            solution.n() <= MAX_DIM as int,
        ensures
            match r {
                Some(t) => {
                    &&& state - 1 < Self::size_spec(*solution)
                    &&& (t.0 as int, t.1 as int, t.2 as int) == edges_unpack(*solution, state as int)
                    &&& valid_edges_move(*solution, t.0 as int, t.1 as int, t.2 as int)
                },
                None => state - 1 >= Self::size_spec(*solution),
            },
    {
        let state = state - 1;
        let n_a = solution.perm_a.len();
        let n_b = solution.perm_b.len();
        proof {
            lemma_edges_size_bound(n_a as int, n_b as int);
        }
        if n_a * (n_a - 3) > state {
            proof {
                assert(n_a >= 4) by (nonlinear_arith)
                    requires
                        3 <= n_a,
                        (n_a as int) * ((n_a as int) - 3) > state as int,
                        state as int >= 0,
                {}
                vstd::arithmetic::div_mod::lemma_fundamental_div_mod(state as int, (n_a - 3) as int);
                vstd::arithmetic::div_mod::lemma_mod_bound(state as int, (n_a - 3) as int);
                assert((state as int / ((n_a - 3) as int)) < n_a as int) by (nonlinear_arith)
                    requires
                        (n_a - 3) as int >= 1,
                        (state as int) < (n_a as int) * ((n_a - 3) as int),
                        state as int == ((n_a - 3) as int) * (state as int / ((n_a - 3) as int)) + (
                        state as int % ((n_a - 3) as int)),
                        state as int % ((n_a - 3) as int) >= 0,
                {}
            }
            Some((0, state / (n_a - 3), state % (n_a - 3)))
        } else if n_a * (n_a - 3) + n_b * (n_b - 3) > state {
            let state = state - n_a * (n_a - 3);
            proof {
                assert(n_b >= 4) by (nonlinear_arith)
                    requires
                        3 <= n_b,
                        (n_b as int) * ((n_b as int) - 3) > state as int,
                        state as int >= 0,
                {}
                vstd::arithmetic::div_mod::lemma_fundamental_div_mod(state as int, (n_b - 3) as int);
                vstd::arithmetic::div_mod::lemma_mod_bound(state as int, (n_b - 3) as int);
                assert((state as int / ((n_b - 3) as int)) < n_b as int) by (nonlinear_arith)
                    requires
                        (n_b - 3) as int >= 1,
                        (state as int) < (n_b as int) * ((n_b - 3) as int),
                        state as int == ((n_b - 3) as int) * (state as int / ((n_b - 3) as int)) + (
                        state as int % ((n_b - 3) as int)),
                        state as int % ((n_b - 3) as int) >= 0,
                {}
            }
            Some((1, state / (n_b - 3), state % (n_b - 3)))
        } else {
            None
        }
    }

    /// Encodes a block given by the positions before and at its end into the
    /// 1-based index that `unpack_state` maps back to it.  The positions
    /// must leave a real block: at least one edge on either side changes.
    pub fn pack_state(
        &self,
        cycle: usize,
        vertex_a: usize,
        vertex_b: usize,
        solution: &TSPSolution,
    ) -> (r: usize)
        requires
            3 <= solution.perm_a@.len(),
            3 <= solution.perm_b@.len(),
            solution.n() <= MAX_DIM as int,
            cycle == 0 || cycle == 1,
            cycle == 0 ==> (vertex_a as int) < solution.perm_a@.len() && (vertex_b as int)
                < solution.perm_a@.len(),
            cycle == 1 ==> (vertex_a as int) < solution.perm_b@.len() && (vertex_b as int)
                < solution.perm_b@.len(),
            pack_gap(
                if cycle == 0 {
                    solution.perm_a@.len() as int
                } else {
                    solution.perm_b@.len() as int
                },
                vertex_a as int,
                vertex_b as int,
            ),
        ensures
            1 <= r,
            r - 1 < Self::size_spec(*solution),
            edges_unpack(*solution, r as int) == unpacked_of_pair(
                *solution,
                cycle as int,
                vertex_a as int,
                vertex_b as int,
            ),
    {
        let n_a = solution.perm_a.len();
        let n_b = solution.perm_b.len();
        proof {
            lemma_edges_size_bound(n_a as int, n_b as int);
        }
        let n = if cycle == 0 {
            n_a
        } else {
            n_b
        };
        let start = if vertex_a + 1 == n {
            0
        } else {
            vertex_a + 1
        };
        let gap = if vertex_b >= vertex_a {
            vertex_b - vertex_a
        } else {
            vertex_b + n - vertex_a
        };
        let shift = gap - 2;
        proof {
            assert(0 <= shift as int <= n as int - 4);
        }
        proof {
            if cycle == 0 {
                assert(((n_a as int) - 3) * (start as int) + (shift as int) < ((n_a as int)) * ((
                n_a as int) - 3) && ((n_a as int) - 3) * (start as int) >= 0 && ((n_a as int) - 3)
                    * (start as int) == (start as int) * ((n_a as int) - 3)) by (nonlinear_arith)
                    requires
                        (start as int) < n_a as int,
                        0 <= start as int,
                        0 <= shift as int <= (n_a as int) - 4,
                        (n_a as int) - 3 >= 1,
                {}
                vstd::arithmetic::div_mod::lemma_fundamental_div_mod_converse(
                    ((n_a as int) - 3) * (start as int) + (shift as int),
                    (n_a as int) - 3,
                    start as int,
                    shift as int,
                );
            } else {
                assert(((n_b as int) - 3) * (start as int) + (shift as int) < ((n_b as int)) * ((
                n_b as int) - 3) && ((n_b as int) - 3) * (start as int) >= 0 && ((n_b as int) - 3)
                    * (start as int) == (start as int) * ((n_b as int) - 3)) by (nonlinear_arith)
                    requires
                        (start as int) < n_b as int,
                        0 <= start as int,
                        0 <= shift as int <= (n_b as int) - 4,
                        (n_b as int) - 3 >= 1,
                {}
                vstd::arithmetic::div_mod::lemma_fundamental_div_mod_converse(
                    ((n_b as int) - 3) * (start as int) + (shift as int),
                    (n_b as int) - 3,
                    start as int,
                    shift as int,
                );
            }
        }
        let local = if cycle == 0 {
            (n_a - 3) * start + shift
        } else {
            n_a * (n_a - 3) + (n_b - 3) * start + shift
        };
        local + 1
    }

    /// Scores the move without applying it.
    pub fn score(&self, state: usize, instance: &TSPInstance, solution: &TSPSolution) -> (r: Option<
        i64,
    >)
        requires
            instance.wf(),
            solution.wf_base(),
            solution.n() == instance.n(),
            1 <= state,
            3 <= solution.perm_a@.len(),
            3 <= solution.perm_b@.len(),
        ensures
            match r {
                Some(delta) => {
                    &&& state - 1 < Self::size_spec(*solution)
                    &&& delta as int == edges_delta(
                        *instance,
                        *solution,
                        edges_unpack(*solution, state as int).0,
                        edges_unpack(*solution, state as int).1,
                        edges_unpack(*solution, state as int).2,
                    )
                },
                None => state - 1 >= Self::size_spec(*solution),
            },
    {
        let st = self.unpack_state(state, solution);
        if st.is_none() {
            return None;
        }
        let (cycle, vertex, shift) = st.unwrap();
        let perm = if cycle == 0 {
            &solution.perm_a
        } else {
            &solution.perm_b
        };
        let n = perm.len();
        let vertex_b = if vertex + shift + 1 < n {
            vertex + shift + 1
        } else {
            vertex + shift + 1 - n
        };
        let (a_prev, a, _a_next) = get_neighbors_in_cycle(vertex, perm);
        let (_b_prev, b, b_next) = get_neighbors_in_cycle(vertex_b, perm);
        let delta = instance.dist_k(a, b_next) + instance.dist_k(a_prev, b) - instance.dist_k(
            a_prev,
            a,
        ) - instance.dist_k(b, b_next);
        Some(delta)
    }

    /// Applies the reversal, swapping block cells pairwise inward and
    /// keeping every moved point's recorded position current.
    pub fn apply(&self, state: usize, solution: &mut TSPSolution)
        requires
            old(solution).wf_base(),
            old(solution).pos_ok(),
            1 <= state,
            3 <= old(solution).perm_a@.len(),
            3 <= old(solution).perm_b@.len(),
            old(solution).n() <= MAX_DIM as int,
            state - 1 < Self::size_spec(*old(solution)),
        ensures
            is_edges_reversal(
                *old(solution),
                *final (solution),
                edges_unpack(*old(solution), state as int).0,
                edges_unpack(*old(solution), state as int).1,
                edges_unpack(*old(solution), state as int).2,
            ),
            final (solution).wf_base(),
            final (solution).pos_ok(),
            final (solution).cycle@ == old(solution).cycle@,
            final (solution).memb_ok() == old(solution).memb_ok(),
            final (solution).n() == old(solution).n(),
            final (solution).perm_a@.len() == old(solution).perm_a@.len(),
            final (solution).perm_b@.len() == old(solution).perm_b@.len(),
    {
        let st = self.unpack_state(state, solution);
        let (cycle, vertex, shift) = st.unwrap();
        let n = if cycle == 0 {
            solution.perm_a.len()
        } else {
            solution.perm_b.len()
        };
        let b0 = if vertex + shift + 1 < n {
            vertex + shift + 1
        } else {
            vertex + shift + 1 - n
        };
        let (x, y) = if b0 >= vertex {
            (vertex, b0)
        } else {
            (b0 + 1, vertex - 1)
        };
        if cycle == 0 {
            reverse_block(&mut solution.perm_a, &mut solution.order, x, y);
            proof {
                let s = *old(solution);
                let t = *solution;
                lemma_edges_reversal_tables(s, t, 0, x as int, y as int);
                assert forall|j: int| 0 <= j < t.perm_b@.len() implies #[trigger] (
                t.order@[t.perm_b@[j] as int] as int) == j by {
                    let w = t.perm_b@[j] as int;
                    assert forall|k: int| x as int <= k <= y as int implies s.perm_a@[k] as int
                        != w by {
                        assert(s.perm_a@[k] != s.perm_b@[j]);
                    }
                    assert((t.order@[w] as int) == s.order@[w] as int);
                    assert((s.order@[s.perm_b@[j] as int] as int) == j);
                }
            }
        } else {
            reverse_block(&mut solution.perm_b, &mut solution.order, x, y);
            proof {
                let s = *old(solution);
                let t = *solution;
                lemma_edges_reversal_tables(s, t, 1, x as int, y as int);
                assert forall|j: int| 0 <= j < t.perm_a@.len() implies #[trigger] (
                t.order@[t.perm_a@[j] as int] as int) == j by {
                    let w = t.perm_a@[j] as int;
                    assert forall|k: int| x as int <= k <= y as int implies s.perm_b@[k] as int
                        != w by {
                        assert(s.perm_a@[j] != s.perm_b@[k]);
                    }
                    assert((t.order@[w] as int) == s.order@[w] as int);
                    assert((s.order@[s.perm_a@[j] as int] as int) == j);
                }
            }
        }
    }
}

impl EdgesTransition {
    /// Applies the reversal named by the positions before and at the end of
    /// the block.
    pub fn apply_explicit(
        &self,
        cycle: usize,
        vertex_a: usize,
        vertex_b: usize,
        solution: &mut TSPSolution,
    )
        requires
            old(solution).wf_base(),
            old(solution).pos_ok(),
            3 <= old(solution).perm_a@.len(),
            3 <= old(solution).perm_b@.len(),
            old(solution).n() <= MAX_DIM as int,
            cycle == 0 || cycle == 1,
            cycle == 0 ==> (vertex_a as int) < old(solution).perm_a@.len() && (vertex_b as int)
                < old(solution).perm_a@.len(),
            cycle == 1 ==> (vertex_a as int) < old(solution).perm_b@.len() && (vertex_b as int)
                < old(solution).perm_b@.len(),
            pack_gap(
                if cycle == 0 {
                    old(solution).perm_a@.len() as int
                } else {
                    old(solution).perm_b@.len() as int
                },
                vertex_a as int,
                vertex_b as int,
            ),
        ensures
            is_edges_reversal(
                *old(solution),
                *final (solution),
                unpacked_of_pair(*old(solution), cycle as int, vertex_a as int, vertex_b as int).0,
                unpacked_of_pair(*old(solution), cycle as int, vertex_a as int, vertex_b as int).1,
                unpacked_of_pair(*old(solution), cycle as int, vertex_a as int, vertex_b as int).2,
            ),
            final (solution).wf_base(),
            final (solution).pos_ok(),
            final (solution).cycle@ == old(solution).cycle@,
            final (solution).memb_ok() == old(solution).memb_ok(),
            final (solution).n() == old(solution).n(),
            final (solution).perm_a@.len() == old(solution).perm_a@.len(),
            final (solution).perm_b@.len() == old(solution).perm_b@.len(),
    {
        let state = self.pack_state(cycle, vertex_a, vertex_b, solution);
        self.apply(state, solution);
    }
}

/// The cyclic distance from `vertex_a` forward to `vertex_b`.
pub open spec fn pos_gap(n: int, vertex_a: int, vertex_b: int) -> int {
    if vertex_b >= vertex_a {
        vertex_b - vertex_a
    } else {
        vertex_b + n - vertex_a
    }
}

/// The pair `(vertex_a, vertex_b)` leaves a real block for `pack_state`:
/// the block from the position after `vertex_a` to `vertex_b` is neither
/// empty nor the whole tour, so two distinct edges change on each side.
pub open spec fn pack_gap(n: int, vertex_a: int, vertex_b: int) -> bool {
    2 <= pos_gap(n, vertex_a, vertex_b) <= n - 2
}

/// What `pack_state` encodes: the block starts after `vertex_a` and ends at
/// `vertex_b`.
pub open spec fn unpacked_of_pair(s: TSPSolution, c: int, vertex_a: int, vertex_b: int) -> (
    int,
    int,
    int,
) {
    let n = if c == 0 {
        s.perm_a@.len() as int
    } else {
        s.perm_b@.len() as int
    };
    let start = if vertex_a + 1 == n {
        0
    } else {
        vertex_a + 1
    };
    (c, start, pos_gap(n, vertex_a, vertex_b) - 2)
}

/// `(c, v, shift)` names a 2-opt move with a non-degenerate block.
pub open spec fn valid_edges_move(s: TSPSolution, c: int, v: int, shift: int) -> bool {
    let n = if c == 0 {
        s.perm_a@.len() as int
    } else {
        s.perm_b@.len() as int
    };
    &&& (c == 0 || c == 1)
    &&& 0 <= v < n
    &&& 0 <= shift <= n - 4
    &&& n >= 4
}

/// `t` is `s` with the block of the move `(c, v, shift)` reversed in its
/// tour, the position table updated for the moved points, and everything
/// else unchanged.
pub open spec fn is_edges_reversal(s: TSPSolution, t: TSPSolution, c: int, v: int, shift: int) -> bool {
    let n = if c == 0 {
        s.perm_a@.len() as int
    } else {
        s.perm_b@.len() as int
    };
    let seg = edges_segment(n, v, shift);
    &&& t.cycle@ == s.cycle@
    &&& c == 0 ==> t.perm_a@ == reverse_range(s.perm_a@, seg.0, seg.1) && t.perm_b@ == s.perm_b@
    &&& c == 1 ==> t.perm_b@ == reverse_range(s.perm_b@, seg.0, seg.1) && t.perm_a@ == s.perm_a@
}

/// The address space of the 2-opt move fits in a machine word for any
/// instance the crate admits.
proof fn lemma_edges_size_bound(n_a: int, n_b: int)
    requires
        3 <= n_a,
        3 <= n_b,
        n_a + n_b <= MAX_DIM as int,
    ensures
        n_a * (n_a - 3) + n_b * (n_b - 3) <= (MAX_DIM as int) * (MAX_DIM as int),
        n_a * (n_a - 3) >= 0,
        n_b * (n_b - 3) >= 0,
{
    let m = MAX_DIM as int;
    assert(n_a * (n_a - 3) + n_b * (n_b - 3) <= m * m && n_a * (n_a - 3) >= 0 && n_b * (n_b - 3)
        >= 0) by (nonlinear_arith)
        requires
            3 <= n_a,
            3 <= n_b,
            n_a + n_b <= m,
            0 < m,
    {}
}

/// Reverses the cells `x ..= y` of the tour in place, swapping pairs inward
/// and exchanging the two moved points' recorded positions at each step.
fn reverse_block(perm: &mut Vec<usize>, order: &mut Vec<usize>, x: usize, y: usize)
    requires
        x <= y,
        (y as int) < old(perm)@.len(),
        bounded(old(perm)@, old(order)@.len() as int),
        distinct(old(perm)@),
        forall|k: int|
            0 <= k < old(perm)@.len() ==> #[trigger] (old(order)@[old(perm)@[k] as int] as int) == k,
    ensures
        final (perm)@ == reverse_range(old(perm)@, x as int, y as int),
        final (perm)@.len() == old(perm)@.len(),
        final (order)@.len() == old(order)@.len(),
        forall|k: int|
            0 <= k < final (perm)@.len() ==> #[trigger] (final (order)@[final (perm)@[k] as int]
                as int) == k,
        forall|w: int|
            0 <= w < final (order)@.len() && (forall|k: int|
                x as int <= k <= y as int ==> old(perm)@[k] as int != w) ==> #[trigger] (final (
            order)@[w] as int) == old(order)@[w] as int,
{
    let ghost p0 = old(perm)@;
    let ghost o0 = old(order)@;
    let mut a = x;
    let mut b = y;
    while a < b
        invariant
            x as int <= a as int,
            b as int <= y as int,
            a as int + b as int == x as int + y as int,
            a <= b + 1,
            (y as int) < p0.len(),
            perm@.len() == p0.len(),
            order@.len() == o0.len(),
            bounded(p0, o0.len() as int),
            distinct(p0),
            forall|k: int|
                a as int <= k <= b as int ==> #[trigger] (perm@[k] as int) == p0[k] as int,
            forall|k: int|
                0 <= k < p0.len() && !(x as int <= k <= y as int) ==> #[trigger] (perm@[k] as int)
                    == p0[k] as int,
            forall|k: int|
                x as int <= k < a as int ==> #[trigger] (perm@[k] as int) == p0[x as int + y as int
                    - k] as int,
            forall|k: int|
                (b as int) < k <= y as int ==> #[trigger] (perm@[k] as int) == p0[x as int
                    + y as int - k] as int,
            forall|k: int|
                (a as int <= k <= b as int || !(x as int <= k <= y as int)) && 0 <= k < p0.len()
                    ==> #[trigger] (order@[p0[k] as int] as int) == k,
            forall|k: int|
                0 <= k < p0.len() && (x as int <= k < a as int || (b as int) < k <= y as int)
                    ==> #[trigger] (order@[p0[k] as int] as int) == x as int + y as int - k,
            forall|w: int|
                0 <= w < o0.len() && (forall|k: int|
                    x as int <= k <= y as int ==> p0[k] as int != w) ==> #[trigger] (order@[w]
                    as int) == o0[w] as int,
        decreases b + 1 - a,
    {
        let vertex_a = perm[a];
        let vertex_b = perm[b];
        let tmp = order[vertex_b];
        let oa = order[vertex_a];
        order.set(vertex_b, oa);
        order.set(vertex_a, tmp);
        assert(order@[vertex_a as int] as int == b as int);
        assert(order@[vertex_b as int] as int == a as int);
        let t = perm[a];
        let u = perm[b];
        perm.set(a, u);
        perm.set(b, t);
        proof {
            assert(p0[a as int] != p0[b as int]);
        }
        a += 1;
        b -= 1;
    }
    proof {
        assert(perm@ =~= reverse_range(p0, x as int, y as int)) by {
            assert forall|k: int| 0 <= k < p0.len() implies perm@[k] == reverse_range(
                p0,
                x as int,
                y as int,
            )[k] by {
                if x as int <= k <= y as int {
                    if k < a as int && k > b as int {
                        // middle cell of an odd block maps to itself
                        assert(x as int + y as int - k == k);
                    }
                }
            }
        }
        assert forall|k: int| 0 <= k < perm@.len() implies #[trigger] (order@[perm@[k] as int]
            as int) == k by {
            if x as int <= k <= y as int {
                let k0 = x as int + y as int - k;
                assert(perm@[k] as int == p0[k0] as int);
                if k0 < a as int || k0 > b as int {
                    assert((order@[p0[k0] as int] as int) == x as int + y as int - k0);
                } else {
                    assert(k0 == k);
                }
            }
        }
    }
}

/// Reversing a block of one tour keeps the partition, both side-table
/// agreements, and the other tour.
proof fn lemma_edges_reversal_tables(s: TSPSolution, t: TSPSolution, c: int, x: int, y: int)
    requires
        s.wf_base(),
        0 <= x <= y,
        c == 0 || c == 1,
        c == 0 ==> y < s.perm_a@.len() && t.perm_a@ == reverse_range(s.perm_a@, x, y)
            && t.perm_b@ == s.perm_b@,
        c == 1 ==> y < s.perm_b@.len() && t.perm_b@ == reverse_range(s.perm_b@, x, y)
            && t.perm_a@ == s.perm_a@,
        t.cycle@ == s.cycle@,
        t.order@.len() == s.order@.len(),
    ensures
        t.wf_base(),
        t.memb_ok() == s.memb_ok(),
{
    if c == 0 {
        let p = s.perm_a@;
        let q = t.perm_a@;
        assert(q.len() == p.len());
        assert forall|k: int| 0 <= k < q.len() implies (#[trigger] q[k] as int) < t.n() by {
            if x <= k <= y {
                assert(q[k] == p[x + y - k]);
            } else {
                assert(q[k] == p[k]);
            }
        }
        if s.memb_ok() {
            assert forall|k: int| 0 <= k < q.len() implies #[trigger] (t.cycle@[q[k] as int] as int)
                == 0 by {
                if x <= k <= y {
                    assert(q[k] == p[x + y - k]);
                } else {
                    assert(q[k] == p[k]);
                }
            }
        }
        if t.memb_ok() {
            assert forall|k: int| 0 <= k < p.len() implies #[trigger] (s.cycle@[p[k] as int] as int)
                == 0 by {
                if x <= k <= y {
                    assert(q[x + y - k] == p[k]);
                } else {
                    assert(q[k] == p[k]);
                }
            }
        }
        assert forall|k1: int, k2: int| 0 <= k1 < k2 < q.len() implies q[k1] != q[k2] by {
            let m1 = if x <= k1 <= y {
                x + y - k1
            } else {
                k1
            };
            let m2 = if x <= k2 <= y {
                x + y - k2
            } else {
                k2
            };
            assert(q[k1] == p[m1]);
            assert(q[k2] == p[m2]);
            assert(m1 != m2);
        }
        assert forall|k1: int, k2: int|
            0 <= k1 < q.len() && 0 <= k2 < t.perm_b@.len() implies q[k1] != t.perm_b@[k2] by {
            let m1 = if x <= k1 <= y {
                x + y - k1
            } else {
                k1
            };
            assert(q[k1] == p[m1]);
        }
    } else {
        let p = s.perm_b@;
        let q = t.perm_b@;
        assert(q.len() == p.len());
        assert forall|k: int| 0 <= k < q.len() implies (#[trigger] q[k] as int) < t.n() by {
            if x <= k <= y {
                assert(q[k] == p[x + y - k]);
            } else {
                assert(q[k] == p[k]);
            }
        }
        if s.memb_ok() {
            assert forall|k: int| 0 <= k < q.len() implies #[trigger] (t.cycle@[q[k] as int] as int)
                == 1 by {
                if x <= k <= y {
                    assert(q[k] == p[x + y - k]);
                } else {
                    assert(q[k] == p[k]);
                }
            }
        }
        if t.memb_ok() {
            assert forall|k: int| 0 <= k < p.len() implies #[trigger] (s.cycle@[p[k] as int] as int)
                == 1 by {
                if x <= k <= y {
                    assert(q[x + y - k] == p[k]);
                } else {
                    assert(q[k] == p[k]);
                }
            }
        }
        assert forall|k1: int, k2: int| 0 <= k1 < k2 < q.len() implies q[k1] != q[k2] by {
            let m1 = if x <= k1 <= y {
                x + y - k1
            } else {
                k1
            };
            let m2 = if x <= k2 <= y {
                x + y - k2
            } else {
                k2
            };
            assert(q[k1] == p[m1]);
            assert(q[k2] == p[m2]);
            assert(m1 != m2);
        }
        assert forall|k1: int, k2: int|
            0 <= k1 < t.perm_a@.len() && 0 <= k2 < q.len() implies t.perm_a@[k1] != q[k2] by {
            let m2 = if x <= k2 <= y {
                x + y - k2
            } else {
                k2
            };
            assert(q[k2] == p[m2]);
        }
    }
}

/// The 2-opt delta is exactly the change of the tour length that the
/// reversal causes.
pub proof fn lemma_edges_delta_correct(inst: TSPInstance, p: Seq<usize>, v: int, shift: int)
    requires
        inst.wf(),
        bounded(p, inst.n()),
        p.len() >= 4,
        0 <= v < p.len(),
        0 <= shift <= p.len() - 4,
    ensures
        tour_cost(
            inst,
            reverse_range(
                p,
                edges_segment(p.len() as int, v, shift).0,
                edges_segment(p.len() as int, v, shift).1,
            ),
        ) - tour_cost(inst, p) == edges_delta_perm(inst, p, v, shift),
{
    let n = p.len() as int;
    let vb = if v + shift + 1 < n {
        v + shift + 1
    } else {
        v + shift + 1 - n
    };
    let seg = edges_segment(n, v, shift);
    let x = seg.0;
    let y = seg.1;
    if vb >= v {
        assert(x == v && y == vb);
        assert(y - x + 1 == shift + 2 <= n - 2);
        lemma_reverse_cost(inst, p, x, y);
        assert(next_pos(n, y) == next_pos(n, vb));
        assert(prev_pos(n, x) == prev_pos(n, v));
    } else {
        // the nominal block wraps: the complementary inner block is
        // reversed, and the same four edges change
        assert(x == vb + 1 && y == v - 1);
        assert(y - x + 1 == n - shift - 2 <= n - 2);
        lemma_reverse_cost(inst, p, x, y);
        assert(prev_pos(n, x) == vb);
        assert(next_pos(n, y) == v);
        assert(inst.d(p[vb] as int, p[y] as int) == inst.d(p[y] as int, p[vb] as int));
        assert(inst.d(p[x] as int, p[v] as int) == inst.d(p[v] as int, p[x] as int));
    }
}

/// A move index inside the address space decodes to a valid 2-opt move.
pub proof fn lemma_edges_unpack_valid(s: TSPSolution, state: int)
    requires
        1 <= state,
        state - 1 < EdgesTransition::size_spec(s),
        3 <= s.perm_a@.len(),
        3 <= s.perm_b@.len(),
    ensures
        valid_edges_move(
            s,
            edges_unpack(s, state).0,
            edges_unpack(s, state).1,
            edges_unpack(s, state).2,
        ),
{
    let st = state - 1;
    let n_a = s.perm_a@.len() as int;
    let n_b = s.perm_b@.len() as int;
    if st < n_a * (n_a - 3) {
        assert(n_a >= 4) by (nonlinear_arith)
            requires
                3 <= n_a,
                n_a * (n_a - 3) > st,
                st >= 0,
        {}
        vstd::arithmetic::div_mod::lemma_fundamental_div_mod(st, n_a - 3);
        vstd::arithmetic::div_mod::lemma_mod_bound(st, n_a - 3);
        assert(st / (n_a - 3) < n_a) by (nonlinear_arith)
            requires
                n_a - 3 >= 1,
                st < n_a * (n_a - 3),
                st == (n_a - 3) * (st / (n_a - 3)) + (st % (n_a - 3)),
                0 <= st % (n_a - 3) < n_a - 3,
        {}
        assert(st / (n_a - 3) >= 0) by (nonlinear_arith)
            requires
                n_a - 3 >= 1,
                0 <= st,
                st == (n_a - 3) * (st / (n_a - 3)) + (st % (n_a - 3)),
                0 <= st % (n_a - 3) < n_a - 3,
        {}
    } else {
        let st2 = st - n_a * (n_a - 3);
        assert(n_a * (n_a - 3) >= 0) by (nonlinear_arith)
            requires
                3 <= n_a,
        {}
        assert(st2 < n_b * (n_b - 3));
        assert(n_b >= 4) by (nonlinear_arith)
            requires
                3 <= n_b,
                n_b * (n_b - 3) > st2,
                st2 >= 0,
        {}
        vstd::arithmetic::div_mod::lemma_fundamental_div_mod(st2, n_b - 3);
        vstd::arithmetic::div_mod::lemma_mod_bound(st2, n_b - 3);
        assert(st2 / (n_b - 3) < n_b) by (nonlinear_arith)
            requires
                n_b - 3 >= 1,
                st2 < n_b * (n_b - 3),
                st2 == (n_b - 3) * (st2 / (n_b - 3)) + (st2 % (n_b - 3)),
                0 <= st2 % (n_b - 3) < n_b - 3,
        {}
        assert(st2 / (n_b - 3) >= 0) by (nonlinear_arith)
            requires
                n_b - 3 >= 1,
                0 <= st2,
                st2 == (n_b - 3) * (st2 / (n_b - 3)) + (st2 % (n_b - 3)),
                0 <= st2 % (n_b - 3) < n_b - 3,
        {}
    }
}

} // verus!
