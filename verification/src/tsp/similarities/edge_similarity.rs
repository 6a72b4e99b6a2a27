use crate::tsp::def::{next_pos, TSPInstance, TSPSolution};
use crate::tsp::memory_solver::{cur_next, cur_prev, neighbors_of};
use crate::tsp::similarity::Similarity;
use vstd::prelude::*;

verus! {

/// Whether the edge from `v` to `w` is present, in either direction, on the
/// tour numbered `dest` of the solution `sb`.
pub open spec fn edge_shared(sb: TSPSolution, dest: int, v: int, w: int) -> bool {
    &&& sb.cycle@[v] as int == dest
    &&& (cur_next(sb, v) == w || cur_prev(sb, v) == w)
}

/// How many of the tour's first `upto` forward edges the other solution
/// shares on its tour numbered `dest`.
pub open spec fn shared_edges(perm: Seq<usize>, sb: TSPSolution, dest: int, upto: int) -> int
    decreases upto,
{
    if upto <= 0 {
        0
    } else {
        shared_edges(perm, sb, dest, upto - 1) + if edge_shared(
            sb,
            dest,
            perm[upto - 1] as int,
            perm[next_pos(perm.len() as int, upto - 1)] as int,
        ) {
            1int
        } else {
            0int
        }
    }
}

/// The number of tour edges of one solution that the other solution also
/// has, with the first solution's tours matched onto the other's either
/// directly or crosswise.
pub open spec fn edge_sim(sa: TSPSolution, sb: TSPSolution, dest: int) -> int {
    shared_edges(sa.perm_a@, sb, dest, sa.perm_a@.len() as int) + shared_edges(
        sa.perm_b@,
        sb,
        1 - dest,
        sa.perm_b@.len() as int,
    )
}

proof fn lemma_shared_edges_bounds(perm: Seq<usize>, sb: TSPSolution, dest: int, upto: int)
    requires
        0 <= upto,
    ensures
        0 <= shared_edges(perm, sb, dest, upto) <= upto,
    decreases upto,
{
    if upto > 0 {
        lemma_shared_edges_bounds(perm, sb, dest, upto - 1);
    }
}

/// Counts the tour edges two solutions have in common, trying both ways of
/// matching the two tour labels and keeping the larger count.
pub struct EdgeSimilarity;

impl EdgeSimilarity {
    pub fn new() -> (r: EdgeSimilarity) {
        EdgeSimilarity {  }
    }

    /// The shared-edge count for one fixed matching of the tour labels.
    pub fn count_shared(
        &self,
        solution_a: &TSPSolution,
        solution_b: &TSPSolution,
        reverse: bool,
    ) -> (r: usize)
        requires
            solution_a.wf(),
            solution_b.wf(),
            solution_a.n() == solution_b.n(),
            solution_a.n() <= usize::MAX as int,
        ensures
            r as int == edge_sim(
                *solution_a,
                *solution_b,
                if reverse {
                    1int
                } else {
                    0int
                },
            ),
    {
        let ghost dest_g: int = if reverse {
            1int
        } else {
            0int
        };
        let dest: usize = if reverse {
            1
        } else {
            0
        };
        let mut similarity: usize = 0;
        let n_a = solution_a.perm_a.len();
        let mut i: usize = 0;
        proof {
            lemma_shared_edges_bounds(solution_a.perm_a@, *solution_b, dest_g, n_a as int);
            lemma_shared_edges_bounds(
                solution_a.perm_b@,
                *solution_b,
                1 - dest_g,
                solution_a.perm_b@.len() as int,
            );
        }
        while i < n_a
            invariant
                solution_a.wf(),
                solution_b.wf(),
                solution_a.n() == solution_b.n(),
                solution_a.n() <= usize::MAX as int,
                n_a == solution_a.perm_a@.len(),
                dest_g == if reverse {
                    1int
                } else {
                    0int
                },
                dest as int == dest_g,
                i <= n_a,
                similarity as int == shared_edges(
                    solution_a.perm_a@,
                    *solution_b,
                    dest_g,
                    i as int,
                ),
                similarity <= i,
            decreases n_a - i,
        {
            let g_vert = solution_a.perm_a[i];
            let succ_pos = if i + 1 == n_a {
                0
            } else {
                i + 1
            };
            let w = solution_a.perm_a[succ_pos];
            let (b_prev, _, b_next) = neighbors_of(g_vert, solution_b);
            if solution_b.cycle[g_vert] == dest && (b_next == w || b_prev == w) {
                similarity += 1;
            }
            i += 1;
        }
        let n_b = solution_a.perm_b.len();
        let mut i: usize = 0;
        while i < n_b
            invariant
                solution_a.wf(),
                solution_b.wf(),
                solution_a.n() == solution_b.n(),
                solution_a.n() <= usize::MAX as int,
                n_a == solution_a.perm_a@.len(),
                n_b == solution_a.perm_b@.len(),
                dest_g == if reverse {
                    1int
                } else {
                    0int
                },
                dest as int == dest_g,
                i <= n_b,
                similarity as int == shared_edges(
                    solution_a.perm_a@,
                    *solution_b,
                    dest_g,
                    n_a as int,
                ) + shared_edges(solution_a.perm_b@, *solution_b, 1 - dest_g, i as int),
                similarity as int <= n_a + i,
            decreases n_b - i,
        {
            let g_vert = solution_a.perm_b[i];
            let succ_pos = if i + 1 == n_b {
                0
            } else {
                i + 1
            };
            let w = solution_a.perm_b[succ_pos];
            let (b_prev, _, b_next) = neighbors_of(g_vert, solution_b);
            let other = 1 - dest;
            if solution_b.cycle[g_vert] == other && (b_next == w || b_prev == w) {
                similarity += 1;
            }
            i += 1;
        }
        similarity
    }
}

impl Similarity for EdgeSimilarity {
    fn sim(&self, instance: &TSPInstance, solution_a: &TSPSolution, solution_b: &TSPSolution) -> (r:
        usize)
        ensures
            r as int == ({
                let direct = edge_sim(*solution_a, *solution_b, 0);
                let crossed = edge_sim(*solution_a, *solution_b, 1);
                if direct < crossed {
                    crossed
                } else {
                    direct
                }
            }),
    {
        let direct = self.count_shared(solution_a, solution_b, false);
        let crossed = self.count_shared(solution_a, solution_b, true);
        if direct < crossed {
            crossed
        } else {
            direct
        }
    }
}

} // verus!
