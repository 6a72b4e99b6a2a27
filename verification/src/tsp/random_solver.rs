use crate::traits::Solver;
use crate::tsp::def::{is_partition, TSPInstance, TSPSolution};
use crate::utils::random_permutation;
use vstd::prelude::*;

verus! {

/// Builds a solution by splitting a uniformly random permutation of the
/// points into two tours of near-equal length.
pub struct RandomSolver;

impl RandomSolver {
    pub fn new() -> (r: RandomSolver) {
        RandomSolver
    }
}

impl Solver for RandomSolver {
    fn solve(&self, start_vertex: usize, instance: &TSPInstance) -> (r: TSPSolution)
        ensures
            r.perm_a@.len() == (instance.dimension + 1) / 2,
            r.perm_b@.len() == instance.dimension - (instance.dimension + 1) / 2,
    {
        let n = instance.dimension;
        let perm = random_permutation(n);
        let half = (n + 1) / 2;
        let mut perm_a: Vec<usize> = Vec::new();
        let mut perm_b: Vec<usize> = Vec::new();
        let mut i: usize = 0;
        while i < half
            invariant
                n == perm@.len(),
                half == (n + 1) / 2,
                half <= n,
                i <= half,
                perm_a@ == perm@.subrange(0, i as int),
            decreases half - i,
        {
            perm_a.push(perm[i]);
            proof {
                assert(perm_a@ =~= perm@.subrange(0, i + 1));
            }
            i += 1;
        }
        let mut i: usize = half;
        while i < n
            invariant
                n == perm@.len(),
                half <= i <= n,
                perm_a@ == perm@.subrange(0, half as int),
                perm_b@ == perm@.subrange(half as int, i as int),
            decreases n - i,
        {
            perm_b.push(perm[i]);
            proof {
                assert(perm_b@ =~= perm@.subrange(half as int, i + 1));
            }
            i += 1;
        }
        proof {
            assert(is_partition(perm_a@, perm_b@, perm_a@.len() + perm_b@.len() as int)) by {
                assert(crate::utils::is_permutation_of(perm@, n as int));
                assert(perm_a@.len() + perm_b@.len() == n);
                assert forall|k: int| 0 <= k < perm_a@.len() implies (#[trigger] perm_a@[k] as int)
                    < n as int by {
                    assert(perm_a@[k] == perm@[k]);
                }
                assert forall|k: int| 0 <= k < perm_b@.len() implies (#[trigger] perm_b@[k] as int)
                    < n as int by {
                    assert(perm_b@[k] == perm@[half + k]);
                }
                assert forall|k: int, l: int| 0 <= k < l < perm_a@.len() implies perm_a@[k]
                    != perm_a@[l] by {
                    assert(perm_a@[k] == perm@[k] && perm_a@[l] == perm@[l]);
                }
                assert forall|k: int, l: int| 0 <= k < l < perm_b@.len() implies perm_b@[k]
                    != perm_b@[l] by {
                    assert(perm_b@[k] == perm@[half + k] && perm_b@[l] == perm@[half + l]);
                }
                assert forall|k: int, l: int|
                    0 <= k < perm_a@.len() && 0 <= l < perm_b@.len() implies perm_a@[k]
                    != perm_b@[l] by {
                    assert(perm_a@[k] == perm@[k] && perm_b@[l] == perm@[half + l]);
                }
            }
        }
        TSPSolution::new(perm_a, perm_b)
    }

    fn solve_s(&self, start_vertex: usize, instance: &TSPInstance, solution: TSPSolution) -> (r:
        TSPSolution) {
        self.solve(start_vertex, instance)
    }
}

} // verus!
