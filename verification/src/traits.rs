use crate::tsp::def::{TSPInstance, TSPSolution};
use vstd::prelude::*;

verus! {

/// Marker for candidate-solution representations.
pub trait Solution {

}

/// An instance that can enumerate whole neighbour solutions at once; no
/// solver in this crate needs it, but callers may implement it for
/// population-based search.
pub trait MetaInstance<O: Solution> {
    fn neighbours(solution: &O) -> Vec<O>;
}

/// A solver builds a well-formed two-tour solution for an instance, either
/// from scratch or by continuing from a given solution.
pub trait Solver {
    fn solve(&self, start_vertex: usize, instance: &TSPInstance) -> (r: TSPSolution)
        requires
            instance.wf(),
            6 <= instance.dimension,
            start_vertex < instance.dimension,
        ensures
            r.wf(),
            r.n() == instance.n(),
            3 <= r.perm_a@.len(),
            3 <= r.perm_b@.len(),
    ;

    fn solve_s(&self, start_vertex: usize, instance: &TSPInstance, solution: TSPSolution) -> (r:
        TSPSolution)
        requires
            instance.wf(),
            6 <= instance.dimension,
            start_vertex < instance.dimension,
            solution.wf(),
            solution.n() == instance.n(),
            3 <= solution.perm_a@.len(),
            3 <= solution.perm_b@.len(),
        ensures
            r.wf(),
            r.n() == instance.n(),
            3 <= r.perm_a@.len(),
            3 <= r.perm_b@.len(),
    ;
}

impl Solution for TSPSolution {

}

} // verus!
