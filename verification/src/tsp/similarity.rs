use crate::tsp::def::{TSPInstance, TSPSolution};
use vstd::prelude::*;

verus! {

/// A measure of how alike two solutions of one instance are.
pub trait Similarity {
    fn sim(&self, instance: &TSPInstance, solution_a: &TSPSolution, solution_b: &TSPSolution) -> (r:
        usize)
        requires
            instance.wf(),
            solution_a.wf(),
            solution_b.wf(),
            solution_a.n() == instance.n(),
            solution_b.n() == instance.n(),
            solution_a.perm_a@.len() == solution_a.perm_b@.len(),
            solution_b.perm_a@.len() == solution_b.perm_b@.len(),
            solution_a.perm_a@.len() == solution_b.perm_a@.len(),
    ;
}

} // verus!
