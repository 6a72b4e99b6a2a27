use crate::tsp::def::{TSPInstance, TSPSolution};
use crate::tsp::similarity::Similarity;
use vstd::prelude::*;

verus! {

/// How many points the membership tables of two solutions assign alike,
/// read over the first `upto` points.
pub open spec fn memb_agreements(sa: TSPSolution, sb: TSPSolution, upto: int) -> int
    decreases upto,
{
    if upto <= 0 {
        0
    } else {
        memb_agreements(sa, sb, upto - 1) + if sa.cycle@[upto - 1] == sb.cycle@[upto - 1] {
            1int
        } else {
            0int
        }
    }
}

proof fn lemma_memb_agreements_bounds(sa: TSPSolution, sb: TSPSolution, upto: int)
    requires
        0 <= upto,
    ensures
        0 <= memb_agreements(sa, sb, upto) <= upto,
    decreases upto,
{
    if upto > 0 {
        lemma_memb_agreements_bounds(sa, sb, upto - 1);
    }
}

/// Counts the points that sit in the same-numbered tour of both solutions;
/// since the two tour labels are arbitrary, a count below half is flipped.
pub struct VertexSimilarity;

impl VertexSimilarity {
    pub fn new() -> (r: VertexSimilarity) {
        VertexSimilarity {  }
    }
}

impl Similarity for VertexSimilarity {
    fn sim(&self, instance: &TSPInstance, solution_a: &TSPSolution, solution_b: &TSPSolution) -> (r:
        usize)
        ensures
            ({
                let c = memb_agreements(*solution_a, *solution_b, instance.n());
                r as int == if c < instance.n() / 2 {
                    instance.n() - c
                } else {
                    c
                }
            }),
    {
        let mut similarity: usize = 0;
        let dim = instance.dimension;
        let mut vertex_i: usize = 0;
        proof {
            lemma_memb_agreements_bounds(*solution_a, *solution_b, instance.n());
        }
        while vertex_i < dim
            invariant
                dim == instance.dimension,
                solution_a.cycle@.len() == dim,
                solution_b.cycle@.len() == dim,
                vertex_i <= dim,
                similarity as int == memb_agreements(*solution_a, *solution_b, vertex_i as int),
                similarity <= vertex_i,
            decreases dim - vertex_i,
        {
            if solution_a.cycle[vertex_i] == solution_b.cycle[vertex_i] {
                similarity += 1;
            }
            vertex_i += 1;
        }
        if similarity < dim / 2 {
            similarity = dim - similarity;
        }
        similarity
    }
}

} // verus!
