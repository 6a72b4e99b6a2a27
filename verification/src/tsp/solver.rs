use crate::traits::Solver;
use crate::tsp::def::{is_partition, TSPInstance, TSPSolution};
use crate::tsp::partial_path::PartialPath;
use crate::tsp::picker::{
    lemma_unvisited_push, lemma_unvisited_update, lemma_unvisited_witness, picker_inv,
    unvisited_count, Picker,
};
use vstd::prelude::*;

verus! {

/// Greedy construction: seeds the two tours with a point and its most
/// remote partner, then grows both through the configured insertion
/// strategy until every point is placed.
pub struct GreedySolver<P> {
    pub picker: P,
}

impl<P> GreedySolver<P> {
    pub fn new(picker: P) -> (r: GreedySolver<P>) {
        GreedySolver { picker }
    }

    /// The point farthest from `start_vertex`.
    fn remote(start_vertex: usize, instance: &TSPInstance) -> (r: (i64, usize, usize))
        requires
            instance.wf(),
            2 <= instance.dimension,
            start_vertex < instance.dimension,
        ensures
            r.1 == start_vertex,
            (r.2 as int) < instance.n(),
            r.2 != start_vertex,
            forall|j: int|
                0 <= j < instance.n() && j != start_vertex ==> #[trigger] instance.d(
                    start_vertex as int,
                    j,
                ) <= instance.d(start_vertex as int, r.2 as int),
    {
        let n = instance.dimension;
        let mut best_dist: i64 = -1;
        let mut best_j: usize = 0;
        let mut found = false;
        let mut j: usize = 0;
        while j < n
            invariant
                instance.wf(),
                n == instance.dimension,
                start_vertex < n,
                j <= n,
                found ==> {
                    &&& (best_j as int) < n
                    &&& best_j != start_vertex
                    &&& best_dist as int == instance.d(start_vertex as int, best_j as int)
                    &&& forall|j2: int|
                        0 <= j2 < j && j2 != start_vertex ==> #[trigger] instance.d(
                            start_vertex as int,
                            j2,
                        ) <= best_dist as int
                },
                !found ==> (j == 0 || (j == 1 && start_vertex == 0)) && best_dist == -1,
            decreases n - j,
        {
            if j != start_vertex {
                let dist = instance.dist_k(start_vertex, j);
                if dist > best_dist {
                    best_dist = dist;
                    best_j = j;
                    found = true;
                }
            }
            j += 1;
        }
        proof {
            assert(found);
        }
        (best_dist, start_vertex, best_j)
    }
}

impl<P: Picker> Solver for GreedySolver<P> {
    fn solve(&self, start_vertex: usize, instance: &TSPInstance) -> (r: TSPSolution) {
        let max = GreedySolver::<P>::remote(start_vertex, instance);
        let n = instance.dimension;
        let mut visited: Vec<bool> = Vec::new();
        let mut k: usize = 0;
        while k < n
            invariant
                k <= n,
                visited@.len() == k,
                forall|v: int| 0 <= v < k ==> !(#[trigger] visited@[v]),
                unvisited_count(visited@, k as int) == k,
            decreases n - k,
        {
            proof {
                lemma_unvisited_push(visited@, false, k as int);
            }
            visited.push(false);
            k += 1;
        }
        proof {
            lemma_unvisited_update(visited@, max.1 as int, n as int);
        }
        visited.set(max.1, true);
        proof {
            lemma_unvisited_update(visited@, max.2 as int, n as int);
        }
        visited.set(max.2, true);
        let mut vec_a: Vec<usize> = Vec::new();
        vec_a.push(max.1);
        let mut vec_b: Vec<usize> = Vec::new();
        vec_b.push(max.2);
        let mut partial_a = PartialPath { instance, vec: vec_a };
        let mut partial_b = PartialPath { instance, vec: vec_b };
        while partial_a.vec.len() + partial_b.vec.len() + 1 < n
            invariant
                instance.wf(),
                6 <= instance.dimension,
                n == instance.dimension,
                picker_inv(partial_a, partial_b, visited@),
                partial_a.instance == instance,
                partial_b.instance == instance,
                visited@.len() == n,
                partial_a.vec@.len() == partial_b.vec@.len(),
                partial_a.vec@.len() + partial_b.vec@.len() <= n,
                unvisited_count(visited@, n as int) == n - partial_a.vec@.len()
                    - partial_b.vec@.len(),
            decreases n - partial_a.vec@.len() - partial_b.vec@.len(),
        {
            self.picker.add_both(&mut partial_a, &mut partial_b, &mut visited);
        }
        if partial_a.vec.len() + partial_b.vec.len() < n {
            // an odd point count leaves one point over; place it at the end
            // of the first tour
            proof {
                lemma_unvisited_witness(visited@, n as int);
            }
            let mut leftover: usize = 0;
            let mut j: usize = 0;
            let mut found = false;
            while j < n
                invariant
                    j <= n,
                    visited@.len() == n,
                    found ==> (leftover as int) < n && !visited@[leftover as int],
                    !found ==> forall|v: int| 0 <= v < j ==> visited@[v],
                decreases n - j,
            {
                if !visited[j] {
                    leftover = j;
                    found = true;
                }
                j += 1;
            }
            proof {
                if !found {
                    let w = choose|w: int| 0 <= w < n && !visited@[w];
                    assert(false);
                }
                let ghost pv = partial_a.vec@;
                assert(forall|k2: int|
                    0 <= k2 < pv.len() ==> visited@[#[trigger] pv[k2] as int]);
            }
            partial_a.vec.push(leftover);
            proof {
                let nv = partial_a.vec@;
                let pv = nv.drop_last();
                assert(nv == pv.push(leftover));
                assert forall|k1: int, k2: int| 0 <= k1 < k2 < nv.len() implies nv[k1] != nv[k2] by {
                    if k2 < nv.len() - 1 {
                        assert(nv[k1] == pv[k1] && nv[k2] == pv[k2]);
                    } else {
                        assert(nv[k2] == leftover && nv[k1] == pv[k1]);
                    }
                }
                assert forall|k1: int, k2: int|
                    0 <= k1 < nv.len() && 0 <= k2 < partial_b.vec@.len() implies nv[k1]
                    != partial_b.vec@[k2] by {
                    if k1 < nv.len() - 1 {
                        assert(nv[k1] == pv[k1]);
                    } else {
                        assert(nv[k1] == leftover);
                    }
                }
                assert forall|k1: int| 0 <= k1 < nv.len() implies (#[trigger] nv[k1] as int)
                    < instance.n() by {
                    if k1 < nv.len() - 1 {
                        assert(nv[k1] == pv[k1]);
                    }
                }
            }
        }
        proof {
            assert(is_partition(
                partial_a.vec@,
                partial_b.vec@,
                partial_a.vec@.len() + partial_b.vec@.len() as int,
            ));
        }
        TSPSolution::new(partial_a.vec, partial_b.vec)
    }

    fn solve_s(&self, start_vertex: usize, instance: &TSPInstance, solution: TSPSolution) -> (r:
        TSPSolution) {
        // a well-formed solution already places every point, so there is
        // nothing left to insert; the side tables are rebuilt
        TSPSolution::new(solution.perm_a, solution.perm_b)
    }
}

} // verus!
