use crate::tsp::partial_path::PartialPath;
use crate::tsp::picker::{
    lemma_unvisited_update, lemma_unvisited_witness, unvisited_count, Picker,
};
use vstd::prelude::*;

verus! {

/// Nearest-neighbor construction: each step appends the unplaced point
/// closest to the tour's current endpoint.
pub struct NearestPicker;

impl NearestPicker {
    pub fn new() -> (r: NearestPicker) {
        NearestPicker
    }

    /// Appends the unplaced point nearest to the tour's last point: no
    /// other unplaced point is closer to it.
    fn _add(&self, partial_path: &mut PartialPath, visited: &mut Vec<bool>)
        requires
            old(partial_path).wf(),
            old(visited)@.len() == old(partial_path).instance.n(),
            forall|k: int|
                0 <= k < old(partial_path).vec@.len() ==> old(visited)@[#[trigger] old(
                    partial_path,
                ).vec@[k] as int],
            unvisited_count(old(visited)@, old(visited)@.len() as int) >= 1,
        ensures
            final (partial_path).instance == old(partial_path).instance,
            final (partial_path).wf(),
            final (partial_path).vec@.len() == old(partial_path).vec@.len() + 1,
            final (visited)@.len() == old(visited)@.len(),
            forall|k: int|
                0 <= k < final (partial_path).vec@.len() ==> final (visited)@[#[trigger] final (
                partial_path).vec@[k] as int],
            unvisited_count(final (visited)@, final (visited)@.len() as int) == unvisited_count(
                old(visited)@,
                old(visited)@.len() as int,
            ) - 1,
            exists|bj: usize|
                {
                    let last = old(partial_path).vec@.last() as int;
                    &&& (bj as int) < old(visited)@.len()
                    &&& !old(visited)@[bj as int]
                    &&& final (partial_path).vec@ == #[trigger] old(partial_path).vec@.push(bj)
                    &&& final (visited)@ == old(visited)@.update(bj as int, true)
                    &&& (forall|j: int|
                        0 <= j < old(visited)@.len() && !old(visited)@[j] ==> old(
                            partial_path,
                        ).instance.d(last, bj as int) <= #[trigger] old(partial_path).instance.d(
                            last,
                            j,
                        ))
                },
    {
        let n = partial_path.instance.dimension;
        let last = partial_path.vec[partial_path.vec.len() - 1];
        let mut best_dist: i64 = 0;
        let mut bj: usize = 0;
        let mut found = false;
        let mut j: usize = 0;
        while j < n
            invariant
                partial_path.wf(),
                *partial_path == *old(partial_path),
                *visited == *old(visited),
                n == partial_path.instance.dimension,
                visited@.len() == n,
                last == partial_path.vec@.last(),
                j <= n,
                found ==> {
                    &&& (bj as int) < n
                    &&& !visited@[bj as int]
                    &&& best_dist as int == partial_path.instance.d(last as int, bj as int)
                    &&& forall|j2: int|
                        0 <= j2 < j && !visited@[j2] ==> best_dist as int
                            <= #[trigger] partial_path.instance.d(last as int, j2)
                },
                !found ==> forall|j2: int| 0 <= j2 < j ==> visited@[j2],
            decreases n - j,
        {
            let distance = partial_path.instance.dist_k(last, j);
            if !visited[j] && (!found || distance < best_dist) {
                best_dist = distance;
                bj = j;
                found = true;
            }
            j += 1;
        }
        proof {
            if !found {
                lemma_unvisited_witness(visited@, visited@.len() as int);
                let w = choose|w: int| 0 <= w < visited@.len() && !visited@[w];
                assert(false);
            }
        }
        let ghost old_vec = partial_path.vec@;
        let ghost old_vis = visited@;
        visited.set(bj, true);
        partial_path.vec.push(bj);
        proof {
            let nv = partial_path.vec@;
            assert(nv == #[trigger] old(partial_path).vec@.push(bj));
            assert(visited@ == old(visited)@.update(bj as int, true));
            assert forall|k: int| 0 <= k < nv.len() implies (#[trigger] nv[k] as int)
                < partial_path.instance.n() by {
                if k < old_vec.len() {
                    assert(nv[k] == old_vec[k]);
                } else {
                    assert(nv[k] == bj);
                }
            }
            assert forall|k1: int, k2: int| 0 <= k1 < k2 < nv.len() implies nv[k1] != nv[k2] by {
                if k2 < old_vec.len() {
                    assert(nv[k1] == old_vec[k1] && nv[k2] == old_vec[k2]);
                } else {
                    assert(nv[k2] == bj && nv[k1] == old_vec[k1]);
                    assert(old_vis[old_vec[k1] as int]);
                }
            }
            assert forall|k: int| 0 <= k < nv.len() implies visited@[#[trigger] nv[k] as int] by {
                if k < old_vec.len() {
                    assert(nv[k] == old_vec[k]);
                } else {
                    assert(nv[k] == bj);
                }
            }
            lemma_unvisited_update(old_vis, bj as int, old_vis.len() as int);
        }
    }
}

impl Picker for NearestPicker {
    fn add_both(
        &self,
        partial_path_a: &mut PartialPath,
        partial_path_b: &mut PartialPath,
        visited: &mut Vec<bool>,
    ) {
        self._add(partial_path_a, visited);
        self._add(partial_path_b, visited);
    }
}

} // verus!
