use crate::tsp::partial_path::PartialPath;
use crate::tsp::picker::{
    lemma_unvisited_update, lemma_unvisited_witness, unvisited_count, Picker,
};
use vstd::prelude::*;

verus! {

/// Cheapest-insertion construction: each step inserts an unplaced point at
/// the tour position where it lengthens the tour least.
pub struct CyclePicker;

impl CyclePicker {
    pub fn new() -> (r: CyclePicker) {
        CyclePicker
    }

    /// Inserts the overall cheapest unplaced point into the tour: no other
    /// unplaced point at any position would lengthen the tour less.
    pub fn _add(&self, partial_path: &mut PartialPath, visited: &mut Vec<bool>)
        requires
            old(partial_path).wf(),
            old(visited)@.len() == old(partial_path).instance.n(),
            forall|k: int|
                0 <= k < old(partial_path).vec@.len() ==> old(visited)@[#[trigger] old(
                    partial_path,
                ).vec@[k] as int],
            unvisited_count(old(visited)@, old(visited)@.len() as int) >= 1,
        ensures
            final (partial_path).instance == old(partial_path).instance,
            final (partial_path).wf(),
            final (partial_path).vec@.len() == old(partial_path).vec@.len() + 1,
            final (visited)@.len() == old(visited)@.len(),
            forall|k: int|
                0 <= k < final (partial_path).vec@.len() ==> final (visited)@[#[trigger] final (
                partial_path).vec@[k] as int],
            unvisited_count(final (visited)@, final (visited)@.len() as int) == unvisited_count(
                old(visited)@,
                old(visited)@.len() as int,
            ) - 1,
            exists|bi: int, bj: usize|
                {
                    &&& 0 <= bi < old(partial_path).vec@.len()
                    &&& (bj as int) < old(visited)@.len()
                    &&& !old(visited)@[bj as int]
                    &&& final (partial_path).vec@ == #[trigger] old(partial_path).vec@.insert(
                        bi,
                        bj,
                    )
                    &&& final (visited)@ == old(visited)@.update(bj as int, true)
                    &&& (forall|i: int, j: int|
                        0 <= i < old(partial_path).vec@.len() && 0 <= j < old(visited)@.len()
                            && !old(visited)@[j] ==> old(partial_path).insert_delta(bi, bj as int)
                            <= #[trigger] old(partial_path).insert_delta(i, j))
                },
    {
        let n = partial_path.instance.dimension;
        let len = partial_path.vec.len();
        let mut best_delta: i64 = 0;
        let mut bi: usize = 0;
        let mut bj: usize = 0;
        let mut found = false;
        let mut i: usize = 0;
        while i < len
            invariant
                partial_path.wf(),
                *partial_path == *old(partial_path),
                *visited == *old(visited),
                n == partial_path.instance.dimension,
                visited@.len() == n,
                len == partial_path.vec@.len(),
                i <= len,
                found ==> {
                    &&& (bi as int) < len
                    &&& (bj as int) < n
                    &&& !visited@[bj as int]
                    &&& best_delta as int == partial_path.insert_delta(bi as int, bj as int)
                    &&& forall|i2: int, j2: int|
                        0 <= i2 < i && 0 <= j2 < n && !visited@[j2] ==> best_delta as int
                            <= #[trigger] partial_path.insert_delta(i2, j2)
                },
                !found ==> (i == 0 || forall|j2: int| 0 <= j2 < n ==> visited@[j2]),
            decreases len - i,
        {
            let mut j: usize = 0;
            while j < n
                invariant
                    partial_path.wf(),
                    *partial_path == *old(partial_path),
                    *visited == *old(visited),
                    n == partial_path.instance.dimension,
                    visited@.len() == n,
                    len == partial_path.vec@.len(),
                    i < len,
                    j <= n,
                    found ==> {
                        &&& (bi as int) < len
                        &&& (bj as int) < n
                        &&& !visited@[bj as int]
                        &&& best_delta as int == partial_path.insert_delta(bi as int, bj as int)
                        &&& forall|i2: int, j2: int|
                            0 <= i2 < i && 0 <= j2 < n && !visited@[j2] ==> best_delta as int
                                <= #[trigger] partial_path.insert_delta(i2, j2)
                        &&& forall|j2: int|
                            0 <= j2 < j && !visited@[j2] ==> best_delta as int
                                <= #[trigger] partial_path.insert_delta(i as int, j2)
                    },
                    !found ==> (forall|j2: int| 0 <= j2 < n ==> visited@[j2]) || (i == 0 && forall|
                        j2: int,
                    | 0 <= j2 < j ==> visited@[j2]),
                decreases n - j,
            {
                if !visited[j] {
                    let new_score = partial_path.try_insert(i, j);
                    if !found || new_score < best_delta {
                        best_delta = new_score;
                        bi = i;
                        bj = j;
                        found = true;
                    }
                }
                j += 1;
            }
            i += 1;
        }
        proof {
            if !found {
                lemma_unvisited_witness(visited@, visited@.len() as int);
                let w = choose|w: int| 0 <= w < visited@.len() && !visited@[w];
                assert(false);
            }
        }
        let ghost old_vec = partial_path.vec@;
        let ghost old_vis = visited@;
        proof {
            assert(best_delta as int == old(partial_path).insert_delta(bi as int, bj as int));
            assert(forall|i2: int, j2: int|
                0 <= i2 < old_vec.len() && 0 <= j2 < old_vis.len() && !old_vis[j2] ==> old(
                    partial_path,
                ).insert_delta(bi as int, bj as int) <= #[trigger] old(partial_path).insert_delta(
                    i2,
                    j2,
                ));
        }
        visited.set(bj, true);
        partial_path.vec.insert(bi, bj);
        proof {
            let nv = partial_path.vec@;
            assert(nv == old_vec.insert(bi as int, bj));
            assert forall|k: int| 0 <= k < nv.len() implies (#[trigger] nv[k] as int)
                < partial_path.instance.n() by {
                if k < bi as int {
                    assert(nv[k] == old_vec[k]);
                } else if k == bi as int {
                    assert(nv[k] == bj);
                } else {
                    assert(nv[k] == old_vec[k - 1]);
                }
            }
            assert forall|k1: int, k2: int| 0 <= k1 < k2 < nv.len() implies nv[k1] != nv[k2] by {
                let m1 = if k1 < bi as int {
                    k1
                } else {
                    k1 - 1
                };
                let m2 = if k2 < bi as int {
                    k2
                } else {
                    k2 - 1
                };
                if k1 != bi as int && k2 != bi as int {
                    assert(nv[k1] == old_vec[m1] && nv[k2] == old_vec[m2]);
                } else if k1 == bi as int {
                    assert(nv[k1] == bj && nv[k2] == old_vec[m2]);
                    assert(old_vis[old_vec[m2] as int]);
                } else {
                    assert(nv[k2] == bj && nv[k1] == old_vec[m1]);
                    assert(old_vis[old_vec[m1] as int]);
                }
            }
            assert forall|k: int| 0 <= k < nv.len() implies visited@[#[trigger] nv[k] as int] by {
                if k < bi as int {
                    assert(nv[k] == old_vec[k]);
                } else if k == bi as int {
                    assert(nv[k] == bj);
                } else {
                    assert(nv[k] == old_vec[k - 1]);
                }
            }
            lemma_unvisited_update(old_vis, bj as int, old_vis.len() as int);
            assert(nv == #[trigger] old(partial_path).vec@.insert(bi as int, bj));
            assert(visited@ == old(visited)@.update(bj as int, true));
        }
    }
}

impl Picker for CyclePicker {
    fn add_both(
        &self,
        partial_path_a: &mut PartialPath,
        partial_path_b: &mut PartialPath,
        visited: &mut Vec<bool>,
    ) {
        self._add(partial_path_a, visited);
        self._add(partial_path_b, visited);
    }
}

} // verus!
