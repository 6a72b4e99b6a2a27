use crate::tsp::partial_path::PartialPath;
use crate::tsp::picker::{
    lemma_unvisited_update, lemma_unvisited_witness, unvisited_count, Picker,
};
use vstd::prelude::*;

verus! {

/// A positive clear count of at least two names two distinct clear flags.
proof fn lemma_unvisited_witness_two(visited: Seq<bool>, upto: int)
    requires
        2 <= unvisited_count(visited, upto),
        upto <= visited.len(),
    ensures
        exists|u: int, w: int| 0 <= u < w < upto && !visited[u] && !visited[w],
    decreases upto,
{
    if upto > 0 {
        if visited[upto - 1] {
            lemma_unvisited_witness_two(visited, upto - 1);
            let (u, w) = choose|u: int, w: int|
                0 <= u < w < upto - 1 && !visited[u] && !visited[w];
            assert(0 <= u < w < upto && !visited[u] && !visited[w]);
        } else {
            lemma_unvisited_witness(visited, upto - 1);
            let u = choose|u: int| 0 <= u < upto - 1 && !visited[u];
            assert(0 <= u < upto - 1 < upto && !visited[u] && !visited[upto - 1]);
        }
    }
}

/// Simultaneous cheapest insertion: each step places one point into each
/// tour, choosing the pair of points whose combined cheapest insertions
/// cost least.
pub struct CycleSimultaneousPicker;

impl CycleSimultaneousPicker {
    pub fn new() -> (r: CycleSimultaneousPicker) {
        CycleSimultaneousPicker
    }

    /// For every unplaced point, its cheapest insertion cost into the tour
    /// and the position that attains it.
    pub fn get_costs(&self, partial_path: &PartialPath, visited: &Vec<bool>) -> (r: Vec<
        (i64, usize),
    >)
        requires
            partial_path.wf(),
            visited@.len() == partial_path.instance.n(),
        ensures
            r@.len() == visited@.len(),
            forall|j: int|
                0 <= j < visited@.len() && !visited@[j] ==> {
                    &&& ((#[trigger] r@[j]).1 as int) < partial_path.vec@.len()
                    &&& r@[j].0 as int == partial_path.insert_delta(r@[j].1 as int, j)
                    &&& -crate::tsp::def::MAX_DIST <= r@[j].0 <= 2 * crate::tsp::def::MAX_DIST
                    &&& forall|i: int|
                        0 <= i < partial_path.vec@.len() ==> r@[j].0 as int
                            <= #[trigger] partial_path.insert_delta(i, j)
                },
    {
        let n = visited.len();
        let len = partial_path.vec.len();
        let mut min_increase: Vec<(i64, usize)> = Vec::new();
        let mut j: usize = 0;
        while j < n
            invariant
                partial_path.wf(),
                visited@.len() == n,
                n == partial_path.instance.n(),
                len == partial_path.vec@.len(),
                j <= n,
                min_increase@.len() == j,
                forall|j2: int|
                    0 <= j2 < j && !visited@[j2] ==> {
                        &&& ((#[trigger] min_increase@[j2]).1 as int) < len
                        &&& min_increase@[j2].0 as int == partial_path.insert_delta(
                            min_increase@[j2].1 as int,
                            j2,
                        )
                        &&& -crate::tsp::def::MAX_DIST <= min_increase@[j2].0 <= 2
                            * crate::tsp::def::MAX_DIST
                        &&& forall|i: int|
                            0 <= i < len ==> min_increase@[j2].0 as int
                                <= #[trigger] partial_path.insert_delta(i, j2)
                    },
            decreases n - j,
        {
            if !visited[j] {
                let mut best = partial_path.try_insert(0, j);
                let mut bi: usize = 0;
                let mut i: usize = 1;
                while i < len
                    invariant
                        partial_path.wf(),
                        (j as int) < partial_path.instance.n(),
                        len == partial_path.vec@.len(),
                        1 <= i <= len,
                        (bi as int) < len,
                        best as int == partial_path.insert_delta(bi as int, j as int),
                        -crate::tsp::def::MAX_DIST <= best <= 2 * crate::tsp::def::MAX_DIST,
                        forall|i2: int|
                            0 <= i2 < i ==> best as int <= #[trigger] partial_path.insert_delta(
                                i2,
                                j as int,
                            ),
                    decreases len - i,
                {
                    let new_score = partial_path.try_insert(i, j);
                    if new_score < best {
                        best = new_score;
                        bi = i;
                    }
                    i += 1;
                }
                min_increase.push((best, bi));
            } else {
                min_increase.push((i64::MAX, 0));
            }
            j += 1;
        }
        min_increase
    }
}

impl Picker for CycleSimultaneousPicker {
    fn add_both(
        &self,
        partial_path_a: &mut PartialPath,
        partial_path_b: &mut PartialPath,
        visited: &mut Vec<bool>,
    )
        ensures
            exists|vi: usize, vj: usize, pi: int, pj: int|
                #![trigger old(partial_path_a).vec@.insert(pi, vi), old(partial_path_b).vec@.insert(pj, vj)]
                {
                    &&& (vi as int) < old(visited)@.len()
                    &&& (vj as int) < old(visited)@.len()
                    &&& vi != vj
                    &&& !old(visited)@[vi as int]
                    &&& !old(visited)@[vj as int]
                    &&& 0 <= pi < old(partial_path_a).vec@.len()
                    &&& 0 <= pj < old(partial_path_b).vec@.len()
                    &&& final (partial_path_a).vec@ == old(partial_path_a).vec@.insert(pi, vi)
                    &&& final (partial_path_b).vec@ == old(partial_path_b).vec@.insert(pj, vj)
                    &&& (forall|i2: int, j2: int, pi2: int, pj2: int|
                        0 <= i2 < old(visited)@.len() && 0 <= j2 < old(visited)@.len() && i2 != j2
                            && !old(visited)@[i2] && !old(visited)@[j2] && 0 <= pi2 < old(
                            partial_path_a,
                        ).vec@.len() && 0 <= pj2 < old(partial_path_b).vec@.len() ==> old(
                            partial_path_a,
                        ).insert_delta(pi, vi as int) + old(partial_path_b).insert_delta(
                            pj,
                            vj as int,
                        ) <= #[trigger] old(partial_path_a).insert_delta(pi2, i2) + #[trigger] old(
                            partial_path_b,
                        ).insert_delta(pj2, j2))
                },
    {
        let cost_a = self.get_costs(partial_path_a, visited);
        let cost_b = self.get_costs(partial_path_b, visited);
        let n = visited.len();
        let mut best_sum: i64 = 0;
        let mut bi: usize = 0;
        let mut bj: usize = 0;
        let mut found = false;
        let mut i: usize = 0;
        while i < n
            invariant
                partial_path_a.wf(),
                partial_path_b.wf(),
                *partial_path_a == *old(partial_path_a),
                *partial_path_b == *old(partial_path_b),
                *visited == *old(visited),
                visited@.len() == n,
                cost_a@.len() == n,
                cost_b@.len() == n,
                forall|j2: int|
                    0 <= j2 < n && !visited@[j2] ==> {
                        &&& ((#[trigger] cost_a@[j2]).1 as int) < partial_path_a.vec@.len()
                        &&& cost_a@[j2].0 as int == partial_path_a.insert_delta(
                            cost_a@[j2].1 as int,
                            j2,
                        )
                        &&& -crate::tsp::def::MAX_DIST <= cost_a@[j2].0 <= 2
                            * crate::tsp::def::MAX_DIST
                        &&& forall|i2: int|
                            0 <= i2 < partial_path_a.vec@.len() ==> cost_a@[j2].0 as int
                                <= #[trigger] partial_path_a.insert_delta(i2, j2)
                    },
                forall|j2: int|
                    0 <= j2 < n && !visited@[j2] ==> {
                        &&& ((#[trigger] cost_b@[j2]).1 as int) < partial_path_b.vec@.len()
                        &&& cost_b@[j2].0 as int == partial_path_b.insert_delta(
                            cost_b@[j2].1 as int,
                            j2,
                        )
                        &&& -crate::tsp::def::MAX_DIST <= cost_b@[j2].0 <= 2
                            * crate::tsp::def::MAX_DIST
                        &&& forall|i2: int|
                            0 <= i2 < partial_path_b.vec@.len() ==> cost_b@[j2].0 as int
                                <= #[trigger] partial_path_b.insert_delta(i2, j2)
                    },
                i <= n,
                found ==> {
                    &&& (bi as int) < n
                    &&& (bj as int) < n
                    &&& bi != bj
                    &&& !visited@[bi as int]
                    &&& !visited@[bj as int]
                    &&& best_sum as int == cost_a@[bi as int].0 + cost_b@[bj as int].0
                    &&& forall|i2: int, j2: int|
                        0 <= i2 < i && 0 <= j2 < n && i2 != j2 && !visited@[i2] && !visited@[j2]
                            ==> best_sum as int <= (#[trigger] cost_a@[i2]).0 + (
                        #[trigger] cost_b@[j2]).0
                },
                !found ==> forall|i2: int, j2: int|
                    0 <= i2 < i && 0 <= j2 < n && i2 != j2 ==> (#[trigger] visited@[i2]) || (
                    #[trigger] visited@[j2]),
            decreases n - i,
        {
            if !visited[i] {
                let mut j: usize = 0;
                while j < n
                    invariant
                        partial_path_a.wf(),
                        partial_path_b.wf(),
                        *partial_path_a == *old(partial_path_a),
                        *partial_path_b == *old(partial_path_b),
                        *visited == *old(visited),
                        visited@.len() == n,
                        cost_a@.len() == n,
                        cost_b@.len() == n,
                        forall|j2: int|
                            0 <= j2 < n && !visited@[j2] ==> {
                                &&& ((#[trigger] cost_a@[j2]).1 as int) < partial_path_a.vec@.len()
                                &&& cost_a@[j2].0 as int == partial_path_a.insert_delta(
                                    cost_a@[j2].1 as int,
                                    j2,
                                )
                                &&& -crate::tsp::def::MAX_DIST <= cost_a@[j2].0 <= 2
                                    * crate::tsp::def::MAX_DIST
                                &&& forall|i2: int|
                                    0 <= i2 < partial_path_a.vec@.len() ==> cost_a@[j2].0 as int
                                        <= #[trigger] partial_path_a.insert_delta(i2, j2)
                            },
                        forall|j2: int|
                            0 <= j2 < n && !visited@[j2] ==> {
                                &&& ((#[trigger] cost_b@[j2]).1 as int) < partial_path_b.vec@.len()
                                &&& cost_b@[j2].0 as int == partial_path_b.insert_delta(
                                    cost_b@[j2].1 as int,
                                    j2,
                                )
                                &&& -crate::tsp::def::MAX_DIST <= cost_b@[j2].0 <= 2
                                    * crate::tsp::def::MAX_DIST
                                &&& forall|i2: int|
                                    0 <= i2 < partial_path_b.vec@.len() ==> cost_b@[j2].0 as int
                                        <= #[trigger] partial_path_b.insert_delta(i2, j2)
                            },
                        i < n,
                        !visited@[i as int],
                        j <= n,
                        found ==> {
                            &&& (bi as int) < n
                            &&& (bj as int) < n
                            &&& bi != bj
                            &&& !visited@[bi as int]
                            &&& !visited@[bj as int]
                            &&& best_sum as int == cost_a@[bi as int].0 + cost_b@[bj as int].0
                            &&& forall|i2: int, j2: int|
                                0 <= i2 < i && 0 <= j2 < n && i2 != j2 && !visited@[i2]
                                    && !visited@[j2] ==> best_sum as int <= (
                                #[trigger] cost_a@[i2]).0 + (#[trigger] cost_b@[j2]).0
                            &&& forall|j2: int|
                                0 <= j2 < j && (i as int) != j2 && !visited@[j2]
                                    ==> best_sum as int <= cost_a@[i as int].0 + (
                                #[trigger] cost_b@[j2]).0
                        },
                        !found ==> (forall|i2: int, j2: int|
                            0 <= i2 < i && 0 <= j2 < n && i2 != j2 ==> (#[trigger] visited@[i2])
                                || (#[trigger] visited@[j2])) && (forall|j2: int|
                            0 <= j2 < j && (i as int) != j2 ==> #[trigger] visited@[j2]),
                    decreases n - j,
                {
                    if !visited[j] && i != j {
                        proof {
                            assert(-crate::tsp::def::MAX_DIST <= cost_a@[i as int].0 <= 2
                                * crate::tsp::def::MAX_DIST);
                            assert(-crate::tsp::def::MAX_DIST <= cost_b@[j as int].0 <= 2
                                * crate::tsp::def::MAX_DIST);
                        }
                        let sum = cost_a[i].0 + cost_b[j].0;
                        if !found || sum < best_sum {
                            best_sum = sum;
                            bi = i;
                            bj = j;
                            found = true;
                        }
                    }
                    j += 1;
                }
            }
            i += 1;
        }
        proof {
            if !found {
                lemma_unvisited_witness_two(visited@, visited@.len() as int);
                let (u, w) = choose|u: int, w: int|
                    0 <= u < w < visited@.len() && !visited@[u] && !visited@[w];
                assert(false);
            }
        }
        let pos_a = cost_a[bi].1;
        let pos_b = cost_b[bj].1;
        proof {
            assert(best_sum as int == partial_path_a.insert_delta(pos_a as int, bi as int)
                + partial_path_b.insert_delta(pos_b as int, bj as int));
            assert forall|i2: int, j2: int, pi2: int, pj2: int|
                0 <= i2 < visited@.len() && 0 <= j2 < visited@.len() && i2 != j2 && !visited@[i2]
                    && !visited@[j2] && 0 <= pi2 < partial_path_a.vec@.len() && 0 <= pj2
                    < partial_path_b.vec@.len() implies partial_path_a.insert_delta(
                pos_a as int,
                bi as int,
            ) + partial_path_b.insert_delta(pos_b as int, bj as int)
                <= #[trigger] partial_path_a.insert_delta(pi2, i2)
                + #[trigger] partial_path_b.insert_delta(pj2, j2) by {
                assert(best_sum as int <= (cost_a@[i2]).0 + (cost_b@[j2]).0);
                assert(cost_a@[i2].0 as int <= partial_path_a.insert_delta(pi2, i2));
                assert(cost_b@[j2].0 as int <= partial_path_b.insert_delta(pj2, j2));
            }
        }
        let ghost old_va = partial_path_a.vec@;
        let ghost old_vb = partial_path_b.vec@;
        let ghost old_vis = visited@;
        proof {
            lemma_unvisited_update(visited@, bi as int, visited@.len() as int);
        }
        visited.set(bi, true);
        proof {
            lemma_unvisited_update(visited@, bj as int, visited@.len() as int);
        }
        visited.set(bj, true);
        partial_path_a.vec.insert(pos_a, bi);
        partial_path_b.vec.insert(pos_b, bj);
        proof {
            let na = partial_path_a.vec@;
            let nb = partial_path_b.vec@;
            assert(na == #[trigger] old(partial_path_a).vec@.insert(pos_a as int, bi));
            assert(nb == #[trigger] old(partial_path_b).vec@.insert(pos_b as int, bj));
            lemma_insert_fresh(old_va, old_vis, pos_a as int, bi);
            lemma_insert_fresh(old_vb, old_vis, pos_b as int, bj);
            assert forall|k: int| 0 <= k < na.len() implies visited@[#[trigger] na[k] as int] by {
                if k < pos_a as int {
                    assert(na[k] == old_va[k]);
                } else if k == pos_a as int {
                    assert(na[k] == bi);
                } else {
                    assert(na[k] == old_va[k - 1]);
                }
            }
            assert forall|k: int| 0 <= k < nb.len() implies visited@[#[trigger] nb[k] as int] by {
                if k < pos_b as int {
                    assert(nb[k] == old_vb[k]);
                } else if k == pos_b as int {
                    assert(nb[k] == bj);
                } else {
                    assert(nb[k] == old_vb[k - 1]);
                }
            }
            assert forall|k1: int, k2: int|
                0 <= k1 < na.len() && 0 <= k2 < nb.len() implies na[k1] != nb[k2] by {
                let m1 = if k1 < pos_a as int {
                    k1
                } else {
                    k1 - 1
                };
                let m2 = if k2 < pos_b as int {
                    k2
                } else {
                    k2 - 1
                };
                if k1 == pos_a as int && k2 == pos_b as int {
                    assert(na[k1] == bi && nb[k2] == bj);
                } else if k1 == pos_a as int {
                    assert(na[k1] == bi && nb[k2] == old_vb[m2]);
                    assert(old_vis[old_vb[m2] as int]);
                } else if k2 == pos_b as int {
                    assert(nb[k2] == bj && na[k1] == old_va[m1]);
                    assert(old_vis[old_va[m1] as int]);
                } else {
                    assert(na[k1] == old_va[m1] && nb[k2] == old_vb[m2]);
                }
            }
        }
    }
}

/// Inserting a point that no flag marks keeps a tour's entries distinct and
/// in range.
proof fn lemma_insert_fresh(vec: Seq<usize>, visited: Seq<bool>, pos: int, v: usize)
    requires
        0 <= pos < vec.len(),
        (v as int) < visited.len(),
        !visited[v as int],
        forall|k: int| 0 <= k < vec.len() ==> visited[#[trigger] vec[k] as int],
        forall|k1: int, k2: int| 0 <= k1 < k2 < vec.len() ==> vec[k1] != vec[k2],
        forall|k: int| 0 <= k < vec.len() ==> (#[trigger] vec[k] as int) < visited.len(),
    ensures
        forall|k1: int, k2: int|
            0 <= k1 < k2 < vec.insert(pos, v).len() ==> vec.insert(pos, v)[k1] != vec.insert(
                pos,
                v,
            )[k2],
        forall|k: int|
            0 <= k < vec.insert(pos, v).len() ==> (#[trigger] vec.insert(pos, v)[k] as int)
                < visited.len(),
{
    let nv = vec.insert(pos, v);
    assert forall|k1: int, k2: int| 0 <= k1 < k2 < nv.len() implies nv[k1] != nv[k2] by {
        let m1 = if k1 < pos {
            k1
        } else {
            k1 - 1
        };
        let m2 = if k2 < pos {
            k2
        } else {
            k2 - 1
        };
        if k1 != pos && k2 != pos {
            assert(nv[k1] == vec[m1] && nv[k2] == vec[m2]);
        } else if k1 == pos {
            assert(nv[k1] == v && nv[k2] == vec[m2]);
            assert(visited[vec[m2] as int]);
        } else {
            assert(nv[k2] == v && nv[k1] == vec[m1]);
            assert(visited[vec[m1] as int]);
        }
    }
    assert forall|k: int| 0 <= k < nv.len() implies (#[trigger] nv[k] as int) < visited.len() by {
        if k < pos {
            assert(nv[k] == vec[k]);
        } else if k == pos {
            assert(nv[k] == v);
        } else {
            assert(nv[k] == vec[k - 1]);
        }
    }
}

} // verus!
