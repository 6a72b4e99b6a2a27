use crate::tsp::partial_path::PartialPath;
use vstd::prelude::*;

verus! {

/// How many of the first `upto` placement flags are still clear.
pub open spec fn unvisited_count(visited: Seq<bool>, upto: int) -> int
    decreases upto,
{
    if upto <= 0 {
        0
    } else {
        unvisited_count(visited, upto - 1) + if !visited[upto - 1] {
            1int
        } else {
            0int
        }
    }
}

/// Marking one clear flag lowers the clear count by one.
pub proof fn lemma_unvisited_update(visited: Seq<bool>, j: int, upto: int)
    requires
        0 <= j < visited.len(),
        !visited[j],
        upto <= visited.len(),
    ensures
        unvisited_count(visited.update(j, true), upto) == unvisited_count(visited, upto) - if j
            < upto {
            1int
        } else {
            0int
        },
    decreases upto,
{
    if upto > 0 {
        lemma_unvisited_update(visited, j, upto - 1);
        assert(visited.update(j, true)[upto - 1] == if j == upto - 1 {
            true
        } else {
            visited[upto - 1]
        });
    }
}

/// Appending a flag leaves the count of any existing prefix alone, and a
/// clear appended flag raises the full count by one.
pub proof fn lemma_unvisited_push(visited: Seq<bool>, x: bool, upto: int)
    requires
        upto <= visited.len(),
    ensures
        unvisited_count(visited.push(x), upto) == unvisited_count(visited, upto),
    decreases upto,
{
    if upto > 0 {
        lemma_unvisited_push(visited, x, upto - 1);
        assert(visited.push(x)[upto - 1] == visited[upto - 1]);
    }
}

/// A positive clear count names a clear flag.
pub proof fn lemma_unvisited_witness(visited: Seq<bool>, upto: int)
    requires
        0 < unvisited_count(visited, upto),
        upto <= visited.len(),
    ensures
        exists|j: int| 0 <= j < upto && !visited[j],
    decreases upto,
{
    if upto > 0 {
        if visited[upto - 1] {
            lemma_unvisited_witness(visited, upto - 1);
        } else {
            assert(0 <= upto - 1 < upto && !visited[upto - 1]);
        }
    }
}

/// The invariant a picker maintains between the two growing tours and the
/// placement flags: the tours hold distinct in-range points, they share no
/// point, and every point a tour holds is flagged as placed.
pub open spec fn picker_inv(pa: PartialPath, pb: PartialPath, visited: Seq<bool>) -> bool {
    &&& pa.wf()
    &&& pb.wf()
    &&& visited.len() == pa.instance.n()
    &&& forall|k: int| 0 <= k < pa.vec@.len() ==> visited[#[trigger] pa.vec@[k] as int]
    &&& forall|k: int| 0 <= k < pb.vec@.len() ==> visited[#[trigger] pb.vec@[k] as int]
    &&& crate::tsp::def::disjoint_seqs(pa.vec@, pb.vec@)
}

/// An insertion strategy used by greedy construction: each call places one
/// not-yet-placed point into each of the growing tours.
pub trait Picker {
    fn add_both(
        &self,
        partial_path_a: &mut PartialPath,
        partial_path_b: &mut PartialPath,
        visited: &mut Vec<bool>,
    )
        requires
            picker_inv(*old(partial_path_a), *old(partial_path_b), old(visited)@),
            old(partial_path_a).instance == old(partial_path_b).instance,
            unvisited_count(old(visited)@, old(visited)@.len() as int) >= 2,
        ensures
            picker_inv(*final (partial_path_a), *final (partial_path_b), final (visited)@),
            final (partial_path_a).instance == old(partial_path_a).instance,
            final (partial_path_b).instance == old(partial_path_b).instance,
            final (visited)@.len() == old(visited)@.len(),
            final (partial_path_a).vec@.len() == old(partial_path_a).vec@.len() + 1,
            final (partial_path_b).vec@.len() == old(partial_path_b).vec@.len() + 1,
            unvisited_count(final (visited)@, final (visited)@.len() as int) == unvisited_count(
                old(visited)@,
                old(visited)@.len() as int,
            ) - 2,
    ;
}

} // verus!
