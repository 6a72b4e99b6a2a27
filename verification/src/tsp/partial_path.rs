use crate::tsp::def::{bounded, distinct, prev_pos, TSPInstance, MAX_DIST};
use vstd::prelude::*;

verus! {

/// A tour under construction: a closed sequence of distinct points of the
/// instance, grown by cheapest insertion.
pub struct PartialPath<'a> {
    pub instance: &'a TSPInstance,
    pub vec: Vec<usize>,
}

impl PartialPath<'_> {
    pub open spec fn wf(self) -> bool {
        &&& self.instance.wf()
        &&& bounded(self.vec@, self.instance.n())
        &&& distinct(self.vec@)
        &&& self.vec@.len() >= 1
    }

    /// The cost change of inserting point `id` before position `pos`.
    pub open spec fn insert_delta(self, pos: int, id: int) -> int {
        let len = self.vec@.len() as int;
        let prev = self.vec@[prev_pos(len, pos)] as int;
        let next = self.vec@[pos] as int;
        self.instance.d(prev, id) + self.instance.d(id, next) - self.instance.d(prev, next)
    }

    /// Scores inserting point `id` before position `pos` without doing it.
    pub fn try_insert(&self, pos: usize, id: usize) -> (r: i64)
        requires
            self.wf(),
            (pos as int) < self.vec@.len(),
            (id as int) < self.instance.n(),
        ensures
            r as int == self.insert_delta(pos as int, id as int),
            -MAX_DIST <= r <= 2 * MAX_DIST,
    {
        let n = self.vec.len();
        let prev = if pos == 0 {
            n - 1
        } else {
            pos - 1
        };
        let next = pos;
        -self.instance.dist_k(self.vec[prev], self.vec[next]) + self.instance.dist_k(
            self.vec[prev],
            id,
        ) + self.instance.dist_k(id, self.vec[next])
    }
}

} // verus!
