use vstd::prelude::*;

verus! {

/// A placeholder for configurations whose engine is only ever asked to
/// continue from an existing solution, so that no construction heuristic is
/// needed.
pub struct DummySolver {}

impl DummySolver {
    pub fn new() -> (r: DummySolver) {
        DummySolver {  }
    }
}

} // verus!
