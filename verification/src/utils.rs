use vstd::prelude::*;

verus! {

/// Relies on rand's `Rng::gen_range` on a half-open range: the sample lies in
/// the range, and the call panics only on an empty range, which the
/// precondition rules out.
#[verifier::external_body]
pub(crate) fn rand_below(lo: usize, hi: usize) -> (r: usize)
    requires
        lo < hi,
    ensures
        lo <= r < hi,
{
    rand::Rng::gen_range(&mut rand::thread_rng(), lo..hi)
}

/// Two distinct indices below `n`, drawn at random.
pub fn random_combination(n: usize) -> (r: (usize, usize))
    requires
        2 <= n <= usize::MAX / 2,
    ensures
        r.0 < n,
        r.1 < n,
        r.0 != r.1,
{
    let x_1 = rand_below(0, n);
    let offset = rand_below(1, n);
    let x_2 = (offset + x_1) % n;
    proof {
        assert((offset + x_1) % (n as int) != x_1 as int) by {
            vstd::arithmetic::div_mod::lemma_mod_add_multiples_vanish(
                offset as int + x_1 as int - n as int,
                n as int,
            );
            if x_1 + offset < n {
                vstd::arithmetic::div_mod::lemma_small_mod((x_1 + offset) as nat, n as nat);
            } else {
                vstd::arithmetic::div_mod::lemma_small_mod((x_1 + offset - n) as nat, n as nat);
            }
        }
    }
    (x_1, x_2)
}

/// Whether a sequence holds every index below `n` exactly once.
pub open spec fn is_permutation_of(s: Seq<usize>, n: int) -> bool {
    &&& s.len() == n
    &&& forall|i: int| 0 <= i < s.len() ==> #[trigger] (s[i] as int) < n
    &&& forall|i: int, j: int| 0 <= i < j < s.len() ==> s[i] != s[j]
}

/// A uniformly shuffled sequence of the indices `0 .. n`.
pub fn random_permutation(n: usize) -> (r: Vec<usize>)
    requires
        2 <= n,
    ensures
        is_permutation_of(r@, n as int),
{
    let mut vec: Vec<usize> = Vec::with_capacity(n);
    for i in 0..n
        invariant
            vec@.len() == i,
            forall|k: int| 0 <= k < i ==> #[trigger] (vec@[k] as int) == k,
    {
        vec.push(i);
    }
    for i in 0..n - 2
        invariant
            n >= 2,
            vec@.len() == n,
            forall|k: int| 0 <= k < n ==> #[trigger] (vec@[k] as int) < n,
            forall|k: int, l: int| 0 <= k < l < n ==> vec@[k] != vec@[l],
    {
        let j = i + rand_below(0, n - i);
        let vi = vec[i];
        let vj = vec[j];
        vec.set(i, vj);
        vec.set(j, vi);
    }
    vec
}

} // verus!
