use vstd::prelude::*;
use rand::seq::SliceRandom;
use crate::names::names;

verus! {

/// Relies on rand's `Rng::gen_range(low, high)`: a value in `[low, high)`. It panics when
/// `low >= high`, which `requires` rules out.
#[verifier::external_body]
pub(crate) fn random_below<R: rand::Rng>(rng: &mut R, n: usize) -> (r: usize)
    requires
        0 < n,
    ensures
        r < n,
{
    rng.gen_range(0, n)
}

/// Relies on rand's `SliceRandom::shuffle`: it only swaps elements of the slice, so the result
/// holds the same strings in some order.
#[verifier::external_body]
pub(crate) fn shuffle_names<R: rand::Rng>(v: &mut Vec<String>, rng: &mut R)
    ensures
        names(final(v)@).to_multiset() == names(old(v)@).to_multiset(),
{
    v.shuffle(rng);
}

} // verus!
