use vstd::prelude::*;

verus! {

#[verifier::external_type_specification]
#[verifier::external_body]
pub struct ExStdRng(rand::rngs::StdRng);

/// Relies on rand's `Rng::random_range` over the half-open `usize` range
/// `lo..hi`: the result lies in `[lo, hi)`.  The call panics only on an
/// empty range, which the precondition rules out.
#[verifier::external_body]
pub(crate) fn rand_range(rng: &mut rand::rngs::StdRng, lo: usize, hi: usize) -> (r: usize)
    requires
        lo < hi,
    ensures
        lo <= r < hi,
{
    rand::Rng::random_range(rng, lo..hi)
}

/// Relies on rand's `SliceRandom::shuffle`: a Fisher-Yates shuffle permutes
/// the slice in place, so the multiset of its elements is unchanged.
#[verifier::external_body]
pub(crate) fn shuffle_flags(rng: &mut rand::rngs::StdRng, flags: &mut Vec<bool>)
    ensures
        final(flags)@.to_multiset() == old(flags)@.to_multiset(),
{
    rand::seq::SliceRandom::shuffle(flags.as_mut_slice(), rng)
}

} // verus!
