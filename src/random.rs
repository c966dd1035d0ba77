//! Random draws, through the `rand` crate.
use rand::Rng;
use vstd::prelude::*;

verus! {

/// Relies on rand's `thread_rng().gen_range(0..=hi)`: a uniformly drawn
/// value in `0..=hi` (the range is never empty, so the call does not panic).
#[verifier::external_body]
pub(crate) fn random_index(hi: usize) -> (r: usize)
    ensures
        r <= hi,
{
    rand::thread_rng().gen_range(0..=hi)
}

} // verus!
