//! Random draws, from the `rand` crate.
use vstd::prelude::*;

use rand::rngs::ThreadRng;
use rand::Rng;

verus! {

#[verifier::external_type_specification]
#[verifier::external_body]
pub struct ExThreadRng(rand::rngs::ThreadRng);

/// Relies on `rand::thread_rng`: a handle on this thread's generator.
pub assume_specification[ rand::thread_rng ]() -> rand::rngs::ThreadRng;

/// Relies on `rand::Rng::gen_range`: a value drawn uniformly from
/// `lo..hi` (the call panics on an empty range).
#[verifier::external_body]
pub(crate) fn random_index(rng: &mut ThreadRng, lo: usize, hi: usize) -> (r: usize)
    requires
        lo < hi,
    ensures
        lo <= r < hi,
{
    rng.gen_range(lo..hi)
}

} // verus!
