use vstd::prelude::*;

use rand::Rng;

verus! {

/// A number drawn from `lo..hi` by the thread's random number generator
/// (`rand::thread_rng` and `Rng::gen_range`). The draw depends on chance, so
/// nothing is claimed of it beyond the range.
#[verifier::external_body]
pub(crate) fn random_in_range(lo: usize, hi: usize) -> (r: usize)
    requires
        lo < hi,
    ensures
        lo <= r < hi,
{
    rand::thread_rng().gen_range(lo..hi)
}

} // verus!
