//! The random source of the engine.
//!
//! Randomness is injected: every searching function takes a seedable
//! generator, so rollouts are reproducible under a fixed seed. The generator
//! itself comes from the `rand` crate and is opaque to verification; the one
//! operation the engine draws from it is wrapped with the only contract the
//! crate's documentation supports, that the sample lies in the requested
//! range.

use vstd::prelude::*;

verus! {

#[verifier::external_type_specification]
#[verifier::external_body]
pub struct ExStdRng(rand::rngs::StdRng);

/// Relies on rand's `RngExt::random_range` over `0..n`: the sample is drawn
/// from that range, so it lies below `n`. The call panics only on an empty
/// range, which the precondition rules out. Nothing is promised about which
/// value comes back: two calls on equal arguments may differ.
#[verifier::external_body]
pub(crate) fn random_below(rng: &mut rand::rngs::StdRng, n: usize) -> (r: usize)
    requires
        n >= 1,
    ensures
        r < n,
{
    rand::RngExt::random_range(rng, 0..n)
}

} // verus!
