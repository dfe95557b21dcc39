//! The library's single source of randomness.
//!
//! Everything random in a run — generated positions, generated node types,
//! and the probabilistic swarm relay decisions — is fed by uniform draws
//! from this one function. Every caller is verified to be correct for every
//! value the draw can take.

use vstd::prelude::*;
use rand::Rng;

verus! {

/// Relies on `rand::rng` (the thread-local generator) and
/// `rand::Rng::random_range`: a draw from the non-empty range `0..bound`
/// lies in that range. Nothing more is assumed of the value.
/// `random_range` panics only on an empty range, which the precondition
/// rules out.
#[verifier::external_body]
pub(crate) fn rand_below(bound: u64) -> (r: u64)
    requires
        bound >= 1,
    ensures
        r < bound,
{
    rand::rng().random_range(0..bound)
}

} // verus!
