//! Trusted boundary to the `rand` crate.
//!
//! The engine draws each die from the thread-local generator of `rand`.
//! Nothing is assumed of a draw beyond its range: two draws with equal
//! arguments may differ, so every caller is verified for all outcomes.

use rand::Rng;
use vstd::prelude::*;

verus! {

#[verifier::external_type_specification]
#[verifier::external_body]
pub struct ExThreadRng(rand::rngs::ThreadRng);

/// Relies on `rand::thread_rng`: a handle to the thread-local generator,
/// lazily seeded from the system's entropy source.
#[verifier::external_body]
pub(crate) fn new_rng() -> rand::rngs::ThreadRng {
    rand::thread_rng()
}

/// Relies on `rand::Rng::gen_range` over the inclusive range `1..=sides`:
/// the sample lies in that range. The call panics only on an empty range,
/// which `sides >= 1` rules out.
#[verifier::external_body]
pub(crate) fn roll_die(rng: &mut rand::rngs::ThreadRng, sides: u32) -> (r: u32)
    requires
        sides >= 1,
    ensures
        1 <= r <= sides,
{
    rng.gen_range(1..=sides)
}

} // verus!
