//! Trusted boundary to the `rand` crate: the simulation draws a horizontal
//! spawn jitter and the shake offsets from the thread-local generator. Nothing
//! is assumed of a draw beyond its bounds.

use rand::Rng;
use vstd::prelude::*;

verus! {

#[verifier::external_type_specification]
#[verifier::external_body]
pub struct ExThreadRng(rand::rngs::ThreadRng);

/// Relies on rand::thread_rng: hands out the lazily-initialized thread-local
/// generator.
#[verifier::external_body]
pub(crate) fn thread_rng_handle() -> rand::rngs::ThreadRng {
    rand::thread_rng()
}

/// Relies on Rng::gen_range over the inclusive range `lo..=hi`: rand documents
/// that it panics only on an empty range and otherwise samples a value within
/// the bounds. A random draw warrants nothing more than its bounds.
#[verifier::external_body]
pub(crate) fn gen_range_inclusive(rng: &mut rand::rngs::ThreadRng, lo: i64, hi: i64) -> (r: i64)
    requires
        lo <= hi,
    ensures
        lo <= r <= hi,
{
    rng.gen_range(lo..=hi)
}

} // verus!
