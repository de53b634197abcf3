//! Fresh seeds from the generator of the thread.
use vstd::prelude::*;
use rand::RngCore;
use crate::params::SEEDBYTES;

verus! {

/// Calls `rand::thread_rng` and fills a seed with `RngCore::fill_bytes`.
/// Nothing is claimed of the bytes: two calls may give any two seeds. The
/// generator panics where the system can give it no entropy.
#[verifier::external_body]
pub(crate) fn random_seed() -> (seed: [u8; SEEDBYTES]) {
    let mut seed = [0u8; SEEDBYTES];
    rand::thread_rng().fill_bytes(&mut seed);
    seed
}

} // verus!
