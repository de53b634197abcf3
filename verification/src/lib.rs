//! A lattice signature scheme over the ring of polynomials with 256
//! coefficients modulo the prime 8380417: key generation, signing with a
//! bounded number of attempts, verifying, and the packed forms of keys and
//! signatures.
use vstd::prelude::*;

pub mod api;
pub mod digits;
pub mod laws;
pub mod ntt;
pub mod packing;
pub mod params;
pub mod poly;
pub mod polyvec;
pub mod product;
pub mod randombytes;
pub mod recovery;
pub mod reduce;
pub mod ring;
pub mod roots;
pub mod rounding;
pub mod sign;
pub mod symmetric;

pub use crate::api::{verify, ExpandedPublicKey, Keypair, PublicKey, SignError, Signature};
pub use crate::params::{PUBLICKEYBYTES, SECRETKEYBYTES, SIGNBYTES};

verus! {

} // verus!
