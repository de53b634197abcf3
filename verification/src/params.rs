//! The parameter set: ring dimension, modulus, vector lengths, bounds and
//! the byte lengths of every packed object.
use vstd::prelude::*;

verus! {

/// Length in bytes of seeds, hashes and the challenge seed.
pub const SEEDBYTES: usize = 32;

/// Length in bytes of the output of the collision resistant hash.
pub const CRHBYTES: usize = 64;

/// Number of coefficients of a ring element.
pub const N: usize = 256;

/// The prime modulus of the coefficient ring.
pub const Q: i32 = 8380417;

/// Number of low bits dropped from the public vector.
pub const D: usize = 13;

/// Rows of the matrix, length of the long vectors.
pub const K: usize = 6;

/// Columns of the matrix, length of the short vectors.
pub const L: usize = 5;

/// Bound of the secret coefficients.
pub const ETA: i32 = 4;

/// Number of nonzero coefficients of a challenge.
pub const TAU: usize = 49;

/// `TAU * ETA`: what the coefficients of the product of a challenge and a
/// secret stay within.
pub const BETA: i32 = 196;

/// Bound of the masking coefficients.
pub const GAMMA1: i32 = 524288;

/// Half the width of a high-bits bucket.
pub const GAMMA2: i32 = 261888;

/// Largest number of ones in a hint vector.
pub const OMEGA: usize = 55;

pub const POLYT1_PACKEDBYTES: usize = 320;

pub const POLYT0_PACKEDBYTES: usize = 416;

pub const POLYVECH_PACKEDBYTES: usize = 61;

pub const POLYZ_PACKEDBYTES: usize = 640;

pub const POLYW1_PACKEDBYTES: usize = 128;

pub const POLYETA_PACKEDBYTES: usize = 128;

pub const PUBLICKEYBYTES: usize = 1952;

pub const SECRETKEYBYTES: usize = 4000;

pub const SIGNBYTES: usize = 3293;

/// The byte lengths are the sums that the layout of each object prescribes.
pub proof fn lemma_sizes()
    ensures
        GAMMA2 * 32 == Q - 1,
        BETA == TAU * ETA,
        POLYT1_PACKEDBYTES * 8 == N * 10,
        POLYT0_PACKEDBYTES * 8 == N * D,
        POLYZ_PACKEDBYTES * 8 == N * 20,
        POLYW1_PACKEDBYTES * 8 == N * 4,
        POLYETA_PACKEDBYTES * 8 == N * 4,
        POLYVECH_PACKEDBYTES == OMEGA + K,
        PUBLICKEYBYTES == SEEDBYTES + K * POLYT1_PACKEDBYTES,
        SECRETKEYBYTES == 3 * SEEDBYTES + (L + K) * POLYETA_PACKEDBYTES + K * POLYT0_PACKEDBYTES,
        SIGNBYTES == SEEDBYTES + L * POLYZ_PACKEDBYTES + POLYVECH_PACKEDBYTES,
{
}

} // verus!
