//! The hash and the byte stream built on it.
//!
//! A stream is a 32-byte state. Initialising hashes a seed together with a
//! nonce; squeezing hands out the state 32 bytes at a time and replaces it
//! by its own hash after every block handed out, the last one included when
//! it is handed out only in part; absorbing hashes the state together with
//! more input.
use vstd::prelude::*;
use vstd::slice::slice_subrange;
use tiny_keccak::Hasher;
use tiny_keccak::Keccak;
use tiny_keccak::Shake;
use crate::params::CRHBYTES;

verus! {

/// The Keccak-256 digest of `input`.
pub uninterp spec fn keccak256(input: Seq<u8>) -> Seq<u8>;

/// The first `outlen` bytes of the SHAKE-256 output for `input`.
pub uninterp spec fn shake256(input: Seq<u8>, outlen: nat) -> Seq<u8>;

/// The digest of `input` as a sequence of exactly 32 bytes.
pub open spec fn digest(input: Seq<u8>) -> Seq<u8> {
    Seq::new(32, |i: int| keccak256(input)[i])
}

/// The 64-byte collision resistant hash of `input`.
pub open spec fn crh(input: Seq<u8>) -> Seq<u8> {
    Seq::new(64, |i: int| shake256(input, 64)[i])
}

/// Calls `tiny_keccak::Keccak::v256`, absorbs `input` with `update` and
/// reads the digest with `finalize`. The 32 bytes returned are taken to be
/// the Keccak-256 digest of `input`: a function of the input alone.
#[verifier::external_body]
fn keccak256_digest(input: &[u8]) -> (out: [u8; 32])
    ensures
        out@ == keccak256(input@),
{
    let mut out = [0u8; 32];
    let mut hasher = Keccak::v256();
    hasher.update(input);
    hasher.finalize(&mut out);
    out
}

/// Calls `tiny_keccak::Shake::v256`, absorbs `input` with `update` and
/// reads 64 bytes with `finalize`. The bytes returned are taken to be the
/// first 64 bytes of the SHAKE-256 output for `input`.
#[verifier::external_body]
fn shake256_digest(input: &[u8]) -> (out: [u8; 64])
    ensures
        out@ == shake256(input@, 64),
{
    let mut out = [0u8; 64];
    let mut hasher = Shake::v256();
    hasher.update(input);
    hasher.finalize(&mut out);
    out
}

/// The digest of `input`.
pub fn hash(input: &[u8]) -> (out: [u8; 32])
    ensures
        out@ == digest(input@),
{
    let out = keccak256_digest(input);
    assert(out@ =~= digest(input@));
    out
}

/// The state of a stream.
#[derive(Debug, Clone, Copy)]
pub struct State {
    pub s: [u8; 32],
}

impl Default for State {
    fn default() -> (r: State)
        ensures
            r.s@ == Seq::new(32, |i: int| 0u8),
    {
        let r = State { s: [0u8; 32] };
        assert(r.s@ =~= Seq::new(32, |i: int| 0u8));
        r
    }
}

pub type Stream128State = State;

pub type Stream256State = State;

/// Bytes in a block of the stream that expands the matrix.
pub const STREAM128_BLOCKBYTES: usize = 168;

/// Bytes in a block of the stream that samples vectors and challenges.
pub const STREAM256_BLOCKBYTES: usize = 136;

/// The 32 bytes that carry a nonce into the first hash: zeros, then the
/// nonce, high byte first.
pub open spec fn nonce_block(nonce: u16) -> Seq<u8> {
    Seq::new(
        32,
        |i: int|
            if i == 30 {
                (nonce / 256) as u8
            } else if i == 31 {
                (nonce % 256) as u8
            } else {
                0u8
            },
    )
}

/// The state of a fresh stream for `seed` and `nonce`.
pub open spec fn init_state(seed: Seq<u8>, nonce: u16) -> Seq<u8> {
    digest(seed + nonce_block(nonce))
}

/// The state `s` hashed `k` times.
pub open spec fn advance(s: Seq<u8>, k: nat) -> Seq<u8>
    decreases k,
{
    if k == 0 {
        s
    } else {
        digest(advance(s, (k - 1) as nat))
    }
}

/// The number of hashes that squeezing `n` bytes costs.
pub open spec fn hashes_for(n: nat) -> nat {
    (n + 31) / 32
}

/// The `n` bytes that a stream in state `s` hands out.
pub open spec fn squeezed(s: Seq<u8>, n: nat) -> Seq<u8> {
    Seq::new(n, |i: int| advance(s, (i / 32) as nat)[i % 32])
}

/// The state of a stream in state `s` after it has absorbed `input`.
pub open spec fn absorbed(s: Seq<u8>, input: Seq<u8>) -> Seq<u8> {
    digest(s + input)
}

/// Hashing `a` times and then `b` times is hashing `a + b` times.
pub proof fn lemma_advance_add(s: Seq<u8>, a: nat, b: nat)
    ensures
        advance(advance(s, a), b) == advance(s, a + b),
    decreases b,
{
    if b > 0 {
        lemma_advance_add(s, a, (b - 1) as nat);
    }
}

/// A state that came out of a hash has 32 bytes, however often it is
/// hashed again.
pub proof fn lemma_advance_len(s: Seq<u8>, k: nat)
    requires
        s.len() == 32,
    ensures
        advance(s, k).len() == 32,
    decreases k,
{
    if k > 0 {
        lemma_advance_len(s, (k - 1) as nat);
    }
}

/// The collision resistant hash of the first `inbytes` bytes of `input`,
/// written to the first `CRHBYTES` bytes of `out`.
pub fn _crh(out: &mut [u8], input: &[u8], inbytes: usize)
    requires
        inbytes <= input@.len(),
        old(out)@.len() >= CRHBYTES,
    ensures
        final(out)@ == crh(input@.take(inbytes as int)) + old(out)@.skip(CRHBYTES as int),
{
    let h = shake256_digest(slice_subrange(input, 0, inbytes));
    let ghost out0 = out@;
    let mut i: usize = 0;
    while i < CRHBYTES
        invariant
            i <= CRHBYTES,
            out@.len() == out0.len(),
            out0.len() >= CRHBYTES,
            forall|j: int| 0 <= j < i ==> out@[j] == h@[j],
            forall|j: int| i <= j < out0.len() ==> out@[j] == out0[j],
        decreases CRHBYTES - i,
    {
        out[i] = h[i];
        i += 1;
    }
    assert(out@ =~= crh(input@.take(inbytes as int)) + out0.skip(CRHBYTES as int));
}

fn init(state: &mut State, seed: &[u8], nonce: u16)
    ensures
        final(state).s@ == init_state(seed@, nonce),
{
    let mut input: Vec<u8> = Vec::new();
    input.extend_from_slice(seed);
    let mut i: usize = 0;
    while i < 30
        invariant
            i <= 30,
            input@.len() == seed@.len() + i,
            forall|j: int| 0 <= j < seed@.len() ==> input@[j] == seed@[j],
            forall|j: int| seed@.len() <= j < input@.len() ==> input@[j] == 0u8,
        decreases 30 - i,
    {
        input.push(0u8);
        i += 1;
    }
    input.push((nonce / 256) as u8);
    input.push((nonce % 256) as u8);
    assert(input@ =~= seed@ + nonce_block(nonce));
    state.s = hash(input.as_slice());
}

fn squeezebytes(state: &mut State, out: &mut [u8], outlen: usize)
    requires
        outlen <= old(out)@.len(),
    ensures
        final(out)@ == squeezed(old(state).s@, outlen as nat) + old(out)@.skip(outlen as int),
        final(state).s@ == advance(old(state).s@, hashes_for(outlen as nat)),
{
    let ghost s0 = state.s@;
    let ghost out0 = out@;
    let mut idx: usize = 0;
    let ghost mut blocks: nat = 0;
    while idx < outlen
        invariant
            idx <= outlen <= out0.len(),
            out@.len() == out0.len(),
            blocks == hashes_for(idx as nat),
            idx < outlen ==> idx == 32 * blocks,
            state.s@ == advance(s0, blocks),
            forall|j: int| 0 <= j < idx ==> out@[j] == squeezed(s0, outlen as nat)[j],
            forall|j: int| idx <= j < out0.len() ==> out@[j] == out0[j],
        decreases outlen - idx,
    {
        let left: usize = outlen - idx;
        let take: usize = if left >= 32 { 32 } else { left };
        let mut j: usize = 0;
        while j < take
            invariant
                j <= take <= 32,
                idx + take <= outlen <= out0.len(),
                out@.len() == out0.len(),
                idx == 32 * blocks,
                state.s@ == advance(s0, blocks),
                forall|i: int| 0 <= i < idx + j ==> out@[i] == squeezed(s0, outlen as nat)[i],
                forall|i: int| idx + j <= i < out0.len() ==> out@[i] == out0[i],
            decreases take - j,
        {
            out[idx + j] = state.s[j];
            j += 1;
        }
        idx = idx + take;
        state.s = hash(&state.s);
        proof {
            blocks = blocks + 1;
        }
    }
    assert(out@ =~= squeezed(s0, outlen as nat) + out0.skip(outlen as int));
}

fn absorb(state: &mut State, input: &[u8])
    ensures
        final(state).s@ == absorbed(old(state).s@, input@),
{
    let mut data: Vec<u8> = Vec::new();
    data.extend_from_slice(&state.s);
    data.extend_from_slice(input);
    assert(data@ =~= state.s@ + input@);
    state.s = hash(data.as_slice());
}

/// Starts the stream that expands the matrix, for `seed` and `nonce`.
pub fn stream128_init(state: &mut Stream128State, seed: &[u8], nonce: u16)
    ensures
        final(state).s@ == init_state(seed@, nonce),
{
    init(state, seed, nonce);
}

/// Squeezes `outblocks` blocks of `STREAM128_BLOCKBYTES` bytes into the
/// front of `out`, in one go.
pub fn stream128_squeezeblocks(out: &mut [u8], outblocks: u64, state: &mut Stream128State)
    requires
        outblocks * STREAM128_BLOCKBYTES <= old(out)@.len(),
    ensures
        final(out)@ == squeezed(old(state).s@, (outblocks * STREAM128_BLOCKBYTES) as nat) + old(
            out,
        )@.skip(outblocks * STREAM128_BLOCKBYTES),
        final(state).s@ == advance(
            old(state).s@,
            hashes_for((outblocks * STREAM128_BLOCKBYTES) as nat),
        ),
{
    let room: usize = out.len();
    assert(outblocks * STREAM128_BLOCKBYTES <= room);
    let blocks: usize = outblocks as usize;
    squeezebytes(state, out, blocks * STREAM128_BLOCKBYTES);
}

/// Mixes `input` into the state.
pub fn stream128_absorb(state: &mut Stream128State, input: &[u8])
    ensures
        final(state).s@ == absorbed(old(state).s@, input@),
{
    absorb(state, input);
}

/// Starts the stream that samples vectors and challenges, for `seed` and
/// `nonce`.
pub fn stream256_init(state: &mut Stream256State, seed: &[u8], nonce: u16)
    ensures
        final(state).s@ == init_state(seed@, nonce),
{
    init(state, seed, nonce);
}

/// Squeezes `outblocks` blocks of `STREAM256_BLOCKBYTES` bytes into the
/// front of `out`, in one go.
pub fn stream256_squeezeblocks(out: &mut [u8], outblocks: u64, state: &mut Stream256State)
    requires
        outblocks * STREAM256_BLOCKBYTES <= old(out)@.len(),
    ensures
        final(out)@ == squeezed(old(state).s@, (outblocks * STREAM256_BLOCKBYTES) as nat) + old(
            out,
        )@.skip(outblocks * STREAM256_BLOCKBYTES),
        final(state).s@ == advance(
            old(state).s@,
            hashes_for((outblocks * STREAM256_BLOCKBYTES) as nat),
        ),
{
    let room: usize = out.len();
    assert(outblocks * STREAM256_BLOCKBYTES <= room);
    let blocks: usize = outblocks as usize;
    squeezebytes(state, out, blocks * STREAM256_BLOCKBYTES);
}

/// Mixes `input` into the state.
pub fn stream256_absorb(state: &mut Stream256State, input: &[u8])
    ensures
        final(state).s@ == absorbed(old(state).s@, input@),
{
    absorb(state, input);
}

} // verus!
