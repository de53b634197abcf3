//! The signature scheme: key generation, signing and verifying.
use vstd::prelude::*;
use vstd::slice::slice_subrange;
use crate::api::SignError;
use crate::ntt::{intt_spec, lemma_intt_scale, lemma_mont_cancel, mont_r, ntt_spec, scale};
use crate::packing::{
    encode_vec,
    hints_decoded,
    hints_valid,
    lemma_weight_is_ones,
    zero_one,
    pack_pk,
    pack_sig,
    pack_sk,
    pack_vec,
    pk_bytes,
    pk_rho,
    pk_t1,
    seed_at,
    sig_bytes,
    sig_c,
    sig_hints,
    sig_z,
    sk_bytes,
    sk_s1,
    sk_s2,
    sk_t0,
    sk_valid,
    unpack_pk,
    unpack_sig,
    unpack_sk,
    Coding,
    SecretKey,
};
use crate::params::{
    BETA,
    GAMMA1,
    GAMMA2,
    K,
    OMEGA,
    PUBLICKEYBYTES,
    SECRETKEYBYTES,
    SEEDBYTES,
    SIGNBYTES,
};
use crate::poly::{
    canon_all,
    pointwise,
    challenge_full,
    poly_challenge,
    poly_ntt,
    ring_sub,
    sample_challenge,
    NttPoly,
};
use crate::polyvec::{
    add_vec,
    dot,
    eta_vec_full,
    expand_matrix,
    matrix_full,
    high_bits_vec,
    hinted_high_bits_vec,
    hints_vec,
    lemma_scale_add,
    lemma_bounded_range_vec,
    lemma_can_add_vec,
    lemma_range_bounded_vec,
    lemma_sum_bounded_vec,
    low_bits_vec,
    matrix_ints,
    matrix_residues,
    norm_reaches_vec,
    ntt_vec,
    polyvec_add,
    polyvec_chknorm,
    polyvec_decompose,
    polyvec_freeze,
    polyvec_invntt_tomont,
    polyvec_make_hint,
    polyvec_matrix_expand,
    polyvec_matrix_pointwise_montgomery,
    polyvec_ntt,
    polyvec_pointwise_poly_montgomery,
    polyvec_power2round,
    polyvec_reduce,
    polyvec_shiftl,
    polyvec_sub,
    polyvec_uniform_eta,
    polyvec_use_hint,
    polyvecl_uniform_gamma1,
    power2round_high_vec,
    power2round_low_vec,
    ring_add_vec,
    ring_sub_vec,
    sample_eta_vec,
    sample_gamma1_vec,
    shifted_vec,
    weight_vec,
    NttPolyveck,
    NttPolyvecl,
    Polyvec,
    Polyveck,
    Polyvecl,
};
use crate::ring::{centered, q, r_inv};
use crate::symmetric::{digest, hash, init_state, squeezed, stream256_init, stream256_squeezeblocks, State};

verus! {

/// The representatives in `[0, q)` of the coefficients of the vector `v`.
pub open spec fn canon_vec(v: Seq<Seq<int>>) -> Seq<Seq<int>> {
    Seq::new(v.len(), |i: int| canon_all(v[i]))
}

/// The centered representatives of the coefficients of the vector `v`.
pub open spec fn centered_vec(v: Seq<Seq<int>>) -> Seq<Seq<int>> {
    Seq::new(v.len(), |i: int| Seq::new(256, |j: int| centered(v[i][j])))
}

/// The transform of the vector `v`.
pub open spec fn hat(v: Seq<Seq<int>>) -> Seq<Seq<int>> {
    ntt_vec(canon_vec(v))
}

/// The product of the matrix `mat` and the vector with the transform
/// `v_hat`, in the ring.
pub open spec fn matrix_apply(mat: Seq<Seq<Seq<int>>>, v_hat: Seq<Seq<int>>) -> Seq<Seq<int>> {
    Seq::new(mat.len(), |i: int| intt_spec(dot(mat[i], v_hat, 5)))
}

/// The products of the ring element with the transform `c_hat` and the
/// entries of the vector with the transform `v_hat`, in the ring.
pub open spec fn times_vec(c_hat: Seq<int>, v_hat: Seq<Seq<int>>) -> Seq<Seq<int>> {
    Seq::new(v_hat.len(), |i: int| intt_spec(pointwise(c_hat, v_hat[i])))
}

/// The residues of a vector are the canonical representatives of its
/// coefficients.
pub proof fn lemma_residues_canon<const M: usize, const T: bool>(v: Polyvec<M, T>)
    ensures
        v.residues() == canon_vec(v.ints()),
{
    assert forall|i: int| 0 <= i < M implies #[trigger] v.residues()[i] == canon_vec(v.ints())[i] by {
        assert(v.vec@[i].residues() =~= canon_all(v.vec@[i].ints()));
    }
    assert(v.residues() =~= canon_vec(v.ints()));
}

/// A vector with coefficients in `[0, q)` is its own residues.
pub proof fn lemma_residues_of_canonical<const M: usize, const T: bool>(v: Polyvec<M, T>)
    requires
        v.in_range(0, 8380416),
    ensures
        v.residues() == v.ints(),
{
    assert forall|i: int| 0 <= i < M implies #[trigger] v.residues()[i] == v.ints()[i] by {
        assert(v.vec@[i].in_range(0, 8380416));
        assert(v.vec@[i].residues() =~= v.vec@[i].ints());
    }
    assert(v.residues() =~= v.ints());
}

/// The product of the matrix and the vector with the transform `v_hat`,
/// with coefficients smaller than `q` in absolute value.
pub fn matrix_apply_exec(mat: &[NttPolyvecl; K], v_hat: &NttPolyvecl) -> (w: Polyveck)
    requires
        forall|i: int| 0 <= i < 6 ==> (#[trigger] mat@[i]).bounded(9 * q()),
        v_hat.bounded(9 * q()),
    ensures
        w.bounded(q()),
        w.residues() == matrix_apply(matrix_residues(*mat), v_hat.residues()),
{
    let t = polyvec_matrix_pointwise_montgomery(mat, v_hat);
    proof {
        lemma_bounded_range_vec(t, 5 * q(), -0x8000_0000, 0x7fff_ffff - 0x40_0000);
    }
    let r = polyvec_reduce(&t);
    proof {
        lemma_range_bounded_vec(r, -6283009, 6283008, q());
    }
    let w = polyvec_invntt_tomont(&r);
    proof {
        let m = matrix_residues(*mat);
        let target = matrix_apply(m, v_hat.residues());
        assert forall|i: int| 0 <= i < 6 implies #[trigger] w.residues()[i] == target[i] by {
            let d = dot(m[i], v_hat.residues(), 5);
            assert(r.residues()[i] == scale(r_inv(), d));
            assert(w.residues()[i] == scale(mont_r(), intt_spec(scale(r_inv(), d))));
            lemma_intt_scale(r_inv(), d);
            lemma_mont_cancel(intt_spec(d));
        }
        assert(w.residues() =~= target);
    }
    w
}

/// The products of the ring element with the transform `c_hat` and the
/// entries of the vector with the transform `v_hat`, with coefficients
/// smaller than `q` in absolute value.
pub fn times_vec_exec<const M: usize>(c_hat: &NttPoly, v_hat: &Polyvec<M, true>) -> (w: Polyvec<M, false>)
    requires
        c_hat.bounded(9 * q()),
        v_hat.bounded(9 * q()),
    ensures
        w.bounded(q()),
        w.residues() == times_vec(c_hat.residues(), v_hat.residues()),
{
    let t = polyvec_pointwise_poly_montgomery(c_hat, v_hat);
    let w = polyvec_invntt_tomont(&t);
    proof {
        let target = times_vec(c_hat.residues(), v_hat.residues());
        assert forall|i: int| 0 <= i < M implies #[trigger] w.residues()[i] == target[i] by {
            let p = pointwise(c_hat.residues(), v_hat.residues()[i]);
            assert(t.residues()[i] == scale(r_inv(), p));
            assert(w.residues()[i] == scale(mont_r(), intt_spec(scale(r_inv(), p))));
            lemma_intt_scale(r_inv(), p);
            lemma_mont_cancel(intt_spec(p));
        }
        assert(w.residues() =~= target);
    }
    w
}

/// The 128 bytes that a key seed expands to: the seed of the matrix, the
/// seed of the secret vectors, the signing seed.
pub open spec fn expand_seed(seed: Seq<u8>) -> Seq<u8> {
    squeezed(init_state(seed, 0), 128)
}

/// The seed of the matrix of the key for `seed`.
pub open spec fn keygen_rho(seed: Seq<u8>) -> Seq<u8> {
    expand_seed(seed).subrange(0, 32)
}

/// The seed of the secret vectors of the key for `seed`.
pub open spec fn keygen_rhoprime(seed: Seq<u8>) -> Seq<u8> {
    expand_seed(seed).subrange(32, 96)
}

/// The signing seed of the key for `seed`.
pub open spec fn keygen_key(seed: Seq<u8>) -> Seq<u8> {
    expand_seed(seed).subrange(96, 128)
}

/// The first secret vector of the key for `seed`.
pub open spec fn keygen_s1(seed: Seq<u8>) -> Seq<Seq<int>> {
    sample_eta_vec(keygen_rhoprime(seed), 0, 5)
}

/// The second secret vector of the key for `seed`.
pub open spec fn keygen_s2(seed: Seq<u8>) -> Seq<Seq<int>> {
    sample_eta_vec(keygen_rhoprime(seed), 5, 6)
}

/// The public vector `A s1 + s2`, with coefficients in `[0, q)`.
pub open spec fn public_vector(mat: Seq<Seq<Seq<int>>>, s1: Seq<Seq<int>>, s2: Seq<Seq<int>>) -> Seq<
    Seq<int>,
> {
    ring_add_vec(matrix_apply(mat, hat(s1)), canon_vec(s2))
}

/// The public vector of the key for `seed`.
pub open spec fn keygen_t(seed: Seq<u8>) -> Seq<Seq<int>> {
    public_vector(expand_matrix(keygen_rho(seed)), keygen_s1(seed), keygen_s2(seed))
}

/// The packed public key for `seed`.
pub open spec fn keygen_public(seed: Seq<u8>) -> Seq<u8> {
    pk_bytes(keygen_rho(seed), power2round_high_vec(keygen_t(seed)))
}

/// The packed secret key for `seed`.
pub open spec fn keygen_secret(seed: Seq<u8>) -> Seq<u8> {
    sk_bytes(
        keygen_rho(seed),
        keygen_key(seed),
        digest(keygen_public(seed)),
        keygen_s1(seed),
        keygen_s2(seed),
        power2round_low_vec(keygen_t(seed)),
    )
}

/// The matrix has the residues that it was sampled with.
pub proof fn lemma_matrix_residues(mat: [NttPolyvecl; K], rho: Seq<u8>)
    requires
        matrix_ints(mat) == expand_matrix(rho),
        forall|i: int| 0 <= i < 6 ==> (#[trigger] mat@[i]).in_range(0, 8380416),
    ensures
        matrix_residues(mat) == expand_matrix(rho),
        forall|i: int| 0 <= i < 6 ==> (#[trigger] mat@[i]).bounded(9 * q()),
{
    assert forall|i: int| 0 <= i < 6 implies #[trigger] matrix_residues(mat)[i] == expand_matrix(
        rho,
    )[i] && mat@[i].bounded(9 * q()) by {
        lemma_residues_of_canonical(mat@[i]);
        assert(matrix_ints(mat)[i] == mat@[i].ints());
        lemma_range_bounded_vec(mat@[i], 0, 8380416, 9 * q());
    }
    assert(matrix_residues(mat) =~= expand_matrix(rho));
}

/// Whether the streams for `seed` fill the matrix and the two secret
/// vectors of a key.
pub open spec fn keygen_full(seed: Seq<u8>) -> bool {
    &&& matrix_full(keygen_rho(seed))
    &&& eta_vec_full(keygen_rhoprime(seed), 0, 5)
    &&& eta_vec_full(keygen_rhoprime(seed), 5, 6)
}

/// The key pair for `seed`: the packed public key and the packed secret
/// key. Fails with `Exhausted` if and only if a stream does not fill the
/// matrix or a secret vector.
pub fn crypto_sign_keypair(seed: &[u8]) -> (r: Result<
    ([u8; PUBLICKEYBYTES], [u8; SECRETKEYBYTES]),
    SignError,
>)
    ensures
        match r {
            Ok(keys) => {
                &&& keygen_full(seed@)
                &&& keys.0@ == keygen_public(seed@)
                &&& keys.1@ == keygen_secret(seed@)
            },
            Err(e) => e == SignError::Exhausted && !keygen_full(seed@),
        },
{
    let mut state = State::default();
    stream256_init(&mut state, seed, 0);
    let mut seedbuf = [0u8; 136];
    stream256_squeezeblocks(&mut seedbuf, 1, &mut state);
    let bytes = slice_subrange(seedbuf.as_slice(), 0, 128);
    proof {
        assert(squeezed(init_state(seed@, 0), 136).take(128) =~= squeezed(
            init_state(seed@, 0),
            128,
        ));
        assert(bytes@ =~= expand_seed(seed@));
    }
    let rho = seed_at(bytes, 0);
    let rhoprime = slice_subrange(bytes, 32, 96);
    let key = seed_at(bytes, 96);
    let mat = match polyvec_matrix_expand(rho.as_slice()) {
        Some(mat) => mat,
        None => {
            return Err(SignError::Exhausted);
        },
    };
    let s1 = match polyvec_uniform_eta::<5>(rhoprime, 0) {
        Some(s1) => s1,
        None => {
            return Err(SignError::Exhausted);
        },
    };
    let s2 = match polyvec_uniform_eta::<6>(rhoprime, 5) {
        Some(s2) => s2,
        None => {
            return Err(SignError::Exhausted);
        },
    };
    proof {
        lemma_matrix_residues(mat, rho@);
        lemma_range_bounded_vec(s1, -4, 4, q());
        lemma_range_bounded_vec(s2, -4, 4, 5);
    }
    let s1hat = polyvec_ntt(&s1);
    let w = matrix_apply_exec(&mat, &s1hat);
    proof {
        lemma_can_add_vec(w, s2, q(), 5);
    }
    let sum = polyvec_add(&w, &s2);
    proof {
        lemma_sum_bounded_vec(w, s2, sum, q(), 5);
        lemma_bounded_range_vec(sum, q() + 5, -0x8000_0000, 0x7fff_ffff - 0x40_0000);
    }
    let t = polyvec_freeze(&sum);
    proof {
        lemma_residues_canon(s1);
        lemma_residues_canon(s2);
        assert(t.ints() == keygen_t(seed@));
    }
    let (t1, t0) = polyvec_power2round(&t);
    let pk = pack_pk(&rho, &t1);
    let tr = hash(pk.as_slice());
    let sk = pack_sk(&SecretKey { rho, key, tr, s1, s2, t0 });
    Ok((pk, sk))
}



/// What the attempts at a signature work on: the matrix, the secret
/// vectors, the low part of the public vector, the hash of key and
/// message, and the seed of the masking vectors.
pub struct SigningInput {
    pub mat: Seq<Seq<Seq<int>>>,
    pub s1: Seq<Seq<int>>,
    pub s2: Seq<Seq<int>>,
    pub t0: Seq<Seq<int>>,
    pub mu: Seq<u8>,
    pub seed: Seq<u8>,
}

/// The hash of the hash `tr` of a public key and a message.
pub open spec fn message_hash(tr: Seq<u8>, msg: Seq<u8>) -> Seq<u8> {
    digest(tr + msg)
}

/// The commitment `w = A y` of attempt `nonce`.
pub open spec fn commitment(k: SigningInput, nonce: u16) -> Seq<Seq<int>> {
    matrix_apply(k.mat, hat(sample_gamma1_vec(k.seed, nonce)))
}

/// The challenge seed for the hash `mu` and the high bits `w1` of a
/// commitment.
pub open spec fn challenge_seed_for(mu: Seq<u8>, w1: Seq<Seq<int>>) -> Seq<u8> {
    digest(mu + encode_vec(Coding::W1, w1, 6))
}

/// The challenge seed of attempt `nonce`.
pub open spec fn challenge_seed(k: SigningInput, nonce: u16) -> Seq<u8> {
    challenge_seed_for(k.mu, high_bits_vec(commitment(k, nonce)))
}

/// The transform of the challenge for the seed `ct`, where the stream for
/// `ct` fills the challenge.
pub open spec fn challenge_hat(ct: Seq<u8>) -> Seq<int> {
    ntt_spec(canon_all(sample_challenge(ct)))
}

/// The response `z = y + c s1` of attempt `nonce`, as residues.
pub open spec fn response(k: SigningInput, nonce: u16) -> Seq<Seq<int>> {
    ring_add_vec(
        times_vec(challenge_hat(challenge_seed(k, nonce)), hat(k.s1)),
        canon_vec(sample_gamma1_vec(k.seed, nonce)),
    )
}

/// The low bits of the commitment of attempt `nonce`, less `c s2`, as
/// residues.
pub open spec fn low_rest(k: SigningInput, nonce: u16) -> Seq<Seq<int>> {
    ring_sub_vec(
        canon_vec(low_bits_vec(commitment(k, nonce))),
        times_vec(challenge_hat(challenge_seed(k, nonce)), hat(k.s2)),
    )
}

/// The product `c t0` of attempt `nonce`, as residues.
pub open spec fn low_shift(k: SigningInput, nonce: u16) -> Seq<Seq<int>> {
    times_vec(challenge_hat(challenge_seed(k, nonce)), hat(k.t0))
}

/// The hints of attempt `nonce`.
pub open spec fn hints_of(k: SigningInput, nonce: u16) -> Seq<Seq<int>> {
    hints_vec(
        add_vec(centered_vec(low_rest(k, nonce)), centered_vec(low_shift(k, nonce))),
        high_bits_vec(commitment(k, nonce)),
    )
}

/// Whether attempt `nonce` gives a signature: the stream fills the
/// challenge, the response and the two low parts are small, and the hints
/// are few.
#[verifier::opaque]
pub open spec fn accepted(k: SigningInput, nonce: u16) -> bool {
    &&& challenge_full(challenge_seed(k, nonce))
    &&& !norm_reaches_vec(response(k, nonce), GAMMA1 - BETA)
    &&& !norm_reaches_vec(low_rest(k, nonce), GAMMA2 - BETA)
    &&& !norm_reaches_vec(low_shift(k, nonce), GAMMA2 as int)
    &&& weight_vec(hints_of(k, nonce), 6) <= OMEGA
}

/// The packed signature that attempt `nonce` gives.
#[verifier::opaque]
pub open spec fn signature_of(k: SigningInput, nonce: u16) -> Seq<u8> {
    sig_bytes(challenge_seed(k, nonce), centered_vec(response(k, nonce)), hints_of(k, nonce))
}

/// Whether the stream fills the challenge of attempt `nonce`.
#[verifier::opaque]
pub open spec fn challenge_filled(k: SigningInput, nonce: u16) -> bool {
    challenge_full(challenge_seed(k, nonce))
}

/// The signature of the first accepted attempt among the `left` attempts
/// from `nonce` on; none where there is no such attempt, or where before
/// it comes an attempt for which the stream does not fill the challenge.
pub open spec fn first_signature(k: SigningInput, nonce: nat, left: nat) -> Option<Seq<u8>>
    decreases left,
{
    if left == 0 {
        None
    } else if !challenge_filled(k, nonce as u16) {
        None
    } else if accepted(k, nonce as u16) {
        Some(signature_of(k, nonce as u16))
    } else {
        first_signature(k, nonce + 1, (left - 1) as nat)
    }
}

/// What signing with the packed secret key `sk` works on. The masking
/// vectors are seeded by the signing seed of the key, or by `rnd` where it
/// is given.
pub open spec fn signing_input(sk: Seq<u8>, msg: Seq<u8>, rnd: Option<Seq<u8>>) -> SigningInput {
    let mu = message_hash(sk.subrange(64, 96), msg);
    SigningInput {
        mat: expand_matrix(sk.subrange(0, 32)),
        s1: sk_s1(sk),
        s2: sk_s2(sk),
        t0: sk_t0(sk),
        mu: mu,
        seed: digest(
            (match rnd {
                Some(r) => r,
                None => sk.subrange(32, 64),
            }) + mu,
        ),
    }
}

/// What signing gives: `Format` for a secret key that is not valid;
/// `Exhausted` where a stream does not fill the matrix of the key; else
/// the signature of the first accepted attempt among `max`; `Exhausted`
/// where there is none, or where a stream does not fill the challenge of
/// an attempt before it.
pub open spec fn sign_spec(sk: Seq<u8>, msg: Seq<u8>, rnd: Option<Seq<u8>>, max: nat) -> Result<
    Seq<u8>,
    SignError,
> {
    if !sk_valid(sk) {
        Err(SignError::Format)
    } else if !matrix_full(sk.subrange(0, 32)) {
        Err(SignError::Exhausted)
    } else {
        match first_signature(signing_input(sk, msg, rnd), 0, max) {
            Some(s) => Ok(s),
            None => Err(SignError::Exhausted),
        }
    }
}

/// A small coefficient is the centered representative of its residue.
pub proof fn lemma_centered_small<const M: usize>(z: Polyvec<M, false>, b: int)
    requires
        z.bounded(b),
        0 < b <= (q() - 1) / 2,
    ensures
        z.ints() == centered_vec(z.residues()),
{
    assert forall|i: int| 0 <= i < M implies #[trigger] z.ints()[i] == centered_vec(
        z.residues(),
    )[i] by {
        assert(z.vec@[i].bounded(b));
        assert forall|j: int| 0 <= j < 256 implies z.vec@[i].ints()[j] == centered(
            #[trigger] z.residues()[i][j],
        ) by {
            assert(-b < z.vec@[i].coeffs@[j] < b);
        }
        assert(z.ints()[i] =~= centered_vec(z.residues())[i]);
    }
    assert(z.ints() =~= centered_vec(z.residues()));
}

/// The small representatives of `v`, where the infinity norm of `v` stays
/// below `b`; `None` where it reaches `b`.
pub fn small_or_none<const M: usize>(v: &Polyvec<M, false>, b: i32) -> (r: Option<Polyvec<M, false>>)
    requires
        v.in_range(-0x8000_0000, 0x7fff_ffff - 0x40_0000),
        0 < b <= (q() - 1) / 8,
    ensures
        match r {
            Some(z) => {
                &&& !norm_reaches_vec(v.residues(), b as int)
                &&& z.ints() == centered_vec(v.residues())
                &&& z.residues() == v.residues()
                &&& z.bounded(b as int)
            },
            None => norm_reaches_vec(v.residues(), b as int),
        },
{
    let z = polyvec_reduce(v);
    if polyvec_chknorm(&z, b) {
        None
    } else {
        proof {
            lemma_centered_small(z, b as int);
        }
        Some(z)
    }
}

/// What a signer holds ready for its attempts: the matrix, the transforms
/// of the secret vectors and of the low part of the public vector, the
/// hash of key and message, and the seed of the masking vectors.
pub struct Signer {
    pub mat: [NttPolyvecl; K],
    pub s1hat: NttPolyvecl,
    pub s2hat: NttPolyveck,
    pub t0hat: NttPolyveck,
    pub mu: [u8; SEEDBYTES],
    pub seed: [u8; SEEDBYTES],
    pub input: Ghost<SigningInput>,
}

impl Signer {
    /// The signer holds the transforms of what its input holds.
    pub open spec fn wf(&self) -> bool {
        let k = self.input@;
        &&& matrix_residues(self.mat) == k.mat
        &&& forall|i: int| 0 <= i < 6 ==> (#[trigger] self.mat@[i]).bounded(9 * q())
        &&& self.s1hat.residues() == hat(k.s1)
        &&& self.s2hat.residues() == hat(k.s2)
        &&& self.t0hat.residues() == hat(k.t0)
        &&& self.s1hat.bounded(9 * q())
        &&& self.s2hat.bounded(9 * q())
        &&& self.t0hat.bounded(9 * q())
        &&& self.mu@ == k.mu
        &&& self.seed@ == k.seed
    }
}

/// The challenge seed for `mu` and the high bits `w1`.
pub fn challenge_seed_exec(mu: &[u8; SEEDBYTES], w1: &Polyveck) -> (ct: [u8; SEEDBYTES])
    requires
        w1.in_range(0, 15),
    ensures
        ct@ == challenge_seed_for(mu@, w1.ints()),
{
    let mut data: Vec<u8> = Vec::new();
    data.extend_from_slice(mu.as_slice());
    pack_vec(w1, Coding::W1, &mut data);
    assert(data@ =~= mu@ + encode_vec(Coding::W1, w1.ints(), 6));
    hash(data.as_slice())
}

/// The transform of the challenge for the seed `ct`; `None` where the
/// stream for `ct` does not fill the challenge.
pub fn challenge_hat_exec(ct: &[u8; SEEDBYTES]) -> (r: Option<NttPoly>)
    ensures
        match r {
            Some(chat) => {
                &&& challenge_full(ct@)
                &&& chat.residues() == challenge_hat(ct@)
                &&& chat.bounded(9 * q())
            },
            None => !challenge_full(ct@),
        },
{
    let c = match poly_challenge(ct.as_slice()) {
        Some(c) => c,
        None => {
            return None;
        },
    };
    proof {
        crate::poly::lemma_range_bounded(c, -1, 1, q());
        assert(c.residues() =~= canon_all(c.ints()));
    }
    Some(poly_ntt(&c))
}

/// One attempt at a signature: the packed signature where the attempt is
/// accepted, nothing where it is not. Fails with `Exhausted` if and only
/// if the stream does not fill the challenge of the attempt.
pub fn sign_attempt(s: &Signer, nonce: u16) -> (r: Result<Option<[u8; SIGNBYTES]>, SignError>)
    requires
        s.wf(),
        5 * nonce + 5 <= 0x1_0000,
    ensures
        match r {
            Ok(Some(sig)) => challenge_filled(s.input@, nonce) && accepted(s.input@, nonce)
                && sig@ == signature_of(s.input@, nonce),
            Ok(None) => challenge_filled(s.input@, nonce) && !accepted(s.input@, nonce),
            Err(e) => e == SignError::Exhausted && !challenge_filled(s.input@, nonce),
        },
{
    let ghost k = s.input@;
    proof {
        reveal(accepted);
        reveal(signature_of);
        reveal(challenge_filled);
    }
    let y = polyvecl_uniform_gamma1(s.seed.as_slice(), nonce);
    proof {
        lemma_range_bounded_vec(y, -524287, 524288, q());
        lemma_residues_canon(y);
    }
    let yhat = polyvec_ntt(&y);
    let w = matrix_apply_exec(&s.mat, &yhat);
    proof {
        lemma_bounded_range_vec(w, q(), -0x8000_0000, 0x7fff_ffff - 0x40_0000);
    }
    let w = polyvec_freeze(&w);
    assert(w.ints() == commitment(k, nonce));
    let (w1, w0) = polyvec_decompose(&w);
    let ct = challenge_seed_exec(&s.mu, &w1);
    assert(ct@ == challenge_seed(k, nonce));
    let chat = match challenge_hat_exec(&ct) {
        Some(chat) => chat,
        None => {
            return Err(SignError::Exhausted);
        },
    };
    // The response.
    let cs1 = times_vec_exec(&chat, &s.s1hat);
    proof {
        lemma_can_add_vec(cs1, y, q(), q());
    }
    let z = polyvec_add(&cs1, &y);
    proof {
        lemma_sum_bounded_vec(cs1, y, z, q(), q());
        lemma_bounded_range_vec(z, 2 * q(), -0x8000_0000, 0x7fff_ffff - 0x40_0000);
        assert(z.residues() == response(k, nonce));
    }
    let z = match small_or_none(&z, GAMMA1 - BETA) {
        Some(z) => z,
        None => {
            return Ok(None);
        },
    };
    // The low part of the commitment, less `c s2`.
    let cs2 = times_vec_exec(&chat, &s.s2hat);
    proof {
        lemma_range_bounded_vec(w0, -261888, 261888, q());
        lemma_can_add_vec(w0, cs2, q(), q());
        lemma_residues_canon(w0);
    }
    let r0 = polyvec_sub(&w0, &cs2);
    proof {
        lemma_sum_bounded_vec(w0, cs2, r0, q(), q());
        lemma_bounded_range_vec(r0, 2 * q(), -0x8000_0000, 0x7fff_ffff - 0x40_0000);
        assert(r0.residues() == low_rest(k, nonce));
    }
    let r0 = match small_or_none(&r0, GAMMA2 - BETA) {
        Some(r0) => r0,
        None => {
            return Ok(None);
        },
    };
    // The product `c t0` and the hints.
    let ct0 = times_vec_exec(&chat, &s.t0hat);
    proof {
        lemma_bounded_range_vec(ct0, q(), -0x8000_0000, 0x7fff_ffff - 0x40_0000);
        assert(ct0.residues() == low_shift(k, nonce));
    }
    let ct0 = match small_or_none(&ct0, GAMMA2) {
        Some(ct0) => ct0,
        None => {
            return Ok(None);
        },
    };
    proof {
        lemma_can_add_vec(r0, ct0, (GAMMA2 - BETA) as int, GAMMA2 as int);
    }
    let a0 = polyvec_add(&r0, &ct0);
    let (h, n) = polyvec_make_hint(&a0, &w1);
    assert(h.ints() == hints_of(k, nonce));
    if n > OMEGA {
        return Ok(None);
    }
    proof {
        lemma_zero_one(h);
        lemma_weight_is_ones(h.ints());
        lemma_bounded_range_vec(z, (GAMMA1 - BETA) as int, -524287, 524288);
    }
    Ok(Some(pack_sig(&ct, &z, &h)))
}

/// A hint vector with coefficients in `[0, 1]` holds zeros and ones.
pub proof fn lemma_zero_one(h: Polyveck)
    requires
        h.in_range(0, 1),
    ensures
        zero_one(h.ints()),
{
    assert forall|i: int, j: int| 0 <= i < 6 && 0 <= j < 256 implies 0 <= #[trigger] h.ints()[i][j]
        <= 1 by {
        assert(h.vec@[i].in_range(0, 1));
        assert(h.ints()[i][j] == h.vec@[i].coeffs@[j]);
    }
}



/// The most attempts that signing can be allowed: the nonces of the
/// masking vectors of later attempts would not fit sixteen bits.
pub const ATTEMPTS_LIMIT: u16 = 13107;

/// The attempts that signing is allowed where the caller sets no number.
pub const MAX_ATTEMPTS: u16 = 1000;

/// The randomness of a signature as a sequence of bytes.
pub open spec fn rnd_view(rnd: Option<[u8; SEEDBYTES]>) -> Option<Seq<u8>> {
    match rnd {
        Some(r) => Some(r@),
        None => None,
    }
}

/// Makes a signer ready for the packed secret key `sk` and the message
/// `msg`. Fails with `Format` if and only if the secret key is not valid,
/// and with `Exhausted` if and only if it is valid and a stream does not
/// fill the matrix.
pub fn signer_new(sk: &[u8; SECRETKEYBYTES], msg: &[u8], rnd: Option<[u8; SEEDBYTES]>) -> (r:
    Result<Signer, SignError>)
    ensures
        match r {
            Ok(s) => sk_valid(sk@) && matrix_full(sk@.subrange(0, 32)) && s.wf() && s.input@
                == signing_input(sk@, msg@, rnd_view(rnd)),
            Err(e) => if sk_valid(sk@) {
                e == SignError::Exhausted && !matrix_full(sk@.subrange(0, 32))
            } else {
                e == SignError::Format
            },
        },
{
    let key = match unpack_sk(sk) {
        Ok(key) => key,
        Err(e) => {
            return Err(e);
        },
    };
    let mut data: Vec<u8> = Vec::new();
    data.extend_from_slice(key.tr.as_slice());
    data.extend_from_slice(msg);
    assert(data@ =~= sk@.subrange(64, 96) + msg@);
    let mu = hash(data.as_slice());
    let mut data: Vec<u8> = Vec::new();
    match rnd {
        Some(r) => {
            data.extend_from_slice(r.as_slice());
        },
        None => {
            data.extend_from_slice(key.key.as_slice());
        },
    }
    data.extend_from_slice(mu.as_slice());
    assert(data@ =~= (match rnd_view(rnd) {
        Some(r) => r,
        None => sk@.subrange(32, 64),
    }) + mu@);
    let seed = hash(data.as_slice());
    let mat = match polyvec_matrix_expand(key.rho.as_slice()) {
        Some(mat) => mat,
        None => {
            return Err(SignError::Exhausted);
        },
    };
    proof {
        lemma_matrix_residues(mat, key.rho@);
        lemma_range_bounded_vec(key.s1, -4, 4, q());
        lemma_range_bounded_vec(key.s2, -4, 4, q());
        lemma_range_bounded_vec(key.t0, -4095, 4096, q());
        lemma_residues_canon(key.s1);
        lemma_residues_canon(key.s2);
        lemma_residues_canon(key.t0);
    }
    let s1hat = polyvec_ntt(&key.s1);
    let s2hat = polyvec_ntt(&key.s2);
    let t0hat = polyvec_ntt(&key.t0);
    Ok(
        Signer {
            mat,
            s1hat,
            s2hat,
            t0hat,
            mu,
            seed,
            input: Ghost(signing_input(sk@, msg@, rnd_view(rnd))),
        },
    )
}

/// Signs `msg` with the packed secret key `sk`, in at most `max_attempts`
/// attempts. The masking vectors are seeded by the key, or by `rnd` where
/// it is given.
pub fn crypto_sign_signature(
    sk: &[u8; SECRETKEYBYTES],
    msg: &[u8],
    rnd: Option<[u8; SEEDBYTES]>,
    max_attempts: u16,
) -> (r: Result<[u8; SIGNBYTES], SignError>)
    requires
        max_attempts <= ATTEMPTS_LIMIT,
    ensures
        match r {
            Ok(sig) => sign_spec(sk@, msg@, rnd_view(rnd), max_attempts as nat) == Ok::<
                Seq<u8>,
                SignError,
            >(sig@),
            Err(e) => sign_spec(sk@, msg@, rnd_view(rnd), max_attempts as nat) == Err::<
                Seq<u8>,
                SignError,
            >(e),
        },
{
    let s = match signer_new(sk, msg, rnd) {
        Ok(s) => s,
        Err(e) => {
            return Err(e);
        },
    };
    let ghost k = s.input@;
    let mut nonce: u16 = 0;
    while nonce < max_attempts
        invariant
            nonce <= max_attempts <= ATTEMPTS_LIMIT,
            s.wf(),
            k == s.input@,
            sk_valid(sk@),
            matrix_full(sk@.subrange(0, 32)),
            k == signing_input(sk@, msg@, rnd_view(rnd)),
            first_signature(k, nonce as nat, (max_attempts - nonce) as nat) == first_signature(
                k,
                0,
                max_attempts as nat,
            ),
        decreases max_attempts - nonce,
    {
        match sign_attempt(&s, nonce) {
            Ok(Some(sig)) => {
                return Ok(sig);
            },
            Ok(None) => {},
            Err(e) => {
                return Err(e);
            },
        }
        nonce += 1;
    }
    Err(SignError::Exhausted)
}



/// The commitment that a verifier recovers: `A z - c t1 2^D`, with
/// coefficients in `[0, q)`.
pub open spec fn recovered_commitment(
    mat: Seq<Seq<Seq<int>>>,
    c_hat: Seq<int>,
    z: Seq<Seq<int>>,
    t1: Seq<Seq<int>>,
) -> Seq<Seq<int>> {
    Seq::new(
        6,
        |i: int|
            intt_spec(
                ring_sub(dot(mat[i], hat(z), 5), pointwise(c_hat, hat(shifted_vec(t1))[i])),
            ),
    )
}

/// The challenge seed that a verifier computes from a packed signature, a
/// message and a packed public key.
pub open spec fn recomputed_seed(sig: Seq<u8>, msg: Seq<u8>, pk: Seq<u8>) -> Seq<u8> {
    challenge_seed_for(
        message_hash(digest(pk), msg),
        hinted_high_bits_vec(
            recovered_commitment(
                expand_matrix(pk_rho(pk)),
                challenge_hat(sig_c(sig)),
                sig_z(sig),
                pk_t1(pk),
            ),
            hints_decoded(sig_hints(sig)),
        ),
    )
}

/// What verifying gives: `Format` for hints that are not validly encoded;
/// `Verify` for a response that is not small; `Exhausted` where a stream
/// does not fill the challenge of the signature or the matrix of the key;
/// `Verify` where the challenge seed computed from the recovered
/// commitment is not that of the signature; else success.
pub open spec fn verify_spec(sig: Seq<u8>, msg: Seq<u8>, pk: Seq<u8>) -> Result<(), SignError> {
    if !hints_valid(sig_hints(sig)) {
        Err(SignError::Format)
    } else if norm_reaches_vec(canon_vec(sig_z(sig)), GAMMA1 - BETA) {
        Err(SignError::Verify)
    } else if !challenge_full(sig_c(sig)) || !matrix_full(pk_rho(pk)) {
        Err(SignError::Exhausted)
    } else if recomputed_seed(sig, msg, pk) == sig_c(sig) {
        Ok(())
    } else {
        Err(SignError::Verify)
    }
}

/// Whether two seeds are the same bytes.
pub fn seeds_equal(a: &[u8; SEEDBYTES], b: &[u8; SEEDBYTES]) -> (r: bool)
    ensures
        r == (a@ == b@),
{
    let mut i: usize = 0;
    while i < SEEDBYTES
        invariant
            i <= SEEDBYTES,
            forall|j: int| 0 <= j < i ==> a@[j] == b@[j],
        decreases SEEDBYTES - i,
    {
        if a[i] != b[i] {
            return false;
        }
        i += 1;
    }
    assert(a@ =~= b@);
    true
}

/// The commitment that a verifier recovers from the matrix, the transform
/// of the challenge, the response and the high part of the public vector.
pub fn recover_commitment(mat: &[NttPolyvecl; K], chat: &NttPoly, z: &Polyvecl, t1: &Polyveck) -> (w:
    Polyveck)
    requires
        forall|i: int| 0 <= i < 6 ==> (#[trigger] mat@[i]).bounded(9 * q()),
        chat.bounded(9 * q()),
        z.bounded(q()),
        t1.in_range(0, 1023),
    ensures
        w.ints() == recovered_commitment(
            matrix_residues(*mat),
            chat.residues(),
            z.ints(),
            t1.ints(),
        ),
        w.in_range(0, 8380416),
{
    let zhat = polyvec_ntt(z);
    let az = polyvec_matrix_pointwise_montgomery(mat, &zhat);
    let shifted = polyvec_shiftl(t1);
    proof {
        lemma_range_bounded_vec(shifted, 0, 8380416, q());
    }
    let t1hat = polyvec_ntt(&shifted);
    let ct1 = polyvec_pointwise_poly_montgomery(chat, &t1hat);
    proof {
        lemma_can_add_vec(az, ct1, 5 * q(), q());
    }
    let d = polyvec_sub(&az, &ct1);
    proof {
        lemma_sum_bounded_vec(az, ct1, d, 5 * q(), q());
        lemma_bounded_range_vec(d, 6 * q(), -0x8000_0000, 0x7fff_ffff - 0x40_0000);
    }
    let r = polyvec_reduce(&d);
    proof {
        lemma_range_bounded_vec(r, -6283009, 6283008, q());
    }
    let w = polyvec_invntt_tomont(&r);
    proof {
        lemma_bounded_range_vec(w, q(), -0x8000_0000, 0x7fff_ffff - 0x40_0000);
    }
    let f = polyvec_freeze(&w);
    proof {
        lemma_residues_canon(*z);
        lemma_residues_of_canonical(shifted);
        let m = matrix_residues(*mat);
        let target = recovered_commitment(m, chat.residues(), z.ints(), t1.ints());
        assert(shifted.residues() == shifted_vec(t1.ints()));
        assert(canon_vec(shifted_vec(t1.ints())) =~= shifted_vec(t1.ints())) by {
            lemma_residues_canon(shifted);
        }
        assert forall|i: int| 0 <= i < 6 implies #[trigger] f.ints()[i] == target[i] by {
            let dd = dot(m[i], zhat.residues(), 5);
            let pp = pointwise(chat.residues(), t1hat.residues()[i]);
            assert(az.residues()[i] == scale(r_inv(), dd));
            assert(ct1.residues()[i] == scale(r_inv(), pp));
            lemma_scale_add(dd, pp);
            let x = ring_sub(dd, pp);
            assert(r.residues()[i] == scale(r_inv(), x));
            assert(w.residues()[i] == scale(mont_r(), intt_spec(scale(r_inv(), x))));
            lemma_intt_scale(r_inv(), x);
            lemma_mont_cancel(intt_spec(x));
        }
        assert(f.ints() =~= target);
    }
    f
}

/// Verifies the packed signature `sig` of `msg` under the packed public
/// key `pk`.
pub fn crypto_sign_verify(sig: &[u8; SIGNBYTES], msg: &[u8], pk: &[u8; PUBLICKEYBYTES]) -> (r:
    Result<(), SignError>)
    ensures
        r == verify_spec(sig@, msg@, pk@),
{
    let key = unpack_pk(pk);
    let s = match unpack_sig(sig) {
        Ok(s) => s,
        Err(e) => {
            return Err(e);
        },
    };
    proof {
        lemma_bounded_range_vec(s.z, 524289, -6283009, 6283008);
        lemma_range_bounded_vec(s.z, -524287, 524288, 524289);
        lemma_residues_canon(s.z);
    }
    if polyvec_chknorm(&s.z, GAMMA1 - BETA) {
        return Err(SignError::Verify);
    }
    let tr = hash(pk.as_slice());
    let mut data: Vec<u8> = Vec::new();
    data.extend_from_slice(tr.as_slice());
    data.extend_from_slice(msg);
    assert(data@ =~= digest(pk@) + msg@);
    let mu = hash(data.as_slice());
    let chat = match challenge_hat_exec(&s.c) {
        Some(chat) => chat,
        None => {
            return Err(SignError::Exhausted);
        },
    };
    let mat = match polyvec_matrix_expand(key.rho.as_slice()) {
        Some(mat) => mat,
        None => {
            return Err(SignError::Exhausted);
        },
    };
    proof {
        lemma_matrix_residues(mat, key.rho@);
        lemma_range_bounded_vec(s.z, -524287, 524288, q());
    }
    let w = recover_commitment(&mat, &chat, &s.z, &key.t1);
    let w1 = polyvec_use_hint(&w, &s.h);
    let c2 = challenge_seed_exec(&mu, &w1);
    assert(c2@ == recomputed_seed(sig@, msg@, pk@));
    if seeds_equal(&c2, &s.c) {
        Ok(())
    } else {
        Err(SignError::Verify)
    }
}

} // verus!
