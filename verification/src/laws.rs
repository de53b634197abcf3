//! What holds of the scheme as a whole: packing and unpacking undo each
//! other, keys and signatures are functions of their inputs, signatures
//! keep their bounds.
use vstd::prelude::*;
use crate::api::SignError;
use crate::ntt::{
    intt_spec,
    is_canonical,
    lemma_intt_linear,
    lemma_ntt_intt,
    lemma_scale_one,
    lemma_transform_canonical,
    lin,
    ntt_spec,
};
use crate::product::{law_sparse_product_small, law_transform_multiplies, ring_mul};
use crate::params::{BETA, GAMMA1, GAMMA2, OMEGA};
use crate::poly::{
    canon_all,
    challenge_full,
    lemma_challenge_shape,
    lemma_sample_rejection_range,
    sample_challenge,
    pointwise,
    power2round_high_all,
    power2round_low_all,
    ring_add,
    sample_gamma1,
    zeros,
    shifted,
};
use crate::polyvec::{
    add_vec,
    dot,
    eta_entry_full,
    expand_matrix,
    matrix_full,
    high_bits_vec,
    hinted_high_bits_vec,
    hints_vec,
    low_bits_vec,
    norm_reaches_vec,
    power2round_high_vec,
    power2round_low_vec,
    ring_add_vec,
    ring_sub_vec,
    sample_gamma1_vec,
    shifted_vec,
    weight_vec,
};
use crate::recovery::{
    lemma_hint_is_change,
    lemma_low_bits_is_low_rest,
    lemma_low_rest_is_low_bits,
    lemma_dot_canonical,
    lemma_dot_split,
    lemma_hat_shifted,
    lemma_hint_recovers,
    lemma_ntt_sum,
    lemma_recovered_entry,
};
use crate::ring::{abs, canon, centered, q};
use crate::rounding::{high_bits, lemma_power2round, low_bits};
use crate::sign::{
    accepted,
    keygen_full,
    low_rest,
    low_shift,
    canon_vec,
    centered_vec,
    challenge_hat,
    challenge_seed,
    challenge_seed_for,
    commitment,
    first_signature,
    hat,
    hints_of,
    keygen_key,
    keygen_public,
    keygen_rho,
    keygen_rhoprime,
    keygen_s1,
    keygen_s2,
    keygen_secret,
    keygen_t,
    matrix_apply,
    message_hash,
    public_vector,
    recomputed_seed,
    recovered_commitment,
    response,
    sign_spec,
    signature_of,
    signing_input,
    times_vec,
    verify_spec,
    SigningInput,
};
use crate::symmetric::digest;
use crate::packing::{
    encode_vec,
    flat_ones,
    hints_decoded,
    hints_encoded,
    hints_valid,
    is_hint_vec,
    lemma_decode_encode_vec,
    lemma_encode_decode_vec,
    lemma_hints_decode_encode,
    lemma_hints_encode_decode,
    lemma_weight_is_ones,
    coeffs_in,
    zero_one,
    pk_bytes,
    pk_rho,
    pk_t1,
    sig_bytes,
    sig_c,
    sig_hints,
    sig_z,
    sk_bytes,
    sk_s1,
    sk_s2,
    sk_t0,
    sk_valid,
    vec_in,
    Coding,
};

verus! {

/// Unpacking a packed public key gives its parts back.
pub proof fn law_unpack_pack_pk(rho: Seq<u8>, t1: Seq<Seq<int>>)
    requires
        rho.len() == 32,
        vec_in(t1, 6, 0, 1023),
    ensures
        pk_bytes(rho, t1).len() == 1952,
        pk_rho(pk_bytes(rho, t1)) == rho,
        pk_t1(pk_bytes(rho, t1)) == t1,
{
    lemma_decode_encode_vec(Coding::T1, t1, 6);
    let pk = pk_bytes(rho, t1);
    assert(pk.take(32) =~= rho);
    assert(pk.skip(32) =~= encode_vec(Coding::T1, t1, 6));
}

/// Packing an unpacked public key gives the bytes back, whatever the
/// bytes.
pub proof fn law_pack_unpack_pk(pk: Seq<u8>)
    requires
        pk.len() == 1952,
    ensures
        vec_in(pk_t1(pk), 6, 0, 1023),
        pk_bytes(pk_rho(pk), pk_t1(pk)) == pk,
{
    lemma_encode_decode_vec(Coding::T1, pk.skip(32), 6);
    assert(pk.take(32) + pk.skip(32) =~= pk);
}

/// Unpacking a packed secret key gives its parts back, and a packed
/// secret key is valid.
pub proof fn law_unpack_pack_sk(
    rho: Seq<u8>,
    key: Seq<u8>,
    tr: Seq<u8>,
    s1: Seq<Seq<int>>,
    s2: Seq<Seq<int>>,
    t0: Seq<Seq<int>>,
)
    requires
        rho.len() == 32,
        key.len() == 32,
        tr.len() == 32,
        vec_in(s1, 5, -4, 4),
        vec_in(s2, 6, -4, 4),
        vec_in(t0, 6, -4095, 4096),
    ensures
        sk_bytes(rho, key, tr, s1, s2, t0).len() == 4000,
        sk_bytes(rho, key, tr, s1, s2, t0).subrange(0, 32) == rho,
        sk_bytes(rho, key, tr, s1, s2, t0).subrange(32, 64) == key,
        sk_bytes(rho, key, tr, s1, s2, t0).subrange(64, 96) == tr,
        sk_s1(sk_bytes(rho, key, tr, s1, s2, t0)) == s1,
        sk_s2(sk_bytes(rho, key, tr, s1, s2, t0)) == s2,
        sk_t0(sk_bytes(rho, key, tr, s1, s2, t0)) == t0,
        sk_valid(sk_bytes(rho, key, tr, s1, s2, t0)),
{
    lemma_widen(s1, 5, -4, 4, -11);
    lemma_widen(s2, 6, -4, 4, -11);
    lemma_decode_encode_vec(Coding::Eta, s1, 5);
    lemma_decode_encode_vec(Coding::Eta, s2, 6);
    lemma_decode_encode_vec(Coding::T0, t0, 6);
    let sk = sk_bytes(rho, key, tr, s1, s2, t0);
    assert(sk.subrange(0, 32) =~= rho);
    assert(sk.subrange(32, 64) =~= key);
    assert(sk.subrange(64, 96) =~= tr);
    assert(sk.subrange(96, 736) =~= encode_vec(Coding::Eta, s1, 5));
    assert(sk.subrange(736, 1504) =~= encode_vec(Coding::Eta, s2, 6));
    assert(sk.subrange(1504, 4000) =~= encode_vec(Coding::T0, t0, 6));
    assert forall|i: int, j: int| 0 <= i < s1.len() && 0 <= j < 256 implies #[trigger] s1[i][j]
        >= -4 by {
        assert(crate::packing::coeffs_in(s1[i], -4, 4));
    }
    assert forall|i: int, j: int| 0 <= i < s2.len() && 0 <= j < 256 implies #[trigger] s2[i][j]
        >= -4 by {
        assert(crate::packing::coeffs_in(s2[i], -4, 4));
    }
}

/// A vector in `[lo, hi]` is in every range `[lower, hi]` with `lower`
/// at most `lo`.
pub proof fn lemma_widen(v: Seq<Seq<int>>, m: nat, lo: int, hi: int, lower: int)
    requires
        vec_in(v, m, lo, hi),
        lower <= lo,
    ensures
        vec_in(v, m, lower, hi),
{
    assert forall|i: int| 0 <= i < m implies crate::packing::coeffs_in(
        #[trigger] v[i],
        lower,
        hi,
    ) by {
        assert(crate::packing::coeffs_in(v[i], lo, hi));
        assert forall|j: int| 0 <= j < 256 implies lower <= #[trigger] v[i][j] <= hi by {
            assert(lo <= v[i][j] <= hi);
        }
    }
}

/// Packing an unpacked secret key gives the bytes back, whatever the
/// bytes.
pub proof fn law_pack_unpack_sk(sk: Seq<u8>)
    requires
        sk.len() == 4000,
    ensures
        sk_bytes(
            sk.subrange(0, 32),
            sk.subrange(32, 64),
            sk.subrange(64, 96),
            sk_s1(sk),
            sk_s2(sk),
            sk_t0(sk),
        ) == sk,
{
    lemma_encode_decode_vec(Coding::Eta, sk.subrange(96, 736), 5);
    lemma_encode_decode_vec(Coding::Eta, sk.subrange(736, 1504), 6);
    lemma_encode_decode_vec(Coding::T0, sk.subrange(1504, 4000), 6);
    assert(sk.subrange(0, 32) + sk.subrange(32, 64) + sk.subrange(64, 96) + sk.subrange(96, 736)
        + sk.subrange(736, 1504) + sk.subrange(1504, 4000) =~= sk);
}

/// Unpacking a packed signature gives its parts back, and the packing is
/// valid.
pub proof fn law_unpack_pack_sig(c: Seq<u8>, z: Seq<Seq<int>>, h: Seq<Seq<int>>)
    requires
        c.len() == 32,
        vec_in(z, 5, -524287, 524288),
        is_hint_vec(h),
        flat_ones(h, 1536).len() <= 55,
    ensures
        sig_bytes(c, z, h).len() == 3293,
        sig_c(sig_bytes(c, z, h)) == c,
        sig_z(sig_bytes(c, z, h)) == z,
        hints_valid(sig_hints(sig_bytes(c, z, h))),
        hints_decoded(sig_hints(sig_bytes(c, z, h))) == h,
{
    lemma_decode_encode_vec(Coding::Z, z, 5);
    lemma_hints_decode_encode(h);
    let sig = sig_bytes(c, z, h);
    assert(sig.take(32) =~= c);
    assert(sig.subrange(32, 3232) =~= encode_vec(Coding::Z, z, 5));
    assert(sig.skip(3232) =~= hints_encoded(h));
}

/// A string of bytes is its three parts, one after the other.
proof fn lemma_three_parts(b: Seq<u8>, i: int, j: int)
    requires
        0 <= i <= j <= b.len(),
    ensures
        b.take(i) + b.subrange(i, j) + b.skip(j) == b,
{
    assert(b.take(i) + b.subrange(i, j) + b.skip(j) =~= b);
}

/// Packing an unpacked signature gives the bytes back, where the hints in
/// the bytes are valid.
pub proof fn law_pack_unpack_sig(sig: Seq<u8>)
    requires
        sig.len() == 3293,
        hints_valid(sig_hints(sig)),
    ensures
        sig_bytes(sig_c(sig), sig_z(sig), hints_decoded(sig_hints(sig))) == sig,
{
    let body = sig.subrange(32, 3232);
    let tail = sig.skip(3232);
    lemma_encode_decode_vec(Coding::Z, body, 5);
    lemma_hints_encode_decode(tail);
    lemma_three_parts(sig, 32, 3232);
}



/// Every entry of the vector `v` of `m` entries has 256 coefficients.
pub open spec fn is_vec(v: Seq<Seq<int>>, m: nat) -> bool {
    v.len() == m && forall|i: int| 0 <= i < m ==> (#[trigger] v[i]).len() == 256
}

/// The transform of the response: `c s1 + y`, transformed, is the product
/// of the transforms of `c` and `s1` plus the transform of `y`.
proof fn lemma_hat_response(ch: Seq<int>, s1: Seq<Seq<int>>, y: Seq<Seq<int>>, l: int)
    requires
        is_canonical(ch),
        is_vec(s1, 5),
        is_vec(y, 5),
        0 <= l < 5,
    ensures
        hat(centered_vec(ring_add_vec(times_vec(ch, hat(s1)), canon_vec(y))))[l] == ring_add(
            pointwise(ch, hat(s1)[l]),
            hat(y)[l],
        ),
        canon_vec(centered_vec(ring_add_vec(times_vec(ch, hat(s1)), canon_vec(y))))[l]
            == ring_add_vec(times_vec(ch, hat(s1)), canon_vec(y))[l],
{
    let zr = ring_add_vec(times_vec(ch, hat(s1)), canon_vec(y));
    let z = centered_vec(zr);
    let p = pointwise(ch, hat(s1)[l]);
    assert(zr[l] == ring_add(intt_spec(p), canon_all(y[l])));
    assert forall|j: int| 0 <= j < 256 implies #[trigger] canon_all(z[l])[j] == zr[l][j] by {
        assert(z[l][j] == centered(zr[l][j]));
        assert(0 <= zr[l][j] < q());
    }
    assert(canon_all(z[l]) =~= zr[l]);
    lemma_ntt_sum(p, canon_all(y[l]));
}

/// Where no coefficient of `v` reaches `b`, coefficient `j` of entry `i`
/// does not.
proof fn lemma_below(v: Seq<Seq<int>>, b: int, i: int, j: int)
    requires
        !norm_reaches_vec(v, b),
        0 <= i < v.len(),
        0 <= j < v[i].len(),
    ensures
        abs(centered(v[i][j])) < b,
{
    if abs(centered(v[i][j])) >= b {
        assert(crate::poly::norm_reaches(v[i], b));
        assert(norm_reaches_vec(v, b));
    }
}

/// Entry `i` of what the verifier recovers, corrected by the hints of the
/// signer, is entry `i` of the high bits of the commitment.
proof fn lemma_recover_entry(
    mat: Seq<Seq<Seq<int>>>,
    s1: Seq<Seq<int>>,
    s2: Seq<Seq<int>>,
    y: Seq<Seq<int>>,
    ch: Seq<int>,
    i: int,
)
    requires
        mat.len() == 6,
        is_vec(s1, 5),
        is_vec(s2, 6),
        is_vec(y, 5),
        is_canonical(ch),
        0 <= i < 6,
        !norm_reaches_vec(
            ring_sub_vec(
                canon_vec(low_bits_vec(matrix_apply(mat, hat(y)))),
                times_vec(ch, hat(s2)),
            ),
            GAMMA2 - BETA,
        ),
        !norm_reaches_vec(
            times_vec(ch, hat(power2round_low_vec(public_vector(mat, s1, s2)))),
            GAMMA2 as int,
        ),
    ensures
        hinted_high_bits_vec(
            recovered_commitment(
                mat,
                ch,
                centered_vec(ring_add_vec(times_vec(ch, hat(s1)), canon_vec(y))),
                power2round_high_vec(public_vector(mat, s1, s2)),
            ),
            hints_vec(
                add_vec(
                    centered_vec(
                        ring_sub_vec(
                            canon_vec(low_bits_vec(matrix_apply(mat, hat(y)))),
                            times_vec(ch, hat(s2)),
                        ),
                    ),
                    centered_vec(
                        times_vec(ch, hat(power2round_low_vec(public_vector(mat, s1, s2)))),
                    ),
                ),
                high_bits_vec(matrix_apply(mat, hat(y))),
            ),
        )[i] == high_bits_vec(matrix_apply(mat, hat(y)))[i],
{
    let t = public_vector(mat, s1, s2);
    let t1 = power2round_high_vec(t);
    let t0 = power2round_low_vec(t);
    let w = matrix_apply(mat, hat(y));
    let zr = ring_add_vec(times_vec(ch, hat(s1)), canon_vec(y));
    let z = centered_vec(zr);
    let cs2 = times_vec(ch, hat(s2));
    let lr = ring_sub_vec(canon_vec(low_bits_vec(w)), cs2);
    let ls = times_vec(ch, hat(t0));
    let hints = hints_vec(add_vec(centered_vec(lr), centered_vec(ls)), high_bits_vec(w));
    let rec = recovered_commitment(mat, ch, z, t1);
    let d1 = dot(mat[i], hat(s1), 5);
    let dy = dot(mat[i], hat(y), 5);
    let s2h = hat(s2)[i];
    let t0h = hat(t0)[i];
    assert forall|l: int| 0 <= l < 5 implies #[trigger] hat(z)[l] == ring_add(
        pointwise(ch, hat(s1)[l]),
        hat(y)[l],
    ) by {
        lemma_hat_response(ch, s1, y, l);
    }
    lemma_dot_split(mat[i], ch, hat(s1), hat(y), hat(z), 5);
    lemma_dot_canonical(mat[i], hat(s1), 5);
    lemma_dot_canonical(mat[i], hat(y), 5);
    lemma_hat_shifted(d1, s2[i]);
    assert(t[i] == ring_add(intt_spec(d1), canon_all(s2[i])));
    assert(hat(shifted_vec(t1))[i] == ntt_spec(canon_all(shifted(power2round_high_all(t[i])))));
    assert(t0h == ntt_spec(canon_all(power2round_low_all(t[i]))));
    lemma_transform_canonical(canon_all(s2[i]));
    lemma_transform_canonical(canon_all(t0[i]));
    lemma_recovered_entry(ch, d1, dy, s2h, t0h);
    assert(w[i] == intt_spec(dy));
    assert(cs2[i] == intt_spec(pointwise(ch, s2h)));
    assert(ls[i] == intt_spec(pointwise(ch, t0h)));
    let target = high_bits_vec(w)[i];
    let got = hinted_high_bits_vec(rec, hints)[i];
    assert forall|j: int| 0 <= j < 256 implies #[trigger] got[j] == target[j] by {
        lemma_below(lr, GAMMA2 - BETA, i, j);
        lemma_below(ls, GAMMA2 as int, i, j);
        lemma_hint_recovers(w[i][j], cs2[i][j], ls[i][j], GAMMA2 - BETA, GAMMA2 as int);
        assert(lr[i][j] == canon(canon(low_bits(w[i][j])) - cs2[i][j]));
    }
    assert(got =~= target);
}



/// A signature that signing gives is that of an accepted attempt.
pub proof fn lemma_first_signature(k: SigningInput, nonce: nat, left: nat, s: Seq<u8>)
    requires
        first_signature(k, nonce, left) == Some(s),
    ensures
        exists|n: u16| #[trigger] accepted(k, n) && s == signature_of(k, n),
    decreases left,
{
    if left > 0 && crate::sign::challenge_filled(k, nonce as u16) {
        if accepted(k, nonce as u16) {
            assert(accepted(k, nonce as u16) && s == signature_of(k, nonce as u16));
        } else {
            lemma_first_signature(k, nonce + 1, (left - 1) as nat, s);
        }
    }
}

/// The parts of the key for `seed`, where the streams fill them, have the
/// lengths and the ranges that packing asks for.
pub proof fn lemma_keygen_shapes(seed: Seq<u8>)
    requires
        keygen_full(seed),
    ensures
        keygen_rho(seed).len() == 32,
        keygen_key(seed).len() == 32,
        vec_in(keygen_s1(seed), 5, -4, 4),
        vec_in(keygen_s2(seed), 6, -4, 4),
        vec_in(power2round_high_vec(keygen_t(seed)), 6, 0, 1023),
        vec_in(power2round_low_vec(keygen_t(seed)), 6, -4095, 4096),
        expand_matrix(keygen_rho(seed)).len() == 6,
{
    let rp = keygen_rhoprime(seed);
    assert forall|i: int| 0 <= i < 5 implies coeffs_in(#[trigger] keygen_s1(seed)[i], -4, 4) by {
        assert(eta_entry_full(rp, 0, i));
        lemma_sample_rejection_range(rp, (0 + i) as u16, false);
    }
    assert forall|i: int| 0 <= i < 6 implies coeffs_in(#[trigger] keygen_s2(seed)[i], -4, 4) by {
        assert(eta_entry_full(rp, 5, i));
        lemma_sample_rejection_range(rp, (5 + i) as u16, false);
    }
    let t = keygen_t(seed);
    assert forall|i: int| 0 <= i < 6 implies coeffs_in(
        #[trigger] power2round_high_vec(t)[i],
        0,
        1023,
    ) && coeffs_in(power2round_low_vec(t)[i], -4095, 4096) by {
        assert forall|j: int| 0 <= j < 256 implies 0 <= #[trigger] power2round_high_vec(t)[i][j]
            <= 1023 && -4095 <= power2round_low_vec(t)[i][j] <= 4096 by {
            assert(0 <= t[i][j] < q());
            lemma_power2round(t[i][j]);
        }
    }
}

/// The vectors of a key and a masking vector have 256 coefficients in
/// every entry.
proof fn lemma_vec_shapes(v: Seq<Seq<int>>, m: nat, lo: int, hi: int)
    requires
        vec_in(v, m, lo, hi),
    ensures
        is_vec(v, m),
{
    assert forall|i: int| 0 <= i < m implies (#[trigger] v[i]).len() == 256 by {
        assert(coeffs_in(v[i], lo, hi));
    }
}

/// A masking vector has five entries of 256 coefficients.
proof fn lemma_gamma1_shape(seed: Seq<u8>, nonce: u16)
    ensures
        is_vec(sample_gamma1_vec(seed, nonce), 5),
{
    assert forall|i: int| 0 <= i < 5 implies (#[trigger] sample_gamma1_vec(seed, nonce)[i]).len()
        == 256 by {
        let b = crate::symmetric::squeezed(
            crate::symmetric::init_state(seed, (5 * nonce + i) as u16),
            680,
        ).take(640);
        Coding::Z.lemma_encode_decode(b);
        assert(sample_gamma1(seed, (5 * nonce + i) as u16) == Coding::Z.decode(b));
    }
}

/// What an accepted attempt packs: a response within the range of its
/// coding, and a hint vector with at most `OMEGA` ones.
proof fn lemma_accepted_parts(k: SigningInput, n: u16)
    requires
        accepted(k, n),
        k.mat.len() == 6,
        is_vec(k.s1, 5),
    ensures
        challenge_seed(k, n).len() == 32,
        vec_in(centered_vec(response(k, n)), 5, -524287, 524288),
        canon_vec(centered_vec(response(k, n))) == response(k, n),
        is_hint_vec(hints_of(k, n)),
        flat_ones(hints_of(k, n), 1536).len() <= 55,
        weight_vec(hints_of(k, n), 6) <= 55,
{
    reveal(accepted);
    let zr = response(k, n);
    let z = centered_vec(zr);
    assert forall|i: int| 0 <= i < 5 implies coeffs_in(#[trigger] z[i], -524287, 524288) by {
        assert forall|j: int| 0 <= j < 256 implies -524287 <= #[trigger] z[i][j] <= 524288 by {
            lemma_below(zr, GAMMA1 - BETA, i, j);
        }
    }
    assert forall|i: int| 0 <= i < 5 implies #[trigger] canon_vec(z)[i] == zr[i] by {
        assert forall|j: int| 0 <= j < 256 implies #[trigger] canon_all(z[i])[j] == zr[i][j] by {
            assert(z[i][j] == centered(zr[i][j]));
            assert(0 <= zr[i][j] < q());
        }
        assert(canon_all(z[i]) =~= zr[i]);
    }
    assert(canon_vec(z) =~= zr);
    let h = hints_of(k, n);
    assert forall|i: int| 0 <= i < 6 implies coeffs_in(#[trigger] h[i], 0, 1) by {
        assert forall|j: int| 0 <= j < 256 implies 0 <= #[trigger] h[i][j] <= 1 by {}
    }
    assert(zero_one(h)) by {
        assert forall|i: int, j: int| 0 <= i < 6 && 0 <= j < 256 implies 0 <= #[trigger] h[i][j]
            <= 1 by {
            assert(coeffs_in(h[i], 0, 1));
        }
    }
    lemma_weight_is_ones(h);
}

/// What signing under the secret key for `seed` works on: the parts of
/// the key, as key generation made them.
proof fn lemma_key_parts(seed: Seq<u8>, msg: Seq<u8>, rnd: Option<Seq<u8>>)
    requires
        keygen_full(seed),
    ensures
        sk_valid(keygen_secret(seed)),
        keygen_secret(seed).subrange(0, 32) == keygen_rho(seed),
        pk_rho(keygen_public(seed)) == keygen_rho(seed),
        pk_t1(keygen_public(seed)) == power2round_high_vec(keygen_t(seed)),
        signing_input(keygen_secret(seed), msg, rnd).mat == expand_matrix(keygen_rho(seed)),
        signing_input(keygen_secret(seed), msg, rnd).s1 == keygen_s1(seed),
        signing_input(keygen_secret(seed), msg, rnd).s2 == keygen_s2(seed),
        signing_input(keygen_secret(seed), msg, rnd).t0 == power2round_low_vec(keygen_t(seed)),
        signing_input(keygen_secret(seed), msg, rnd).mu == message_hash(
            digest(keygen_public(seed)),
            msg,
        ),
{
    let rho = keygen_rho(seed);
    let key = keygen_key(seed);
    let s1 = keygen_s1(seed);
    let s2 = keygen_s2(seed);
    let t = keygen_t(seed);
    let t1 = power2round_high_vec(t);
    let t0 = power2round_low_vec(t);
    let tr = digest(keygen_public(seed));
    lemma_keygen_shapes(seed);
    law_unpack_pack_pk(rho, t1);
    law_unpack_pack_sk(rho, key, tr, s1, s2, t0);
}

/// What a verifier unpacks from the signature of an accepted attempt: the
/// parts that the signer packed.
proof fn lemma_signature_parts(k: SigningInput, n: u16)
    requires
        accepted(k, n),
        k.mat.len() == 6,
        is_vec(k.s1, 5),
    ensures
        sig_c(signature_of(k, n)) == challenge_seed(k, n),
        sig_z(signature_of(k, n)) == centered_vec(response(k, n)),
        hints_valid(sig_hints(signature_of(k, n))),
        hints_decoded(sig_hints(signature_of(k, n))) == hints_of(k, n),
        !norm_reaches_vec(canon_vec(sig_z(signature_of(k, n))), GAMMA1 - BETA),
        challenge_full(challenge_seed(k, n)),
{
    lemma_accepted_parts(k, n);
    reveal(signature_of);
    reveal(accepted);
    law_unpack_pack_sig(challenge_seed(k, n), centered_vec(response(k, n)), hints_of(k, n));
}

/// Signing and verifying fit: a signature that signing gives under the
/// secret key for a seed is accepted under the public key for that seed,
/// whatever the message, the randomness and the number of attempts, for
/// every seed for which there is a key.
pub proof fn law_sign_then_verify(
    seed: Seq<u8>,
    msg: Seq<u8>,
    rnd: Option<Seq<u8>>,
    max: nat,
    sig: Seq<u8>,
)
    requires
        keygen_full(seed),
        sign_spec(keygen_secret(seed), msg, rnd, max) == Ok::<Seq<u8>, SignError>(sig),
    ensures
        verify_spec(sig, msg, keygen_public(seed)) == Ok::<(), SignError>(()),
{
    let pk = keygen_public(seed);
    let sk = keygen_secret(seed);
    let k = signing_input(sk, msg, rnd);
    lemma_key_parts(seed, msg, rnd);
    lemma_keygen_shapes(seed);
    lemma_first_signature(k, 0, max, sig);
    let n = choose|n: u16| #[trigger] accepted(k, n) && sig == signature_of(k, n);
    lemma_vec_shapes(k.s1, 5, -4, 4);
    lemma_vec_shapes(k.s2, 6, -4, 4);
    lemma_signature_parts(k, n);
    lemma_signature_recovers(k.mat, k.s1, k.s2, k.mu, k.seed, n, k);
    let w1 = high_bits_vec(commitment(k, n));
    assert(recomputed_seed(sig, msg, pk) == challenge_seed_for(k.mu, w1));
    assert(challenge_seed(k, n) == challenge_seed_for(k.mu, w1));
    assert(matrix_full(pk_rho(pk)));
    assert(challenge_full(sig_c(sig)));
}

/// The high bits that the verifier recovers from the signature of an
/// accepted attempt are those of the commitment of the attempt.
proof fn lemma_signature_recovers(
    mat: Seq<Seq<Seq<int>>>,
    s1: Seq<Seq<int>>,
    s2: Seq<Seq<int>>,
    mu: Seq<u8>,
    seed: Seq<u8>,
    n: u16,
    k: SigningInput,
)
    requires
        k == (SigningInput {
            mat: mat,
            s1: s1,
            s2: s2,
            t0: power2round_low_vec(public_vector(mat, s1, s2)),
            mu: mu,
            seed: seed,
        }),
        mat.len() == 6,
        is_vec(s1, 5),
        is_vec(s2, 6),
        accepted(k, n),
    ensures
        hinted_high_bits_vec(
            recovered_commitment(
                mat,
                challenge_hat(challenge_seed(k, n)),
                centered_vec(response(k, n)),
                power2round_high_vec(public_vector(mat, s1, s2)),
            ),
            hints_of(k, n),
        ) == high_bits_vec(commitment(k, n)),
{
    reveal(accepted);
    let y = sample_gamma1_vec(seed, n);
    let ch = challenge_hat(challenge_seed(k, n));
    lemma_gamma1_shape(seed, n);
    lemma_transform_canonical(canon_all(crate::poly::sample_challenge(challenge_seed(k, n))));
    let w = commitment(k, n);
    let rec = recovered_commitment(
        mat,
        ch,
        centered_vec(response(k, n)),
        power2round_high_vec(public_vector(mat, s1, s2)),
    );
    let got = hinted_high_bits_vec(rec, hints_of(k, n));
    assert forall|i: int| 0 <= i < 6 implies #[trigger] got[i] == high_bits_vec(w)[i] by {
        lemma_recover_entry(mat, s1, s2, y, ch, i);
    }
    assert(got =~= high_bits_vec(w));
}

/// Signatures keep their bounds: in a signature that signing gives, the
/// infinity norm of the response stays below `GAMMA1 - BETA`, and the
/// hints are validly encoded and hold at most `OMEGA` ones.
pub proof fn law_signature_bounds(
    sk: Seq<u8>,
    msg: Seq<u8>,
    rnd: Option<Seq<u8>>,
    max: nat,
    sig: Seq<u8>,
)
    requires
        sk.len() == 4000,
        sign_spec(sk, msg, rnd, max) == Ok::<Seq<u8>, SignError>(sig),
    ensures
        sig.len() == 3293,
        !norm_reaches_vec(canon_vec(sig_z(sig)), GAMMA1 - BETA),
        hints_valid(sig_hints(sig)),
        weight_vec(hints_decoded(sig_hints(sig)), 6) <= OMEGA,
{
    let k = signing_input(sk, msg, rnd);
    lemma_first_signature(k, 0, max, sig);
    let n = choose|n: u16| #[trigger] accepted(k, n) && sig == signature_of(k, n);
    lemma_encode_decode_vec(Coding::Eta, sk.subrange(96, 736), 5);
    lemma_vec_shapes(k.s1, 5, -11, 4);
    lemma_accepted_parts(k, n);
    reveal(signature_of);
    reveal(accepted);
    law_unpack_pack_sig(challenge_seed(k, n), centered_vec(response(k, n)), hints_of(k, n));
}

/// Keys are functions of the seed: the same seed gives the same packed
/// keys.
pub proof fn law_derive_deterministic(seed_a: Seq<u8>, seed_b: Seq<u8>)
    requires
        seed_a == seed_b,
    ensures
        keygen_public(seed_a) == keygen_public(seed_b),
        keygen_secret(seed_a) == keygen_secret(seed_b),
{
}

/// Signatures made without fresh randomness are functions of key and
/// message: the same secret key and message give the same outcome.
pub proof fn law_sign_deterministic(
    sk_a: Seq<u8>,
    msg_a: Seq<u8>,
    sk_b: Seq<u8>,
    msg_b: Seq<u8>,
    max: nat,
)
    requires
        sk_a == sk_b,
        msg_a == msg_b,
    ensures
        sign_spec(sk_a, msg_a, None, max) == sign_spec(sk_b, msg_b, None, max),
{
}



/// The products of the scheme are products in the ring: what the response
/// and the low parts are made of, the product of the challenge and entry
/// `l` of a vector, is their product modulo `X^256 + 1` and modulo `q`.
pub proof fn law_times_is_ring_product(c: Seq<int>, v: Seq<Seq<int>>, l: int)
    requires
        0 <= l < v.len(),
    ensures
        times_vec(ntt_spec(canon_all(c)), hat(v))[l] == ring_mul(canon_all(c), canon_all(v[l])),
{
    law_transform_multiplies(canon_all(c), canon_all(v[l]));
}

/// The sum of the products in the ring of the first `n` entries of a row
/// of the matrix, transformed back, and the entries of the vector `v`.
pub open spec fn ring_dot(row: Seq<Seq<int>>, v: Seq<Seq<int>>, n: nat) -> Seq<int>
    decreases n,
{
    if n == 0 {
        zeros()
    } else {
        ring_add(
            ring_dot(row, v, (n - 1) as nat),
            ring_mul(intt_spec(row[n - 1]), canon_all(v[n - 1])),
        )
    }
}

proof fn lemma_dot_is_ring_dot(row: Seq<Seq<int>>, v: Seq<Seq<int>>, n: nat)
    requires
        n <= 5,
        v.len() == 5,
        forall|l: int| 0 <= l < 5 ==> is_canonical(#[trigger] row[l]),
    ensures
        intt_spec(dot(row, hat(v), n)) == ring_dot(row, v, n),
    decreases n,
{
    if n == 0 {
        let z = zeros();
        lemma_intt_linear(0, z, 0, z);
        assert(lin(0, z, 0, z) =~= z);
        assert(lin(0, intt_spec(z), 0, intt_spec(z)) =~= z);
    } else {
        let l = n - 1;
        lemma_dot_is_ring_dot(row, v, l as nat);
        let x = dot(row, hat(v), l as nat);
        let p = pointwise(row[l], hat(v)[l]);
        lemma_dot_canonical(row, hat(v), l as nat);
        assert(ring_add(x, p) =~= lin(1, x, 1, p));
        lemma_intt_linear(1, x, 1, p);
        assert(is_canonical(row[l]));
        lemma_ntt_intt(row[l]);
        lemma_scale_one(row[l]);
        law_transform_multiplies(intt_spec(row[l]), canon_all(v[l]));
        assert(lin(1, intt_spec(x), 1, intt_spec(p)) =~= ring_add(intt_spec(x), intt_spec(p)));
    }
}

/// The product of the matrix and a vector is a product in the ring: entry
/// `i` is the sum of the products of the entries of row `i`, transformed
/// back, and the entries of the vector, modulo `X^256 + 1` and modulo `q`.
pub proof fn law_matrix_is_ring_product(mat: Seq<Seq<Seq<int>>>, v: Seq<Seq<int>>, i: int)
    requires
        0 <= i < mat.len(),
        v.len() == 5,
        forall|l: int| 0 <= l < 5 ==> is_canonical(#[trigger] mat[i][l]),
    ensures
        matrix_apply(mat, hat(v))[i] == ring_dot(mat[i], v, 5),
{
    lemma_dot_is_ring_dot(mat[i], v, 5);
}



/// The product of a challenge and a short vector stays within `BETA`: no
/// coefficient of the product of the challenge for the seed `ct` and an
/// entry with coefficients in `[-ETA, ETA]` is larger than `TAU * ETA`, in
/// its centered representative.
pub proof fn law_challenge_times_short(ct: Seq<u8>, v: Seq<Seq<int>>, m: nat, l: int, k: int)
    requires
        challenge_full(ct),
        vec_in(v, m, -4, 4),
        0 <= l < m,
        0 <= k < 256,
    ensures
        abs(centered(times_vec(challenge_hat(ct), hat(v))[l][k])) <= BETA,
{
    let c = sample_challenge(ct);
    lemma_challenge_shape(ct);
    law_times_is_ring_product(c, v, l);
    assert(coeffs_in(v[l], -4, 4));
    law_sparse_product_small(c, v[l], 4, 49, k);
}



/// Where every coefficient of `v` stays below `b`, the norm of `v` does
/// not reach `b`.
proof fn lemma_not_reaching(v: Seq<Seq<int>>, b: int)
    requires
        forall|i: int, j: int|
            0 <= i < v.len() && 0 <= j < v[i].len() ==> abs(centered(#[trigger] v[i][j])) < b,
    ensures
        !norm_reaches_vec(v, b),
{
    if norm_reaches_vec(v, b) {
        let i = choose|i: int| 0 <= i < v.len() && crate::poly::norm_reaches(#[trigger] v[i], b);
        let j = choose|j: int| 0 <= j < v[i].len() && abs(centered(#[trigger] v[i][j])) >= b;
        assert(abs(centered(v[i][j])) < b);
    }
}

/// A vector of `m` entries of 256 residues in `[0, q)`.
pub open spec fn is_canonical_vec(v: Seq<Seq<int>>, m: nat) -> bool {
    v.len() == m && forall|i: int| 0 <= i < m ==> is_canonical(#[trigger] v[i])
}

/// The low bits of `w`, less `cs2`, as residues.
pub open spec fn low_less(w: Seq<Seq<int>>, cs2: Seq<Seq<int>>) -> Seq<Seq<int>> {
    ring_sub_vec(canon_vec(low_bits_vec(w)), cs2)
}

proof fn lemma_low_part_forth(w: Seq<Seq<int>>, cs2: Seq<Seq<int>>, b: int)
    requires
        is_canonical_vec(w, 6),
        is_vec(cs2, 6),
        b <= 261888,
        !norm_reaches_vec(low_less(w, cs2), b),
    ensures
        !norm_reaches_vec(low_bits_vec(ring_sub_vec(w, cs2)), b),
        centered_vec(low_less(w, cs2)) == low_bits_vec(ring_sub_vec(w, cs2)),
        high_bits_vec(ring_sub_vec(w, cs2)) == high_bits_vec(w),
{
    let lr = low_less(w, cs2);
    let u = ring_sub_vec(w, cs2);
    let lu = low_bits_vec(u);
    assert forall|i: int, j: int| 0 <= i < 6 && 0 <= j < 256 implies lu[i][j] == centered(
        #[trigger] lr[i][j],
    ) && high_bits(u[i][j]) == high_bits(w[i][j]) && abs(centered(lu[i][j])) < b by {
        assert(is_canonical(w[i]));
        assert(0 <= w[i][j] < q());
        assert(lr[i][j] == canon(canon(low_bits(w[i][j])) - cs2[i][j]));
        assert(u[i][j] == canon(w[i][j] - cs2[i][j]));
        lemma_below(lr, b, i, j);
        lemma_low_rest_is_low_bits(w[i][j], cs2[i][j]);
    }
    assert forall|i: int, j: int| 0 <= i < lu.len() && 0 <= j < lu[i].len() implies abs(
        centered(#[trigger] lu[i][j]),
    ) < b by {
        assert(lu[i][j] == centered(lr[i][j]));
    }
    lemma_not_reaching(lu, b);
    assert forall|i: int| 0 <= i < 6 implies #[trigger] centered_vec(lr)[i] == lu[i] by {
        assert forall|j: int| 0 <= j < 256 implies #[trigger] centered_vec(lr)[i][j]
            == lu[i][j] by {
            assert(lu[i][j] == centered(lr[i][j]));
        }
        assert(centered_vec(lr)[i] =~= lu[i]);
    }
    assert forall|i: int| 0 <= i < 6 implies #[trigger] high_bits_vec(u)[i] == high_bits_vec(
        w,
    )[i] by {
        assert forall|j: int| 0 <= j < 256 implies #[trigger] high_bits_vec(u)[i][j]
            == high_bits_vec(w)[i][j] by {
            assert(lu[i][j] == centered(lr[i][j]));
        }
        assert(high_bits_vec(u)[i] =~= high_bits_vec(w)[i]);
    }
    assert(centered_vec(lr) =~= lu);
    assert(high_bits_vec(u) =~= high_bits_vec(w));
}

proof fn lemma_low_part_back(w: Seq<Seq<int>>, cs2: Seq<Seq<int>>, b1: int, b2: int)
    requires
        is_canonical_vec(w, 6),
        is_vec(cs2, 6),
        0 <= b2,
        b1 + b2 <= 261888,
        forall|i: int, j: int|
            0 <= i < 6 && 0 <= j < 256 ==> abs(centered(#[trigger] cs2[i][j])) <= b2,
        !norm_reaches_vec(low_bits_vec(ring_sub_vec(w, cs2)), b1),
    ensures
        !norm_reaches_vec(low_less(w, cs2), b1),
{
    let lr = low_less(w, cs2);
    let u = ring_sub_vec(w, cs2);
    let lu = low_bits_vec(u);
    assert forall|i: int, j: int| 0 <= i < lr.len() && 0 <= j < lr[i].len() implies abs(
        centered(#[trigger] lr[i][j]),
    ) < b1 by {
        assert(is_canonical(w[i]));
        assert(0 <= w[i][j] < q());
        assert(lr[i][j] == canon(canon(low_bits(w[i][j])) - cs2[i][j]));
        assert(u[i][j] == canon(w[i][j] - cs2[i][j]));
        assert(lu[i][j] == low_bits(u[i][j]));
        lemma_below(lu, b1, i, j);
        crate::rounding::lemma_decompose(u[i][j]);
        assert(abs(centered(cs2[i][j])) <= b2);
        lemma_low_bits_is_low_rest(w[i][j], cs2[i][j], b1, b2);
    }
    lemma_not_reaching(lr, b1);
}

/// The commitment is a vector of six entries of residues.
proof fn lemma_commitment_shape(k: SigningInput, n: u16)
    requires
        k.mat.len() == 6,
    ensures
        is_canonical_vec(commitment(k, n), 6),
        is_vec(times_vec(challenge_hat(challenge_seed(k, n)), hat(k.s2)), k.s2.len()),
        is_vec(low_shift(k, n), k.t0.len()),
{
    let w = commitment(k, n);
    assert forall|i: int| 0 <= i < 6 implies is_canonical(#[trigger] w[i]) by {
        lemma_transform_canonical(dot(k.mat[i], hat(sample_gamma1_vec(k.seed, n)), 5));
    }
}

/// What the signer checks of the low part is the low part of `w - c s2`:
/// the low bits of the commitment, less `c s2`, reach `GAMMA2 - BETA` if
/// and only if the low bits of the commitment less `c s2` do; and where
/// they do not, the two are the same, and the commitment less `c s2` has
/// the high bits of the commitment.
pub proof fn law_low_part_check(k: SigningInput, n: u16)
    requires
        k.mat.len() == 6,
        vec_in(k.s2, 6, -4, 4),
        challenge_full(challenge_seed(k, n)),
    ensures
        norm_reaches_vec(low_rest(k, n), GAMMA2 - BETA) <==> norm_reaches_vec(
            low_bits_vec(
                ring_sub_vec(
                    commitment(k, n),
                    times_vec(challenge_hat(challenge_seed(k, n)), hat(k.s2)),
                ),
            ),
            GAMMA2 - BETA,
        ),
        !norm_reaches_vec(low_rest(k, n), GAMMA2 - BETA) ==> centered_vec(low_rest(k, n))
            == low_bits_vec(
            ring_sub_vec(
                commitment(k, n),
                times_vec(challenge_hat(challenge_seed(k, n)), hat(k.s2)),
            ),
        ) && high_bits_vec(
            ring_sub_vec(
                commitment(k, n),
                times_vec(challenge_hat(challenge_seed(k, n)), hat(k.s2)),
            ),
        ) == high_bits_vec(commitment(k, n)),
{
    let ct = challenge_seed(k, n);
    let w = commitment(k, n);
    let cs2 = times_vec(challenge_hat(ct), hat(k.s2));
    let b = GAMMA2 - BETA;
    lemma_commitment_shape(k, n);
    assert(low_rest(k, n) == low_less(w, cs2));
    if !norm_reaches_vec(low_less(w, cs2), b) {
        lemma_low_part_forth(w, cs2, b);
    }
    if !norm_reaches_vec(low_bits_vec(ring_sub_vec(w, cs2)), b) {
        assert forall|i: int, j: int| 0 <= i < 6 && 0 <= j < 256 implies abs(
            centered(#[trigger] cs2[i][j]),
        ) <= BETA by {
            law_challenge_times_short(ct, k.s2, 6, i, j);
        }
        lemma_low_part_back(w, cs2, b, BETA as int);
    }
}

/// The hint for small low parts marks a change of the high bits.
proof fn lemma_hints_generic(
    w: Seq<Seq<int>>,
    cs2: Seq<Seq<int>>,
    ct0: Seq<Seq<int>>,
    i: int,
    j: int,
)
    requires
        is_canonical_vec(w, 6),
        is_vec(cs2, 6),
        is_vec(ct0, 6),
        0 <= i < 6,
        0 <= j < 256,
        !norm_reaches_vec(low_less(w, cs2), GAMMA2 - BETA),
        !norm_reaches_vec(ct0, GAMMA2 as int),
    ensures
        hints_vec(
            add_vec(centered_vec(low_less(w, cs2)), centered_vec(ct0)),
            high_bits_vec(w),
        )[i][j] == if high_bits(ring_add_vec(ring_sub_vec(w, cs2), ct0)[i][j]) != high_bits(
            ring_sub_vec(w, cs2)[i][j],
        ) {
            1int
        } else {
            0int
        },
{
    let lr = low_less(w, cs2);
    lemma_below(lr, GAMMA2 - BETA, i, j);
    lemma_below(ct0, GAMMA2 as int, i, j);
    assert(is_canonical(w[i]));
    assert(0 <= w[i][j] < q());
    assert(lr[i][j] == canon(canon(low_bits(w[i][j])) - cs2[i][j]));
    lemma_hint_is_change(w[i][j], cs2[i][j], ct0[i][j], GAMMA2 - BETA, GAMMA2 as int);
}

/// The hints mark the changes of the high bits: in an accepted attempt,
/// the hint at a coefficient is 1 if the high bits of
/// `w - c s2 + c t0` are not those of `w - c s2`, and 0 if they are.
pub proof fn law_hints_mark_changes(k: SigningInput, n: u16, i: int, j: int)
    requires
        accepted(k, n),
        k.mat.len() == 6,
        is_vec(k.s2, 6),
        is_vec(k.t0, 6),
        0 <= i < 6,
        0 <= j < 256,
    ensures
        hints_of(k, n)[i][j] == if high_bits(
            ring_add_vec(
                ring_sub_vec(
                    commitment(k, n),
                    times_vec(challenge_hat(challenge_seed(k, n)), hat(k.s2)),
                ),
                low_shift(k, n),
            )[i][j],
        ) != high_bits(
            ring_sub_vec(
                commitment(k, n),
                times_vec(challenge_hat(challenge_seed(k, n)), hat(k.s2)),
            )[i][j],
        ) {
            1int
        } else {
            0int
        },
{
    reveal(accepted);
    let w = commitment(k, n);
    let cs2 = times_vec(challenge_hat(challenge_seed(k, n)), hat(k.s2));
    let ct0 = low_shift(k, n);
    lemma_commitment_shape(k, n);
    assert(low_rest(k, n) == low_less(w, cs2));
    lemma_hints_generic(w, cs2, ct0, i, j);
}



/// Two inputs of the hash with the same digest.
pub open spec fn collision(x: Seq<u8>, y: Seq<u8>) -> bool {
    x != y && digest(x) == digest(y)
}

/// A signature binds the message as far as the hash resists collisions:
/// where one signature is accepted for two messages under one public key,
/// two inputs of the hash have the same digest.
pub proof fn law_message_binding(sig: Seq<u8>, msg_a: Seq<u8>, msg_b: Seq<u8>, pk: Seq<u8>)
    requires
        msg_a != msg_b,
        verify_spec(sig, msg_a, pk) == Ok::<(), SignError>(()),
        verify_spec(sig, msg_b, pk) == Ok::<(), SignError>(()),
    ensures
        exists|x: Seq<u8>, y: Seq<u8>| #[trigger] collision(x, y),
{
    let tr = digest(pk);
    let mu_a = message_hash(tr, msg_a);
    let mu_b = message_hash(tr, msg_b);
    let w1 = hinted_high_bits_vec(
        recovered_commitment(
            expand_matrix(pk_rho(pk)),
            challenge_hat(sig_c(sig)),
            sig_z(sig),
            pk_t1(pk),
        ),
        hints_decoded(sig_hints(sig)),
    );
    let packed = encode_vec(Coding::W1, w1, 6);
    assert(recomputed_seed(sig, msg_a, pk) == digest(mu_a + packed));
    assert(recomputed_seed(sig, msg_b, pk) == digest(mu_b + packed));
    assert(digest(mu_a + packed) == digest(mu_b + packed));
    if mu_a == mu_b {
        let x = tr + msg_a;
        let y = tr + msg_b;
        if x == y {
            assert(x.skip(32) =~= msg_a);
            assert(y.skip(32) =~= msg_b);
        }
        assert(collision(x, y));
    } else {
        let x = mu_a + packed;
        let y = mu_b + packed;
        if x == y {
            assert(x.take(32) =~= mu_a);
            assert(y.take(32) =~= mu_b);
        }
        assert(collision(x, y));
    }
}

} // verus!
