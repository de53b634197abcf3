//! What the transform computes: the values of a polynomial at the roots of
//! `X^256 + 1`. With it, multiplying transforms entry by entry multiplies
//! in the ring of polynomials modulo `X^256 + 1`.
use vstd::prelude::*;
use vstd::arithmetic::power::{
    lemma_pow0,
    lemma_pow1,
    lemma_pow_mod_noop,
    lemma_pow_multiplies,
    lemma_square_is_pow2,
    pow,
};
use crate::ntt::{
    intt_spec,
    is_canonical,
    is_layer_len,
    lemma_intt_ntt,
    lemma_scale_one,
    lemma_zeta_square,
    ntt_layer,
    ntt_spec,
    parent_root,
    zeta,
};
use crate::poly::{canon_all, nonzeros, pointwise, zeros};
use crate::ring::{abs, canon, centered, eqm, lemma_canon_add, lemma_eqm_add, lemma_eqm_canon, lemma_eqm_mul, q};

verus! {

/// The sum of `a[j + t * m] * z^t` over `t` below `n`: the value at `z` of
/// the polynomial whose coefficients are every `m`-th coefficient of `a`
/// from `j` on.
pub open spec fn strided_sum(a: Seq<int>, j: int, m: int, z: int, n: nat) -> int
    decreases n,
{
    if n == 0 {
        0
    } else {
        strided_sum(a, j, m, z, (n - 1) as nat) + a[j + (n - 1) * m] * pow(z, (n - 1) as nat)
    }
}

/// The value of the polynomial with the coefficients `a` at `x`, modulo
/// `q`.
pub open spec fn eval(a: Seq<int>, x: int) -> int {
    canon(strided_sum(a, 0, 1, x, 256))
}

/// The power `2 m` of `z` is the power `m` of its square, and the power
/// after it is `z` times that.
proof fn lemma_pow_square(z: int, m: nat)
    ensures
        pow(z, 2 * m) == pow(z * z, m),
        pow(z, 2 * m + 1) == z * pow(z * z, m),
{
    lemma_square_is_pow2(z);
    lemma_pow_multiplies(z, 2, m);
    reveal(pow);
}

/// A sum over the coefficients at stride `len` is the sum over those at
/// even places plus `z` times the sum over those at odd places, both at
/// stride `2 * len` and at the square of `z`.
pub proof fn lemma_split(a: Seq<int>, j: int, len: int, z: int, n: nat)
    ensures
        strided_sum(a, j, len, z, 2 * n) == strided_sum(a, j, 2 * len, z * z, n) + z * strided_sum(
            a,
            j + len,
            2 * len,
            z * z,
            n,
        ),
    decreases n,
{
    if n > 0 {
        let m = (n - 1) as nat;
        lemma_split(a, j, len, z, m);
        lemma_pow_square(z, m);
        let w = z * z;
        let p = pow(w, m);
        let x0 = a[j + (2 * n - 2) * len];
        let x1 = a[j + (2 * n - 1) * len];
        assert(strided_sum(a, j, len, z, (2 * n - 1) as nat) == strided_sum(
            a,
            j,
            len,
            z,
            (2 * n - 2) as nat,
        ) + x0 * pow(z, (2 * n - 2) as nat));
        assert(strided_sum(a, j, len, z, 2 * n) == strided_sum(a, j, len, z, (2 * n - 1) as nat)
            + x1 * pow(z, (2 * n - 1) as nat));
        assert((2 * n - 2) * len == (n - 1) * (2 * len)) by (nonlinear_arith);
        assert((2 * n - 1) * len == len + (n - 1) * (2 * len)) by (nonlinear_arith);
        assert(2 * m == 2 * n - 2 && 2 * m + 1 == 2 * n - 1);
        let b0 = strided_sum(a, j + len, 2 * len, w, m);
        assert(z * (b0 + x1 * p) == z * b0 + x1 * (z * p)) by (nonlinear_arith);
    }
}

/// Powers of congruent numbers are congruent.
pub proof fn lemma_eqm_pow(z1: int, z2: int, t: nat)
    requires
        eqm(z1, z2),
    ensures
        eqm(pow(z1, t), pow(z2, t)),
{
    lemma_pow_mod_noop(z1, t, q());
    lemma_pow_mod_noop(z2, t, q());
}

/// Sums at congruent numbers are congruent.
pub proof fn lemma_sum_at_congruent(a: Seq<int>, j: int, m: int, z1: int, z2: int, n: nat)
    requires
        eqm(z1, z2),
    ensures
        eqm(strided_sum(a, j, m, z1, n), strided_sum(a, j, m, z2, n)),
    decreases n,
{
    if n > 0 {
        let t = (n - 1) as nat;
        lemma_sum_at_congruent(a, j, m, z1, z2, t);
        lemma_eqm_pow(z1, z2, t);
        let x = a[j + (n - 1) * m];
        lemma_eqm_canon(x);
        lemma_eqm_mul(x, x, pow(z1, t), pow(z2, t));
        lemma_eqm_add(
            strided_sum(a, j, m, z1, t),
            strided_sum(a, j, m, z2, t),
            x * pow(z1, t),
            x * pow(z2, t),
        );
    }
}

/// The number of the root power of block `b` of the layer with blocks of
/// `len` coefficients.
pub open spec fn root_index(len: int, b: int) -> int {
    128int / len + b / 2
}

/// The root of block `b` of the layer with blocks of `len` coefficients:
/// the block holds its polynomial modulo `X^len` less this root.
pub open spec fn block_root(len: int, b: int) -> int {
    if b % 2 == 0 {
        zeta(root_index(len, b))
    } else {
        -zeta(root_index(len, b))
    }
}

/// What the coefficients `a` have become after the layers down to blocks
/// of `len` coefficients: every block holds the polynomial modulo `X^len`
/// less the root of the block.
pub open spec fn level_state(a: Seq<int>, len: int) -> Seq<int> {
    Seq::new(
        256,
        |i: int|
            canon(strided_sum(a, i % len, len, block_root(len, i / len), (256int / len) as nat)),
    )
}

proof fn lemma_level_index_128(i: int)
    requires
        0 <= i < 256,
    ensures
        0 <= i % 128 < 128,
        0 <= i / 128 < 2,
        i / 256 == (i / 128) / 2,
        1 <= 1 + (i / 128) / 2 < 256,
        (i / 128) % 2 == 0 ==> i % 256 == i % 128 && i + 128 < 256 && (i + 128) % 256 == i % 128 + 128 && (i + 128) / 256 == i / 256,
        (i / 128) % 2 != 0 ==> i % 256 == i % 128 + 128 && i - 128 >= 0 && (i - 128) % 256 == i % 128 && (i - 128) / 256 == i / 256,
        (i / 128) % 2 == 0 <==> i % 256 < 128,
        1 + (i / 128) / 2 == 1,
{
}

proof fn lemma_level_index_64(i: int)
    requires
        0 <= i < 256,
    ensures
        0 <= i % 64 < 64,
        0 <= i / 64 < 4,
        i / 128 == (i / 64) / 2,
        1 <= 2 + (i / 64) / 2 < 256,
        (i / 64) % 2 == 0 ==> i % 128 == i % 64 && i + 64 < 256 && (i + 64) % 128 == i % 64 + 64 && (i + 64) / 128 == i / 128,
        (i / 64) % 2 != 0 ==> i % 128 == i % 64 + 64 && i - 64 >= 0 && (i - 64) % 128 == i % 64 && (i - 64) / 128 == i / 128,
        (i / 64) % 2 == 0 <==> i % 128 < 64,
        (2 + (i / 64) / 2) / 2 == 1 + (i / 128) / 2,
        (2 + (i / 64) / 2) % 2 == (i / 128) % 2,
        2 + (i / 64) / 2 >= 2,
{
}

proof fn lemma_level_index_32(i: int)
    requires
        0 <= i < 256,
    ensures
        0 <= i % 32 < 32,
        0 <= i / 32 < 8,
        i / 64 == (i / 32) / 2,
        1 <= 4 + (i / 32) / 2 < 256,
        (i / 32) % 2 == 0 ==> i % 64 == i % 32 && i + 32 < 256 && (i + 32) % 64 == i % 32 + 32 && (i + 32) / 64 == i / 64,
        (i / 32) % 2 != 0 ==> i % 64 == i % 32 + 32 && i - 32 >= 0 && (i - 32) % 64 == i % 32 && (i - 32) / 64 == i / 64,
        (i / 32) % 2 == 0 <==> i % 64 < 32,
        (4 + (i / 32) / 2) / 2 == 2 + (i / 64) / 2,
        (4 + (i / 32) / 2) % 2 == (i / 64) % 2,
        4 + (i / 32) / 2 >= 2,
{
}

proof fn lemma_level_index_16(i: int)
    requires
        0 <= i < 256,
    ensures
        0 <= i % 16 < 16,
        0 <= i / 16 < 16,
        i / 32 == (i / 16) / 2,
        1 <= 8 + (i / 16) / 2 < 256,
        (i / 16) % 2 == 0 ==> i % 32 == i % 16 && i + 16 < 256 && (i + 16) % 32 == i % 16 + 16 && (i + 16) / 32 == i / 32,
        (i / 16) % 2 != 0 ==> i % 32 == i % 16 + 16 && i - 16 >= 0 && (i - 16) % 32 == i % 16 && (i - 16) / 32 == i / 32,
        (i / 16) % 2 == 0 <==> i % 32 < 16,
        (8 + (i / 16) / 2) / 2 == 4 + (i / 32) / 2,
        (8 + (i / 16) / 2) % 2 == (i / 32) % 2,
        8 + (i / 16) / 2 >= 2,
{
}

proof fn lemma_level_index_8(i: int)
    requires
        0 <= i < 256,
    ensures
        0 <= i % 8 < 8,
        0 <= i / 8 < 32,
        i / 16 == (i / 8) / 2,
        1 <= 16 + (i / 8) / 2 < 256,
        (i / 8) % 2 == 0 ==> i % 16 == i % 8 && i + 8 < 256 && (i + 8) % 16 == i % 8 + 8 && (i + 8) / 16 == i / 16,
        (i / 8) % 2 != 0 ==> i % 16 == i % 8 + 8 && i - 8 >= 0 && (i - 8) % 16 == i % 8 && (i - 8) / 16 == i / 16,
        (i / 8) % 2 == 0 <==> i % 16 < 8,
        (16 + (i / 8) / 2) / 2 == 8 + (i / 16) / 2,
        (16 + (i / 8) / 2) % 2 == (i / 16) % 2,
        16 + (i / 8) / 2 >= 2,
{
}

proof fn lemma_level_index_4(i: int)
    requires
        0 <= i < 256,
    ensures
        0 <= i % 4 < 4,
        0 <= i / 4 < 64,
        i / 8 == (i / 4) / 2,
        1 <= 32 + (i / 4) / 2 < 256,
        (i / 4) % 2 == 0 ==> i % 8 == i % 4 && i + 4 < 256 && (i + 4) % 8 == i % 4 + 4 && (i + 4) / 8 == i / 8,
        (i / 4) % 2 != 0 ==> i % 8 == i % 4 + 4 && i - 4 >= 0 && (i - 4) % 8 == i % 4 && (i - 4) / 8 == i / 8,
        (i / 4) % 2 == 0 <==> i % 8 < 4,
        (32 + (i / 4) / 2) / 2 == 16 + (i / 8) / 2,
        (32 + (i / 4) / 2) % 2 == (i / 8) % 2,
        32 + (i / 4) / 2 >= 2,
{
}

proof fn lemma_level_index_2(i: int)
    requires
        0 <= i < 256,
    ensures
        0 <= i % 2 < 2,
        0 <= i / 2 < 128,
        i / 4 == (i / 2) / 2,
        1 <= 64 + (i / 2) / 2 < 256,
        (i / 2) % 2 == 0 ==> i % 4 == i % 2 && i + 2 < 256 && (i + 2) % 4 == i % 2 + 2 && (i + 2) / 4 == i / 4,
        (i / 2) % 2 != 0 ==> i % 4 == i % 2 + 2 && i - 2 >= 0 && (i - 2) % 4 == i % 2 && (i - 2) / 4 == i / 4,
        (i / 2) % 2 == 0 <==> i % 4 < 2,
        (64 + (i / 2) / 2) / 2 == 32 + (i / 4) / 2,
        (64 + (i / 2) / 2) % 2 == (i / 4) % 2,
        64 + (i / 2) / 2 >= 2,
{
}

proof fn lemma_level_index_1(i: int)
    requires
        0 <= i < 256,
    ensures
        0 <= i % 1 < 1,
        0 <= i / 1 < 256,
        i / 2 == (i / 1) / 2,
        1 <= 128 + (i / 1) / 2 < 256,
        (i / 1) % 2 == 0 ==> i % 2 == i % 1 && i + 1 < 256 && (i + 1) % 2 == i % 1 + 1 && (i + 1) / 2 == i / 2,
        (i / 1) % 2 != 0 ==> i % 2 == i % 1 + 1 && i - 1 >= 0 && (i - 1) % 2 == i % 1 && (i - 1) / 2 == i / 2,
        (i / 1) % 2 == 0 <==> i % 2 < 1,
        (128 + (i / 1) / 2) / 2 == 64 + (i / 2) / 2,
        (128 + (i / 1) / 2) % 2 == (i / 2) % 2,
        128 + (i / 1) / 2 >= 2,
{
}

/// The places of an index in the layer with blocks of `len` coefficients
/// and in the layer above it.
proof fn lemma_level_index(i: int, len: int)
    requires
        is_layer_len(len),
        0 <= i < 256,
    ensures
        0 <= i % len < len,
        0 <= i / len < 256int / len,
        256int / len == 2 * (128int / len),
        256int / (2 * len) == 128int / len,
        128int / len >= 1,
        i / (2 * len) == (i / len) / 2,
        1 <= root_index(len, i / len) < 256,
        root_index(len, i / len) == 128int / len + i / (2 * len),
        (i / len) % 2 == 0 ==> i % (2 * len) == i % len && i + len < 256 && (i + len) % (2 * len)
            == i % len + len && (i + len) / (2 * len) == i / (2 * len),
        (i / len) % 2 != 0 ==> i % (2 * len) == i % len + len && i - len >= 0 && (i - len) % (2
            * len) == i % len && (i - len) / (2 * len) == i / (2 * len),
        (i / len) % 2 == 0 <==> i % (2 * len) < len,
        len < 128 ==> parent_root(root_index(len, i / len)) == block_root(2 * len, i / (2 * len)),
        len == 128 ==> root_index(len, i / len) == 1,
{
    if len == 128 {
        lemma_level_index_128(i);
        assert(i % len == i % 128 && i / len == i / 128);
        assert(128int / len == 1 && 256int / len == 2);
        assert(2 * len == 256 && 256int / (2 * len) == 1);
        assert(i % (2 * len) == i % 256 && i / (2 * len) == i / 256);
        assert((i + len) % (2 * len) == (i + 128) % 256 && (i + len) / (2 * len) == (i + 128) / 256);
        assert((i - len) % (2 * len) == (i - 128) % 256 && (i - len) / (2 * len) == (i - 128) / 256);
        assert(root_index(len, i / len) == 1 + (i / 128) / 2);
    } else if len == 64 {
        lemma_level_index_64(i);
        assert(i % len == i % 64 && i / len == i / 64);
        assert(128int / len == 2 && 256int / len == 4);
        assert(2 * len == 128 && 256int / (2 * len) == 2);
        assert(i % (2 * len) == i % 128 && i / (2 * len) == i / 128);
        assert((i + len) % (2 * len) == (i + 64) % 128 && (i + len) / (2 * len) == (i + 64) / 128);
        assert((i - len) % (2 * len) == (i - 64) % 128 && (i - len) / (2 * len) == (i - 64) / 128);
        assert(root_index(len, i / len) == 2 + (i / 64) / 2);
        assert(128int / (2 * len) == 1);
        assert(root_index(2 * len, i / (2 * len)) == 1 + (i / 128) / 2);
    } else if len == 32 {
        lemma_level_index_32(i);
        assert(i % len == i % 32 && i / len == i / 32);
        assert(128int / len == 4 && 256int / len == 8);
        assert(2 * len == 64 && 256int / (2 * len) == 4);
        assert(i % (2 * len) == i % 64 && i / (2 * len) == i / 64);
        assert((i + len) % (2 * len) == (i + 32) % 64 && (i + len) / (2 * len) == (i + 32) / 64);
        assert((i - len) % (2 * len) == (i - 32) % 64 && (i - len) / (2 * len) == (i - 32) / 64);
        assert(root_index(len, i / len) == 4 + (i / 32) / 2);
        assert(128int / (2 * len) == 2);
        assert(root_index(2 * len, i / (2 * len)) == 2 + (i / 64) / 2);
    } else if len == 16 {
        lemma_level_index_16(i);
        assert(i % len == i % 16 && i / len == i / 16);
        assert(128int / len == 8 && 256int / len == 16);
        assert(2 * len == 32 && 256int / (2 * len) == 8);
        assert(i % (2 * len) == i % 32 && i / (2 * len) == i / 32);
        assert((i + len) % (2 * len) == (i + 16) % 32 && (i + len) / (2 * len) == (i + 16) / 32);
        assert((i - len) % (2 * len) == (i - 16) % 32 && (i - len) / (2 * len) == (i - 16) / 32);
        assert(root_index(len, i / len) == 8 + (i / 16) / 2);
        assert(128int / (2 * len) == 4);
        assert(root_index(2 * len, i / (2 * len)) == 4 + (i / 32) / 2);
    } else if len == 8 {
        lemma_level_index_8(i);
        assert(i % len == i % 8 && i / len == i / 8);
        assert(128int / len == 16 && 256int / len == 32);
        assert(2 * len == 16 && 256int / (2 * len) == 16);
        assert(i % (2 * len) == i % 16 && i / (2 * len) == i / 16);
        assert((i + len) % (2 * len) == (i + 8) % 16 && (i + len) / (2 * len) == (i + 8) / 16);
        assert((i - len) % (2 * len) == (i - 8) % 16 && (i - len) / (2 * len) == (i - 8) / 16);
        assert(root_index(len, i / len) == 16 + (i / 8) / 2);
        assert(128int / (2 * len) == 8);
        assert(root_index(2 * len, i / (2 * len)) == 8 + (i / 16) / 2);
    } else if len == 4 {
        lemma_level_index_4(i);
        assert(i % len == i % 4 && i / len == i / 4);
        assert(128int / len == 32 && 256int / len == 64);
        assert(2 * len == 8 && 256int / (2 * len) == 32);
        assert(i % (2 * len) == i % 8 && i / (2 * len) == i / 8);
        assert((i + len) % (2 * len) == (i + 4) % 8 && (i + len) / (2 * len) == (i + 4) / 8);
        assert((i - len) % (2 * len) == (i - 4) % 8 && (i - len) / (2 * len) == (i - 4) / 8);
        assert(root_index(len, i / len) == 32 + (i / 4) / 2);
        assert(128int / (2 * len) == 16);
        assert(root_index(2 * len, i / (2 * len)) == 16 + (i / 8) / 2);
    } else if len == 2 {
        lemma_level_index_2(i);
        assert(i % len == i % 2 && i / len == i / 2);
        assert(128int / len == 64 && 256int / len == 128);
        assert(2 * len == 4 && 256int / (2 * len) == 64);
        assert(i % (2 * len) == i % 4 && i / (2 * len) == i / 4);
        assert((i + len) % (2 * len) == (i + 2) % 4 && (i + len) / (2 * len) == (i + 2) / 4);
        assert((i - len) % (2 * len) == (i - 2) % 4 && (i - len) / (2 * len) == (i - 2) / 4);
        assert(root_index(len, i / len) == 64 + (i / 2) / 2);
        assert(128int / (2 * len) == 32);
        assert(root_index(2 * len, i / (2 * len)) == 32 + (i / 4) / 2);
    } else if len == 1 {
        lemma_level_index_1(i);
        assert(i % len == i % 1 && i / len == i / 1);
        assert(128int / len == 128 && 256int / len == 256);
        assert(2 * len == 2 && 256int / (2 * len) == 128);
        assert(i % (2 * len) == i % 2 && i / (2 * len) == i / 2);
        assert((i + len) % (2 * len) == (i + 1) % 2 && (i + len) / (2 * len) == (i + 1) / 2);
        assert((i - len) % (2 * len) == (i - 1) % 2 && (i - len) / (2 * len) == (i - 1) / 2);
        assert(root_index(len, i / len) == 128 + (i / 1) / 2);
        assert(128int / (2 * len) == 64);
        assert(root_index(2 * len, i / (2 * len)) == 64 + (i / 2) / 2);
    }
}

/// One butterfly, as sums: where `x` and `y` are the sums of the block
/// above at the root `r`, and `z * z` is congruent to `r`, the sum of the
/// block below at `z` is `x + z * y`.
proof fn lemma_butterfly_sum(a: Seq<int>, j: int, len: int, z: int, r: int, n: nat)
    requires
        eqm(z * z, r),
    ensures
        eqm(
            strided_sum(a, j, len, z, 2 * n),
            canon(strided_sum(a, j, 2 * len, r, n)) + z * canon(
                strided_sum(a, j + len, 2 * len, r, n),
            ),
        ),
{
    let w = z * z;
    lemma_split(a, j, len, z, n);
    lemma_sum_at_congruent(a, j, 2 * len, w, r, n);
    lemma_sum_at_congruent(a, j + len, 2 * len, w, r, n);
    let x = strided_sum(a, j, 2 * len, r, n);
    let y = strided_sum(a, j + len, 2 * len, r, n);
    lemma_eqm_canon(x);
    lemma_eqm_canon(y);
    lemma_eqm_canon(z);
    lemma_eqm_mul(z, z, strided_sum(a, j + len, 2 * len, w, n), canon(y));
    lemma_eqm_add(
        strided_sum(a, j, 2 * len, w, n),
        canon(x),
        z * strided_sum(a, j + len, 2 * len, w, n),
        z * canon(y),
    );
}



/// The first layer splits the polynomial modulo `X^256 + 1` into its
/// remainders modulo `X^128` less and plus the first root power.
proof fn lemma_first_level(a: Seq<int>)
    requires
        a.len() == 256,
    ensures
        ntt_layer(a, 128) == level_state(a, 128),
{
    let z = zeta(1);
    lemma_pow0(z);
    lemma_pow1(z);
    lemma_pow0(-z);
    lemma_pow1(-z);
    assert forall|i: int| 0 <= i < 256 implies #[trigger] ntt_layer(a, 128)[i] == level_state(
        a,
        128,
    )[i] by {
        lemma_level_index(i, 128);
        reveal_with_fuel(strided_sum, 3);
        let j = i % 128;
        if i < 128 {
            assert(strided_sum(a, j, 128, z, 2) == a[j] * 1 + a[j + 128] * z);
            assert(a[j + 128] * z == z * a[j + 128]) by (nonlinear_arith);
        } else {
            assert(strided_sum(a, j, 128, -z, 2) == a[j] * 1 + a[j + 128] * (-z));
            assert(a[j + 128] * (-z) == -(z * a[j + 128])) by (nonlinear_arith);
        }
    }
    assert(ntt_layer(a, 128) =~= level_state(a, 128));
}

/// A layer splits every block into its remainders modulo `X^len` less and
/// plus a square root of the root of the block.
proof fn lemma_level_step(a: Seq<int>, len: int)
    requires
        is_layer_len(len),
        len < 128,
        a.len() == 256,
    ensures
        ntt_layer(level_state(a, 2 * len), len) == level_state(a, len),
{
    let st = level_state(a, 2 * len);
    assert forall|i: int| 0 <= i < 256 implies #[trigger] ntt_layer(st, len)[i] == level_state(
        a,
        len,
    )[i] by {
        lemma_level_index(i, len);
        let j = i % len;
        let n = (128int / len) as nat;
        let k = root_index(len, i / len);
        let z = zeta(k);
        let r = block_root(2 * len, i / (2 * len));
        lemma_zeta_square(k);
        let x = canon(strided_sum(a, j, 2 * len, r, n));
        let y = canon(strided_sum(a, j + len, 2 * len, r, n));
        if (i / len) % 2 == 0 {
            assert(st[i] == x);
            assert(st[i + len] == y);
            lemma_butterfly_sum(a, j, len, z, r, n);
        } else {
            assert(st[i - len] == x);
            assert(st[i] == y);
            assert((-z) * (-z) == z * z) by (nonlinear_arith);
            lemma_butterfly_sum(a, j, len, -z, r, n);
            assert(x + (-z) * y == x - z * y) by (nonlinear_arith);
        }
    }
    assert(ntt_layer(st, len) =~= level_state(a, len));
}

/// The transform of `a` holds, at every place, the polynomial modulo `X`
/// less the root of the place.
pub proof fn lemma_ntt_levels(a: Seq<int>)
    requires
        a.len() == 256,
    ensures
        ntt_spec(a) == level_state(a, 1),
{
    reveal(ntt_spec);
    lemma_first_level(a);
    lemma_level_step(a, 64);
    lemma_level_step(a, 32);
    lemma_level_step(a, 16);
    lemma_level_step(a, 8);
    lemma_level_step(a, 4);
    lemma_level_step(a, 2);
    lemma_level_step(a, 1);
}

/// The root at which entry `i` of a transform is the value of the
/// polynomial.
pub open spec fn point(i: int) -> int {
    block_root(1, i)
}

/// The transform evaluates: entry `i` of the transform of `a` is the value
/// of the polynomial `a` at the root of the place.
pub proof fn lemma_ntt_evaluates(a: Seq<int>, i: int)
    requires
        a.len() == 256,
        0 <= i < 256,
    ensures
        ntt_spec(a)[i] == eval(a, point(i)),
{
    lemma_ntt_levels(a);
    assert(i % 1 == 0 && i / 1 == i && 256int / 1 == 256);
}



/// The root of the block that holds index `i` in the layer with blocks of
/// `len` coefficients.
pub open spec fn level_root(i: int, len: int) -> int {
    block_root(len, i / len)
}

/// The square of the root of a block is the root of the block above; the
/// square of the roots of the first layer is -1.
proof fn lemma_root_square(i: int, len: int)
    requires
        is_layer_len(len),
        0 <= i < 256,
    ensures
        eqm(
            level_root(i, len) * level_root(i, len),
            if len == 128 {
                -1
            } else {
                level_root(i, 2 * len)
            },
        ),
{
    lemma_level_index(i, len);
    let k = root_index(len, i / len);
    let z = zeta(k);
    lemma_zeta_square(k);
    assert((-z) * (-z) == z * z) by (nonlinear_arith);
}

/// Where the square of `r` is congruent to `s`, an even power of `r` is
/// congruent to the power of `s` with half the exponent.
proof fn lemma_pow_halve(r: int, s: int, m: nat)
    requires
        eqm(r * r, s),
    ensures
        eqm(pow(r, 2 * m), pow(s, m)),
{
    lemma_pow_square(r, m);
    lemma_eqm_pow(r * r, s, m);
}

/// The roots of the places are roots of `X^256 + 1`.
pub proof fn lemma_point_order(i: int)
    requires
        0 <= i < 256,
    ensures
        eqm(pow(point(i), 256), -1),
{
    assert(i / 1 == i);
    lemma_root_square(i, 1);
    lemma_pow_halve(level_root(i, 1), level_root(i, 2), 128);
    lemma_root_square(i, 2);
    lemma_pow_halve(level_root(i, 2), level_root(i, 4), 64);
    lemma_root_square(i, 4);
    lemma_pow_halve(level_root(i, 4), level_root(i, 8), 32);
    lemma_root_square(i, 8);
    lemma_pow_halve(level_root(i, 8), level_root(i, 16), 16);
    lemma_root_square(i, 16);
    lemma_pow_halve(level_root(i, 16), level_root(i, 32), 8);
    lemma_root_square(i, 32);
    lemma_pow_halve(level_root(i, 32), level_root(i, 64), 4);
    lemma_root_square(i, 64);
    lemma_pow_halve(level_root(i, 64), level_root(i, 128), 2);
    lemma_root_square(i, 128);
    lemma_pow_halve(level_root(i, 128), -1, 1);
    lemma_pow1(-1);
}

/// The polynomial `b` times `X`, modulo `X^256 + 1`: the coefficients move
/// up by one place, and the highest comes back at the bottom with its sign
/// changed.
pub open spec fn mul_x(b: Seq<int>) -> Seq<int> {
    Seq::new(
        256,
        |k: int|
            if k == 0 {
                -b[255]
            } else {
                b[k - 1]
            },
    )
}

/// The polynomial `b` times `X^i`, modulo `X^256 + 1`.
pub open spec fn mul_x_power(b: Seq<int>, i: nat) -> Seq<int>
    decreases i,
{
    if i == 0 {
        b
    } else {
        mul_x(mul_x_power(b, (i - 1) as nat))
    }
}

/// The sum of `a[i] * X^i * b` over `i` below `n`, modulo `X^256 + 1` and
/// modulo `q`.
pub open spec fn ring_mul_upto(a: Seq<int>, b: Seq<int>, n: nat) -> Seq<int>
    decreases n,
{
    if n == 0 {
        zeros()
    } else {
        Seq::new(
            256,
            |k: int|
                canon(
                    ring_mul_upto(a, b, (n - 1) as nat)[k] + a[n - 1] * mul_x_power(
                        b,
                        (n - 1) as nat,
                    )[k],
                ),
        )
    }
}

/// The product of the polynomials `a` and `b` in the ring: modulo
/// `X^256 + 1` and modulo `q`.
pub open spec fn ring_mul(a: Seq<int>, b: Seq<int>) -> Seq<int> {
    ring_mul_upto(a, b, 256)
}

/// The value of `X * b` is `x` times the value of `b`, at a root `x` of
/// `X^256 + 1`.
proof fn lemma_mul_x_sum(b: Seq<int>, x: int, n: nat)
    requires
        1 <= n <= 256,
    ensures
        strided_sum(mul_x(b), 0, 1, x, n) == -b[255] + x * strided_sum(
            b,
            0,
            1,
            x,
            (n - 1) as nat,
        ),
    decreases n,
{
    reveal(pow);
    if n == 1 {
        reveal_with_fuel(strided_sum, 2);
        assert(pow(x, 0) == 1);
        assert(x * 0 == 0);
    } else {
        lemma_mul_x_sum(b, x, (n - 1) as nat);
        let t = (n - 2) as nat;
        let s = strided_sum(b, 0, 1, x, t);
        let c = b[n - 2];
        assert(mul_x(b)[n - 1] == c);
        assert(0 + (n - 1) * 1 == n - 1 && 0 + (n - 2) * 1 == n - 2);
        assert(pow(x, (n - 1) as nat) == x * pow(x, t));
        assert(x * (s + c * pow(x, t)) == x * s + c * (x * pow(x, t))) by (nonlinear_arith);
    }
}

/// The value of `X * b` at a root `x` of `X^256 + 1` is `x` times the
/// value of `b`.
proof fn lemma_mul_x_eval(b: Seq<int>, x: int)
    requires
        eqm(pow(x, 256), -1),
    ensures
        eqm(strided_sum(mul_x(b), 0, 1, x, 256), x * strided_sum(b, 0, 1, x, 256)),
{
    reveal(pow);
    lemma_mul_x_sum(b, x, 256);
    let s = strided_sum(b, 0, 1, x, 255);
    let c = b[255];
    assert(0 + (256 - 1) * 1 == 255);
    assert(strided_sum(b, 0, 1, x, 256) == s + c * pow(x, 255));
    assert(pow(x, 256) == x * pow(x, 255));
    assert(x * (s + c * pow(x, 255)) == x * s + c * pow(x, 256)) by (nonlinear_arith)
        requires
            pow(x, 256) == x * pow(x, 255),
    ;
    lemma_eqm_canon(c);
    lemma_eqm_mul(c, c, pow(x, 256), -1);
    lemma_eqm_canon(x * s);
    lemma_eqm_add(x * s, x * s, c * pow(x, 256), c * (-1));
    assert(x * s + c * (-1) == -c + x * s);
}

/// The value of `X^i * b` at a root `x` of `X^256 + 1` is `x^i` times the
/// value of `b`.
proof fn lemma_mul_x_power_eval(b: Seq<int>, x: int, i: nat)
    requires
        eqm(pow(x, 256), -1),
    ensures
        eqm(
            strided_sum(mul_x_power(b, i), 0, 1, x, 256),
            pow(x, i) * strided_sum(b, 0, 1, x, 256),
        ),
    decreases i,
{
    reveal(pow);
    let e = strided_sum(b, 0, 1, x, 256);
    if i == 0 {
        assert(pow(x, 0) * e == e) by (nonlinear_arith)
            requires
                pow(x, 0) == 1,
        ;
        lemma_eqm_canon(e);
    } else {
        let prev = mul_x_power(b, (i - 1) as nat);
        lemma_mul_x_power_eval(b, x, (i - 1) as nat);
        lemma_mul_x_eval(prev, x);
        let p = pow(x, (i - 1) as nat);
        lemma_eqm_canon(x);
        lemma_eqm_mul(x, x, strided_sum(prev, 0, 1, x, 256), p * e);
        assert(x * (p * e) == (x * p) * e) by (nonlinear_arith);
        assert(pow(x, i) == x * p);
    }
}

/// A sum goes through combinations of the coefficients.
proof fn lemma_sum_combination(u: Seq<int>, v: Seq<int>, c: int, w: Seq<int>, x: int, n: nat)
    requires
        n <= 256,
        forall|k: int| 0 <= k < 256 ==> eqm(#[trigger] u[k], v[k] + c * w[k]),
    ensures
        eqm(
            strided_sum(u, 0, 1, x, n),
            strided_sum(v, 0, 1, x, n) + c * strided_sum(w, 0, 1, x, n),
        ),
    decreases n,
{
    if n == 0 {
        assert(c * 0 == 0);
        lemma_eqm_canon(0);
    } else {
        let t = (n - 1) as nat;
        lemma_sum_combination(u, v, c, w, x, t);
        let p = pow(x, t);
        assert(0 + (n - 1) * 1 == n - 1);
        assert(eqm(u[n - 1], v[n - 1] + c * w[n - 1]));
        lemma_eqm_canon(p);
        lemma_eqm_mul(u[n - 1], v[n - 1] + c * w[n - 1], p, p);
        lemma_eqm_add(
            strided_sum(u, 0, 1, x, t),
            strided_sum(v, 0, 1, x, t) + c * strided_sum(w, 0, 1, x, t),
            u[n - 1] * p,
            (v[n - 1] + c * w[n - 1]) * p,
        );
        let sv = strided_sum(v, 0, 1, x, t);
        let sw = strided_sum(w, 0, 1, x, t);
        assert((sv + c * sw) + (v[n - 1] + c * w[n - 1]) * p == (sv + v[n - 1] * p) + c * (sw
            + w[n - 1] * p)) by (nonlinear_arith);
    }
}

/// The value of the zero polynomial is zero.
proof fn lemma_sum_zeros(x: int, n: nat)
    requires
        n <= 256,
    ensures
        strided_sum(zeros(), 0, 1, x, n) == 0,
    decreases n,
{
    if n > 0 {
        lemma_sum_zeros(x, (n - 1) as nat);
        assert(0 + (n - 1) * 1 == n - 1);
        assert(zeros()[n - 1] == 0);
        assert(0 * pow(x, (n - 1) as nat) == 0);
    }
}

/// The value of a product in the ring, at a root `x` of `X^256 + 1`, is
/// the product of the values.
proof fn lemma_ring_mul_eval(a: Seq<int>, b: Seq<int>, x: int, n: nat)
    requires
        n <= 256,
        eqm(pow(x, 256), -1),
    ensures
        eqm(
            strided_sum(ring_mul_upto(a, b, n), 0, 1, x, 256),
            strided_sum(a, 0, 1, x, n) * strided_sum(b, 0, 1, x, 256),
        ),
    decreases n,
{
    let e = strided_sum(b, 0, 1, x, 256);
    if n == 0 {
        lemma_sum_zeros(x, 256);
        assert(0 * e == 0);
        lemma_eqm_canon(0);
    } else {
        let t = (n - 1) as nat;
        let prev = ring_mul_upto(a, b, t);
        let sh = mul_x_power(b, t);
        let cur = ring_mul_upto(a, b, n);
        let c = a[n - 1];
        lemma_ring_mul_eval(a, b, x, t);
        lemma_mul_x_power_eval(b, x, t);
        assert forall|k: int| 0 <= k < 256 implies eqm(#[trigger] cur[k], prev[k] + c * sh[k]) by {
            lemma_eqm_canon(prev[k] + c * sh[k]);
        }
        lemma_sum_combination(cur, prev, c, sh, x, 256);
        let sa = strided_sum(a, 0, 1, x, t);
        let p = pow(x, t);
        lemma_eqm_canon(c);
        lemma_eqm_mul(c, c, strided_sum(sh, 0, 1, x, 256), p * e);
        lemma_eqm_add(
            strided_sum(prev, 0, 1, x, 256),
            sa * e,
            c * strided_sum(sh, 0, 1, x, 256),
            c * (p * e),
        );
        assert(0 + (n - 1) * 1 == n - 1);
        assert(sa * e + c * (p * e) == (sa + c * p) * e) by (nonlinear_arith);
    }
}

/// The transform turns products in the ring into products entry by entry.
pub proof fn lemma_ntt_of_product(a: Seq<int>, b: Seq<int>)
    requires
        a.len() == 256,
        b.len() == 256,
    ensures
        ntt_spec(ring_mul(a, b)) == pointwise(ntt_spec(a), ntt_spec(b)),
{
    let c = ring_mul(a, b);
    assert forall|i: int| 0 <= i < 256 implies #[trigger] ntt_spec(c)[i] == pointwise(
        ntt_spec(a),
        ntt_spec(b),
    )[i] by {
        let x = point(i);
        lemma_ntt_evaluates(c, i);
        lemma_ntt_evaluates(a, i);
        lemma_ntt_evaluates(b, i);
        lemma_point_order(i);
        lemma_ring_mul_eval(a, b, x, 256);
        let sa = strided_sum(a, 0, 1, x, 256);
        let sb = strided_sum(b, 0, 1, x, 256);
        lemma_eqm_canon(sa);
        lemma_eqm_canon(sb);
        lemma_eqm_mul(sa, canon(sa), sb, canon(sb));
    }
    crate::ntt::lemma_transform_canonical(c);
    assert(ntt_spec(c) =~= pointwise(ntt_spec(a), ntt_spec(b)));
}

/// Multiplying through the transform multiplies in the ring: the inverse
/// transform of the product, entry by entry, of the transforms of `a` and
/// `b` is the product of `a` and `b` modulo `X^256 + 1` and modulo `q`.
pub proof fn law_transform_multiplies(a: Seq<int>, b: Seq<int>)
    requires
        a.len() == 256,
        b.len() == 256,
    ensures
        intt_spec(pointwise(ntt_spec(a), ntt_spec(b))) == ring_mul(a, b),
{
    let c = ring_mul(a, b);
    lemma_ntt_of_product(a, b);
    lemma_intt_ntt(c);
    assert(is_canonical(c));
    lemma_scale_one(c);
}



/// Coefficient `k` of `X^i * b` modulo `X^256 + 1`: the coefficient of `b`
/// that `i` places bring to `k`, with its sign changed where it has come
/// round.
pub open spec fn shifted_coeff(b: Seq<int>, i: int, k: int) -> int {
    if i <= k {
        b[k - i]
    } else {
        -b[256 + k - i]
    }
}

/// The sum of `a[i]` times coefficient `k` of `X^i * b` over `i` below
/// `n`: for `n = 256`, coefficient `k` of the product of `a` and `b` modulo
/// `X^256 + 1`.
pub open spec fn convolution(a: Seq<int>, b: Seq<int>, k: int, n: nat) -> int
    decreases n,
{
    if n == 0 {
        0
    } else {
        convolution(a, b, k, (n - 1) as nat) + a[n - 1] * shifted_coeff(b, n - 1, k)
    }
}

/// The coefficients of `X^i * b`.
pub proof fn lemma_mul_x_power_coeff(b: Seq<int>, i: nat, k: int)
    requires
        b.len() == 256,
        i <= 256,
        0 <= k < 256,
    ensures
        mul_x_power(b, i)[k] == shifted_coeff(b, i as int, k),
    decreases i,
{
    if i > 0 {
        if k == 0 {
            lemma_mul_x_power_coeff(b, (i - 1) as nat, 255);
        } else {
            lemma_mul_x_power_coeff(b, (i - 1) as nat, k - 1);
        }
    }
}

/// The coefficients of the sums that make up a product in the ring.
pub proof fn lemma_ring_mul_coeff(a: Seq<int>, b: Seq<int>, n: nat, k: int)
    requires
        b.len() == 256,
        n <= 256,
        0 <= k < 256,
    ensures
        ring_mul_upto(a, b, n)[k] == canon(convolution(a, b, k, n)),
    decreases n,
{
    if n == 0 {
        assert(zeros()[k] == 0);
    } else {
        lemma_ring_mul_coeff(a, b, (n - 1) as nat, k);
        lemma_mul_x_power_coeff(b, (n - 1) as nat, k);
        lemma_canon_add(
            convolution(a, b, k, (n - 1) as nat),
            a[n - 1] * shifted_coeff(b, n - 1, k),
        );
    }
}

/// The product in the ring is the convolution with wrap-around and change
/// of sign: coefficient `k` of the product of `a` and `b` is the sum of
/// `a[i] * b[k - i]` over `i` up to `k`, less the sum of
/// `a[i] * b[256 + k - i]` over `i` above `k`, modulo `q`.
pub proof fn law_ring_mul_is_convolution(a: Seq<int>, b: Seq<int>, k: int)
    requires
        b.len() == 256,
        0 <= k < 256,
    ensures
        ring_mul(a, b)[k] == canon(convolution(a, b, k, 256)),
{
    lemma_ring_mul_coeff(a, b, 256, k);
}

/// Convolutions of congruent coefficients are congruent.
proof fn lemma_convolution_congruent(
    a: Seq<int>,
    b: Seq<int>,
    a2: Seq<int>,
    b2: Seq<int>,
    k: int,
    n: nat,
)
    requires
        n <= 256,
        0 <= k < 256,
        forall|i: int| 0 <= i < 256 ==> eqm(#[trigger] a[i], a2[i]),
        forall|i: int| 0 <= i < 256 ==> eqm(#[trigger] b[i], b2[i]),
    ensures
        eqm(convolution(a, b, k, n), convolution(a2, b2, k, n)),
    decreases n,
{
    if n == 0 {
        lemma_eqm_canon(0);
    } else {
        let i = n - 1;
        lemma_convolution_congruent(a, b, a2, b2, k, i as nat);
        assert(eqm(a[i], a2[i]));
        if i <= k {
            assert(eqm(b[k - i], b2[k - i]));
        } else {
            assert(eqm(b[256 + k - i], b2[256 + k - i]));
            lemma_eqm_canon(0);
            lemma_eqm_add(0, 0, b[256 + k - i], b2[256 + k - i]);
        }
        lemma_eqm_mul(a[i], a2[i], shifted_coeff(b, i, k), shifted_coeff(b2, i, k));
        lemma_eqm_add(
            convolution(a, b, k, i as nat),
            convolution(a2, b2, k, i as nat),
            a[i] * shifted_coeff(b, i, k),
            a2[i] * shifted_coeff(b2, i, k),
        );
    }
}

/// A convolution with signs and zeros is at most as large as the number of
/// signs times the bound of the other coefficients.
proof fn lemma_convolution_bound(c: Seq<int>, s: Seq<int>, b: int, k: int, n: nat)
    requires
        n <= 256,
        0 <= k < 256,
        0 <= b,
        forall|i: int| 0 <= i < 256 ==> -1 <= #[trigger] c[i] <= 1,
        forall|i: int| 0 <= i < 256 ==> -b <= #[trigger] s[i] <= b,
    ensures
        abs(convolution(c, s, k, n)) <= b * nonzeros(c, n),
        0 <= nonzeros(c, n),
    decreases n,
{
    if n > 0 {
        let i = n - 1;
        lemma_convolution_bound(c, s, b, k, i as nat);
        let x = shifted_coeff(s, i, k);
        assert(-b <= x <= b) by {
            if i <= k {
                assert(-b <= s[k - i] <= b);
            } else {
                assert(-b <= s[256 + k - i] <= b);
            }
        }
        assert(-1 <= c[i] <= 1);
        let m = nonzeros(c, i as nat);
        assert(b * (m + 1) == b * m + b) by (nonlinear_arith);
        let ci = c[i];
        if ci == 0 {
            assert(ci * x == 0) by (nonlinear_arith)
                requires
                    ci == 0,
            ;
        } else if ci == 1 {
            assert(ci * x == x) by (nonlinear_arith)
                requires
                    ci == 1,
            ;
        } else {
            assert(ci * x == -x) by (nonlinear_arith)
                requires
                    ci == -1,
            ;
        }
    }
}

/// The product of a polynomial of signs and zeros and a polynomial with
/// small coefficients has small coefficients: with `t` signs and
/// coefficients within `b`, none is larger than `t * b`, in its centered
/// representative, where `t * b` is below `q / 2`.
pub proof fn law_sparse_product_small(c: Seq<int>, s: Seq<int>, b: int, t: int, k: int)
    requires
        0 <= k < 256,
        0 <= b,
        c.len() == 256,
        s.len() == 256,
        forall|i: int| 0 <= i < 256 ==> -1 <= #[trigger] c[i] <= 1,
        forall|i: int| 0 <= i < 256 ==> -b <= #[trigger] s[i] <= b,
        nonzeros(c, 256) == t,
        b * t <= (q() - 1) / 2,
    ensures
        abs(centered(ring_mul(canon_all(c), canon_all(s))[k])) <= b * t,
{
    let cc = canon_all(c);
    let cs = canon_all(s);
    law_ring_mul_is_convolution(cc, cs, k);
    assert forall|i: int| 0 <= i < 256 implies eqm(#[trigger] cc[i], c[i]) by {
        lemma_eqm_canon(c[i]);
    }
    assert forall|i: int| 0 <= i < 256 implies eqm(#[trigger] cs[i], s[i]) by {
        lemma_eqm_canon(s[i]);
    }
    lemma_convolution_congruent(cc, cs, c, s, k, 256);
    lemma_convolution_bound(c, s, b, k, 256);
    let v = convolution(c, s, k, 256);
    assert(canon(convolution(cc, cs, k, 256)) == canon(v));
    assert(-(b * t) <= v <= b * t);
    lemma_eqm_canon(v);
}

} // verus!
