//! Vectors of ring elements and the matrix of the scheme.
use vstd::prelude::*;
use crate::ntt::{intt_spec, mont_r, ntt_spec, scale};
use crate::params::{K, L};
use crate::poly::{
    add_seq,
    can_add,
    can_sub,
    high_bits_all,
    hinted_high_bits_all,
    hints_all,
    lemma_can_add,
    lemma_sum_bounded,
    low_bits_all,
    norm_reaches,
    pointwise,
    poly_add,
    poly_chknorm,
    poly_decompose,
    poly_freeze,
    poly_invntt_tomont,
    poly_make_hint,
    poly_ntt,
    poly_pointwise_montgomery,
    poly_power2round,
    poly_reduce,
    poly_shiftl,
    poly_sub,
    poly_uniform,
    poly_uniform_eta,
    poly_uniform_gamma1,
    poly_use_hint,
    power2round_high_all,
    power2round_low_all,
    ring_add,
    ring_sub,
    sample_eta,
    sample_full,
    sample_gamma1,
    sample_uniform,
    shifted,
    sub_seq,
    weight,
    zeros,
    NttPoly,
    RingElement,
};
use crate::ring::{lemma_canon_add, lemma_canon_mul, q, r_inv};

verus! {

/// A vector of `M` ring elements, or of `M` transforms where `T` is set.
#[derive(Clone, Copy, Debug)]
pub struct Polyvec<const M: usize, const T: bool> {
    pub vec: [RingElement<T>; M],
}

/// A vector of `L` ring elements.
pub type Polyvecl = Polyvec<5, false>;

/// A vector of `K` ring elements.
pub type Polyveck = Polyvec<6, false>;

/// The transforms of a vector of `L` ring elements.
pub type NttPolyvecl = Polyvec<5, true>;

/// The transforms of a vector of `K` ring elements.
pub type NttPolyveck = Polyvec<6, true>;

impl<const M: usize, const T: bool> Polyvec<M, T> {
    /// The coefficients of the entries as mathematical integers.
    pub open spec fn ints(&self) -> Seq<Seq<int>> {
        Seq::new(M as nat, |i: int| self.vec@[i].ints())
    }

    /// The canonical residues of the coefficients of the entries.
    pub open spec fn residues(&self) -> Seq<Seq<int>> {
        Seq::new(M as nat, |i: int| self.vec@[i].residues())
    }

    /// Every coefficient lies strictly between `-b` and `b`.
    pub open spec fn bounded(&self, b: int) -> bool {
        forall|i: int| 0 <= i < M ==> (#[trigger] self.vec@[i]).bounded(b)
    }

    /// Every coefficient lies in `[lo, hi]`.
    pub open spec fn in_range(&self, lo: int, hi: int) -> bool {
        forall|i: int| 0 <= i < M ==> (#[trigger] self.vec@[i]).in_range(lo, hi)
    }
}

impl<const M: usize, const T: bool> Default for Polyvec<M, T> {
    fn default() -> (v: Polyvec<M, T>)
        ensures
            forall|i: int| 0 <= i < M ==> (#[trigger] v.vec@[i]).ints() == zeros(),
    {
        let p = RingElement::<T>::default();
        let mut v = Polyvec { vec: [p;M] };
        let mut i: usize = 0;
        while i < M
            invariant
                i <= M,
                p.ints() == zeros(),
                forall|j: int| 0 <= j < i ==> (#[trigger] v.vec@[j]) == p,
            decreases M - i,
        {
            v.vec[i] = p;
            i += 1;
        }
        v
    }
}

/// The forward transforms of the entries of `v`.
pub open spec fn ntt_vec(v: Seq<Seq<int>>) -> Seq<Seq<int>> {
    Seq::new(v.len(), |i: int| ntt_spec(v[i]))
}

/// The inverse transforms of the entries of `v`, times `2^32`.
pub open spec fn intt_mont_vec(v: Seq<Seq<int>>) -> Seq<Seq<int>> {
    Seq::new(v.len(), |i: int| scale(mont_r(), intt_spec(v[i])))
}

/// The entries of `v` times `2^D`.
pub open spec fn shifted_vec(v: Seq<Seq<int>>) -> Seq<Seq<int>> {
    Seq::new(v.len(), |i: int| shifted(v[i]))
}

/// The products of the transformed element `a` and the entries of `v`, divided by `2^32`.
pub open spec fn pointwise_mont_vec(a: Seq<int>, v: Seq<Seq<int>>) -> Seq<Seq<int>> {
    Seq::new(v.len(), |i: int| scale(r_inv(), pointwise(a, v[i])))
}

/// The sums of the entries of `u` and `v` over the integers.
pub open spec fn add_vec(u: Seq<Seq<int>>, v: Seq<Seq<int>>) -> Seq<Seq<int>> {
    Seq::new(u.len(), |i: int| add_seq(u[i], v[i]))
}

/// The differences of the entries of `u` and `v` over the integers.
pub open spec fn sub_vec(u: Seq<Seq<int>>, v: Seq<Seq<int>>) -> Seq<Seq<int>> {
    Seq::new(u.len(), |i: int| sub_seq(u[i], v[i]))
}

/// The sums of the entries of `u` and `v` in the ring.
pub open spec fn ring_add_vec(u: Seq<Seq<int>>, v: Seq<Seq<int>>) -> Seq<Seq<int>> {
    Seq::new(u.len(), |i: int| ring_add(u[i], v[i]))
}

/// The differences of the entries of `u` and `v` in the ring.
pub open spec fn ring_sub_vec(u: Seq<Seq<int>>, v: Seq<Seq<int>>) -> Seq<Seq<int>> {
    Seq::new(u.len(), |i: int| ring_sub(u[i], v[i]))
}

/// The high parts of the entries of `v` in the split at `2^D`.
pub open spec fn power2round_high_vec(v: Seq<Seq<int>>) -> Seq<Seq<int>> {
    Seq::new(v.len(), |i: int| power2round_high_all(v[i]))
}

/// The low parts of the entries of `v` in the split at `2^D`.
pub open spec fn power2round_low_vec(v: Seq<Seq<int>>) -> Seq<Seq<int>> {
    Seq::new(v.len(), |i: int| power2round_low_all(v[i]))
}

/// The high bits of the entries of `v`.
pub open spec fn high_bits_vec(v: Seq<Seq<int>>) -> Seq<Seq<int>> {
    Seq::new(v.len(), |i: int| high_bits_all(v[i]))
}

/// The low bits of the entries of `v`.
pub open spec fn low_bits_vec(v: Seq<Seq<int>>) -> Seq<Seq<int>> {
    Seq::new(v.len(), |i: int| low_bits_all(v[i]))
}

/// The hint bits for the low parts `w0` next to the high parts `w1`.
pub open spec fn hints_vec(w0: Seq<Seq<int>>, w1: Seq<Seq<int>>) -> Seq<Seq<int>> {
    Seq::new(w0.len(), |i: int| hints_all(w0[i], w1[i]))
}

/// The high bits of the entries of `w`, corrected by the hints `h`.
pub open spec fn hinted_high_bits_vec(w: Seq<Seq<int>>, h: Seq<Seq<int>>) -> Seq<Seq<int>> {
    Seq::new(w.len(), |i: int| hinted_high_bits_all(w[i], h[i]))
}

/// The number of ones in the first `n` entries of the hint vector `h`.
pub open spec fn weight_vec(h: Seq<Seq<int>>, n: nat) -> int
    decreases n,
{
    if n == 0 {
        0
    } else {
        weight_vec(h, (n - 1) as nat) + weight(h[n - 1], 256)
    }
}

/// Whether the infinity norm of the vector `v` reaches `b`.
pub open spec fn norm_reaches_vec(v: Seq<Seq<int>>, b: int) -> bool {
    exists|i: int| 0 <= i < v.len() && norm_reaches(#[trigger] v[i], b)
}

/// The sum of the products, entry by entry, of the first `n` transformed
/// elements of `u` and of `v`.
pub open spec fn dot(u: Seq<Seq<int>>, v: Seq<Seq<int>>, n: nat) -> Seq<int>
    decreases n,
{
    if n == 0 {
        zeros()
    } else {
        ring_add(dot(u, v, (n - 1) as nat), pointwise(u[n - 1], v[n - 1]))
    }
}

/// The product of the matrix `mat`, given by its rows, and the vector `v`,
/// all of them transformed.
pub open spec fn matrix_times(mat: Seq<Seq<Seq<int>>>, v: Seq<Seq<int>>) -> Seq<Seq<int>> {
    Seq::new(mat.len(), |i: int| dot(mat[i], v, 5))
}

/// `matrix_times`, divided by `2^32`.
pub open spec fn matrix_times_mont(mat: Seq<Seq<Seq<int>>>, v: Seq<Seq<int>>) -> Seq<Seq<int>> {
    Seq::new(mat.len(), |i: int| scale(r_inv(), dot(mat[i], v, 5)))
}

/// The matrix for the seed `rho`, by its rows, where the streams fill it:
/// entry `j` of row `i` is sampled with the nonce `256 * i + j`.
pub open spec fn expand_matrix(rho: Seq<u8>) -> Seq<Seq<Seq<int>>> {
    Seq::new(6, |i: int| Seq::new(5, |j: int| sample_uniform(rho, (256 * i + j) as u16)))
}

/// Whether the stream for the seed `rho` fills entry `j` of row `i` of the
/// matrix.
pub open spec fn matrix_entry_full(rho: Seq<u8>, i: int, j: int) -> bool {
    sample_full(rho, (256 * i + j) as u16, true)
}

/// Whether the streams for the seed `rho` fill every entry of the matrix.
pub open spec fn matrix_full(rho: Seq<u8>) -> bool {
    forall|i: int, j: int| 0 <= i < 6 && 0 <= j < 5 ==> #[trigger] matrix_entry_full(rho, i, j)
}

/// Whether the stream for `seed` fills entry `i` of the vector of short
/// elements with the nonces from `nonce` on.
pub open spec fn eta_entry_full(seed: Seq<u8>, nonce: u16, i: int) -> bool {
    sample_full(seed, (nonce + i) as u16, false)
}

/// Whether the streams for `seed` fill the vector of `m` short elements
/// with the nonces from `nonce` on.
pub open spec fn eta_vec_full(seed: Seq<u8>, nonce: u16, m: nat) -> bool {
    forall|i: int| 0 <= i < m ==> #[trigger] eta_entry_full(seed, nonce, i)
}

/// The rows of a matrix as mathematical integers.
pub open spec fn matrix_ints(mat: [NttPolyvecl; K]) -> Seq<Seq<Seq<int>>> {
    Seq::new(6, |i: int| mat@[i].ints())
}

/// The canonical residues of the rows of a matrix.
pub open spec fn matrix_residues(mat: [NttPolyvecl; K]) -> Seq<Seq<Seq<int>>> {
    Seq::new(6, |i: int| mat@[i].residues())
}

/// The vector of `m` short elements for `seed`, where the streams fill
/// it: entry `i` is sampled with the nonce `nonce + i`.
pub open spec fn sample_eta_vec(seed: Seq<u8>, nonce: u16, m: nat) -> Seq<Seq<int>> {
    Seq::new(m, |i: int| sample_eta(seed, (nonce + i) as u16))
}

/// The masking vector for `seed` and the attempt `nonce`: entry `i` is
/// sampled with the nonce `L * nonce + i`.
pub open spec fn sample_gamma1_vec(seed: Seq<u8>, nonce: u16) -> Seq<Seq<int>> {
    Seq::new(5, |i: int| sample_gamma1(seed, (5 * nonce + i) as u16))
}

/// Reduces every coefficient to a small centered representative.
pub fn polyvec_reduce<const M: usize, const T: bool>(v: &Polyvec<M, T>) -> (r: Polyvec<M, T>)
    requires
        v.in_range(-0x8000_0000, 0x7fff_ffff - 0x40_0000),
    ensures
        r.in_range(-6283009, 6283008),
        r.residues() =~= v.residues(),
{
    let mut r = *v;
    let mut i: usize = 0;
    while i < M
        invariant
            i <= M,
        v.in_range(-0x8000_0000, 0x7fff_ffff - 0x40_0000),
            forall|j: int|
                0 <= j < i ==> (#[trigger] r.vec@[j]).in_range(-6283009, 6283008) && r.vec@[j].residues() == v.vec@[j].residues(),
            forall|j: int| i <= j < M ==> r.vec@[j] == v.vec@[j],
        decreases M - i,
    {
        r.vec[i] = poly_reduce(&v.vec[i]);
        i += 1;
    }
    r
}

/// Brings every coefficient to its representative in `[0, q)`.
pub fn polyvec_freeze<const M: usize, const T: bool>(v: &Polyvec<M, T>) -> (r: Polyvec<M, T>)
    requires
        v.in_range(-0x8000_0000, 0x7fff_ffff - 0x40_0000),
    ensures
        r.in_range(0, 8380416),
        r.ints() =~= v.residues(),
        r.residues() =~= v.residues(),
{
    let mut r = *v;
    let mut i: usize = 0;
    while i < M
        invariant
            i <= M,
        v.in_range(-0x8000_0000, 0x7fff_ffff - 0x40_0000),
            forall|j: int|
                0 <= j < i ==> (#[trigger] r.vec@[j]).in_range(0, 8380416) && r.vec@[j].ints() == v.vec@[j].residues() && r.vec@[j].residues() == v.vec@[j].residues(),
            forall|j: int| i <= j < M ==> r.vec@[j] == v.vec@[j],
        decreases M - i,
    {
        r.vec[i] = poly_freeze(&v.vec[i]);
        i += 1;
    }
    r
}

/// The forward transform of every entry.
pub fn polyvec_ntt<const M: usize>(v: &Polyvec<M, false>) -> (r: Polyvec<M, true>)
    requires
        v.bounded(q()),
    ensures
        r.bounded(9 * q()),
        r.residues() =~= ntt_vec(v.residues()),
{
    let mut r = Polyvec::<M, true>::default();
    let mut i: usize = 0;
    while i < M
        invariant
            i <= M,
        v.bounded(q()),
            forall|j: int|
                0 <= j < i ==> (#[trigger] r.vec@[j]).bounded(9 * q()) && r.vec@[j].residues() == ntt_spec(v.vec@[j].residues()),
        decreases M - i,
    {
        r.vec[i] = poly_ntt(&v.vec[i]);
        i += 1;
    }
    r
}

/// The inverse transform of every entry, times `2^32`.
pub fn polyvec_invntt_tomont<const M: usize>(v: &Polyvec<M, true>) -> (r: Polyvec<M, false>)
    requires
        v.bounded(q()),
    ensures
        r.bounded(q()),
        r.residues() =~= intt_mont_vec(v.residues()),
{
    let mut r = Polyvec::<M, false>::default();
    let mut i: usize = 0;
    while i < M
        invariant
            i <= M,
        v.bounded(q()),
            forall|j: int|
                0 <= j < i ==> (#[trigger] r.vec@[j]).bounded(q()) && r.vec@[j].residues() == scale(mont_r(), intt_spec(v.vec@[j].residues())),
        decreases M - i,
    {
        r.vec[i] = poly_invntt_tomont(&v.vec[i]);
        i += 1;
    }
    r
}

/// Multiplies every coefficient by `2^D`.
pub fn polyvec_shiftl<const M: usize>(v: &Polyvec<M, false>) -> (r: Polyvec<M, false>)
    requires
        v.in_range(0, 1023),
    ensures
        r.in_range(0, 8380416),
        r.ints() =~= shifted_vec(v.ints()),
{
    let mut r = *v;
    let mut i: usize = 0;
    while i < M
        invariant
            i <= M,
        v.in_range(0, 1023),
            forall|j: int|
                0 <= j < i ==> (#[trigger] r.vec@[j]).in_range(0, 8380416) && r.vec@[j].ints() == shifted(v.vec@[j].ints()),
            forall|j: int| i <= j < M ==> r.vec@[j] == v.vec@[j],
        decreases M - i,
    {
        r.vec[i] = poly_shiftl(&v.vec[i]);
        i += 1;
    }
    r
}

/// The products of the transformed element `a` and every entry of `v`, divided by `2^32`.
pub fn polyvec_pointwise_poly_montgomery<const M: usize>(a: &NttPoly, v: &Polyvec<M, true>) -> (r: Polyvec<M, true>)
    requires
        a.bounded(9 * q()),
        v.bounded(9 * q()),
    ensures
        r.bounded(q()),
        r.residues() =~= pointwise_mont_vec(a.residues(), v.residues()),
{
    let mut r = *v;
    let mut i: usize = 0;
    while i < M
        invariant
            i <= M,
        a.bounded(9 * q()),
        v.bounded(9 * q()),
            forall|j: int|
                0 <= j < i ==> (#[trigger] r.vec@[j]).bounded(q()) && r.vec@[j].residues() == scale(r_inv(), pointwise(a.residues(), v.vec@[j].residues())),
            forall|j: int| i <= j < M ==> r.vec@[j] == v.vec@[j],
        decreases M - i,
    {
        r.vec[i] = poly_pointwise_montgomery(a, &v.vec[i]);
        i += 1;
    }
    r
}

/// Adds two vectors entry by entry, without reduction.
pub fn polyvec_add<const M: usize, const T: bool>(u: &Polyvec<M, T>, v: &Polyvec<M, T>) -> (r: Polyvec<M, T>)
    requires
        forall|i: int| 0 <= i < M ==> can_add(#[trigger] u.vec@[i], v.vec@[i]),
    ensures
        r.ints() =~= add_vec(u.ints(), v.ints()),
        r.residues() =~= ring_add_vec(u.residues(), v.residues()),
{
    let mut r = *u;
    let mut i: usize = 0;
    while i < M
        invariant
            i <= M,
            forall|j: int| 0 <= j < M ==> can_add(#[trigger] u.vec@[j], v.vec@[j]),
            forall|j: int|
                0 <= j < i ==> (#[trigger] r.vec@[j]).ints() == add_seq(
                    u.vec@[j].ints(),
                    v.vec@[j].ints(),
                ) && r.vec@[j].residues() == ring_add(
                    u.vec@[j].residues(),
                    v.vec@[j].residues(),
                ),
            forall|j: int| i <= j < M ==> r.vec@[j] == u.vec@[j],
        decreases M - i,
    {
        assert(can_add(u.vec@[i as int], v.vec@[i as int]));
        r.vec[i] = poly_add(&u.vec[i], &v.vec[i]);
        i += 1;
    }
    r
}

/// Subtracts two vectors entry by entry, without reduction.
pub fn polyvec_sub<const M: usize, const T: bool>(u: &Polyvec<M, T>, v: &Polyvec<M, T>) -> (r: Polyvec<M, T>)
    requires
        forall|i: int| 0 <= i < M ==> can_sub(#[trigger] u.vec@[i], v.vec@[i]),
    ensures
        r.ints() =~= sub_vec(u.ints(), v.ints()),
        r.residues() =~= ring_sub_vec(u.residues(), v.residues()),
{
    let mut r = *u;
    let mut i: usize = 0;
    while i < M
        invariant
            i <= M,
            forall|j: int| 0 <= j < M ==> can_sub(#[trigger] u.vec@[j], v.vec@[j]),
            forall|j: int|
                0 <= j < i ==> (#[trigger] r.vec@[j]).ints() == sub_seq(
                    u.vec@[j].ints(),
                    v.vec@[j].ints(),
                ) && r.vec@[j].residues() == ring_sub(
                    u.vec@[j].residues(),
                    v.vec@[j].residues(),
                ),
            forall|j: int| i <= j < M ==> r.vec@[j] == u.vec@[j],
        decreases M - i,
    {
        assert(can_sub(u.vec@[i as int], v.vec@[i as int]));
        r.vec[i] = poly_sub(&u.vec[i], &v.vec[i]);
        i += 1;
    }
    r
}

/// Vectors bounded by `x` and `y` can be added and subtracted where
/// `x + y` fits.
pub proof fn lemma_can_add_vec<const M: usize, const T: bool>(u: Polyvec<M, T>, v: Polyvec<M, T>, x: int, y: int)
    requires
        u.bounded(x),
        v.bounded(y),
        x + y <= 0x8000_0000,
    ensures
        forall|i: int| 0 <= i < M ==> can_add(#[trigger] u.vec@[i], v.vec@[i]),
        forall|i: int| 0 <= i < M ==> can_sub(#[trigger] u.vec@[i], v.vec@[i]),
{
    assert forall|i: int| 0 <= i < M implies can_add(#[trigger] u.vec@[i], v.vec@[i]) && can_sub(
        u.vec@[i],
        v.vec@[i],
    ) by {
        lemma_can_add(u.vec@[i], v.vec@[i], x, y);
    }
}

/// The sum and the difference of vectors bounded by `x` and `y` are
/// bounded by `x + y`.
pub proof fn lemma_sum_bounded_vec<const M: usize, const T: bool>(
    u: Polyvec<M, T>,
    v: Polyvec<M, T>,
    r: Polyvec<M, T>,
    x: int,
    y: int,
)
    requires
        u.bounded(x),
        v.bounded(y),
        r.ints() == add_vec(u.ints(), v.ints()) || r.ints() == sub_vec(u.ints(), v.ints()),
    ensures
        r.bounded(x + y),
{
    assert forall|i: int| 0 <= i < M implies (#[trigger] r.vec@[i]).bounded(x + y) by {
        assert(r.ints()[i] == r.vec@[i].ints());
        assert(u.ints()[i] == u.vec@[i].ints());
        assert(v.ints()[i] == v.vec@[i].ints());
        lemma_sum_bounded(u.vec@[i], v.vec@[i], r.vec@[i], x, y);
    }
}

/// A vector in `[lo, hi]` is bounded by any `b` above `-lo` and `hi`.
pub proof fn lemma_range_bounded_vec<const M: usize, const T: bool>(v: Polyvec<M, T>, lo: int, hi: int, b: int)
    requires
        v.in_range(lo, hi),
        -b < lo,
        hi < b,
    ensures
        v.bounded(b),
{
    assert forall|i: int| 0 <= i < M implies (#[trigger] v.vec@[i]).bounded(b) by {
        crate::poly::lemma_range_bounded(v.vec@[i], lo, hi, b);
    }
}

/// A vector bounded by `b` lies in `[-b + 1, b - 1]`, and in every wider
/// range.
pub proof fn lemma_bounded_range_vec<const M: usize, const T: bool>(v: Polyvec<M, T>, b: int, lo: int, hi: int)
    requires
        v.bounded(b),
        lo <= -b + 1,
        b - 1 <= hi,
    ensures
        v.in_range(lo, hi),
{
    assert forall|i: int| 0 <= i < M implies (#[trigger] v.vec@[i]).in_range(lo, hi) by {
        crate::poly::lemma_bounded_range(v.vec@[i], b, lo, hi);
    }
}

/// Splits every coefficient at `2^D`; returns the high and the low parts.
pub fn polyvec_power2round<const M: usize>(v: &Polyvec<M, false>) -> (r: (Polyvec<M, false>, Polyvec<M, false>))
    requires
        v.in_range(0, 8380416),
    ensures
        r.0.ints() =~= power2round_high_vec(v.ints()),
        r.1.ints() =~= power2round_low_vec(v.ints()),
        r.0.in_range(0, 1023),
        r.1.in_range(-4095, 4096),
{
    let mut hi = *v;
    let mut lo = *v;
    let mut i: usize = 0;
    while i < M
        invariant
            i <= M,
            v.in_range(0, 8380416),
            forall|j: int|
                0 <= j < i ==> (#[trigger] hi.vec@[j]).ints() == power2round_high_all(v.vec@[j].ints())
                    && hi.vec@[j].in_range(0, 1023),
            forall|j: int|
                0 <= j < i ==> (#[trigger] lo.vec@[j]).ints() == power2round_low_all(v.vec@[j].ints())
                    && lo.vec@[j].in_range(-4095, 4096),
            forall|j: int| i <= j < M ==> hi.vec@[j] == v.vec@[j],
            forall|j: int| i <= j < M ==> lo.vec@[j] == v.vec@[j],
        decreases M - i,
    {
        let (a1, a0) = poly_power2round(&v.vec[i]);
        hi.vec[i] = a1;
        lo.vec[i] = a0;
        i += 1;
    }
    (hi, lo)
}

/// Splits every coefficient into high and low bits; returns the high and the low parts.
pub fn polyvec_decompose<const M: usize>(v: &Polyvec<M, false>) -> (r: (Polyvec<M, false>, Polyvec<M, false>))
    requires
        v.in_range(0, 8380416),
    ensures
        r.0.ints() =~= high_bits_vec(v.ints()),
        r.1.ints() =~= low_bits_vec(v.ints()),
        r.0.in_range(0, 15),
        r.1.in_range(-261888, 261888),
{
    let mut hi = *v;
    let mut lo = *v;
    let mut i: usize = 0;
    while i < M
        invariant
            i <= M,
            v.in_range(0, 8380416),
            forall|j: int|
                0 <= j < i ==> (#[trigger] hi.vec@[j]).ints() == high_bits_all(v.vec@[j].ints())
                    && hi.vec@[j].in_range(0, 15),
            forall|j: int|
                0 <= j < i ==> (#[trigger] lo.vec@[j]).ints() == low_bits_all(v.vec@[j].ints())
                    && lo.vec@[j].in_range(-261888, 261888),
            forall|j: int| i <= j < M ==> hi.vec@[j] == v.vec@[j],
            forall|j: int| i <= j < M ==> lo.vec@[j] == v.vec@[j],
        decreases M - i,
    {
        let (a1, a0) = poly_decompose(&v.vec[i]);
        hi.vec[i] = a1;
        lo.vec[i] = a0;
        i += 1;
    }
    (hi, lo)
}

/// The hint bits for the low parts `w0` next to the high parts `w1`, and
/// the number of ones among them.
pub fn polyvec_make_hint<const M: usize>(w0: &Polyvec<M, false>, w1: &Polyvec<M, false>) -> (r: (
    Polyvec<M, false>,
    usize,
))
    requires
        M <= 16,
    ensures
        r.0.ints() =~= hints_vec(w0.ints(), w1.ints()),
        r.0.in_range(0, 1),
        r.1 == weight_vec(r.0.ints(), M as nat),
{
    let mut h = *w0;
    let mut n: usize = 0;
    let mut i: usize = 0;
    while i < M
        invariant
            i <= M <= 16,
            n <= 256 * i,
            forall|j: int|
                0 <= j < i ==> (#[trigger] h.vec@[j]).ints() == hints_all(
                    w0.vec@[j].ints(),
                    w1.vec@[j].ints(),
                ) && h.vec@[j].in_range(0, 1),
            forall|j: int| i <= j < M ==> h.vec@[j] == w0.vec@[j],
            n == weight_vec(hints_vec(w0.ints(), w1.ints()), i as nat),
        decreases M - i,
    {
        let (hp, np) = poly_make_hint(&w0.vec[i], &w1.vec[i]);
        h.vec[i] = hp;
        n = n + np;
        i += 1;
    }
    assert(h.ints() =~= hints_vec(w0.ints(), w1.ints()));
    (h, n)
}

/// The high bits of every coefficient of `w`, corrected by the hints `h`.
pub fn polyvec_use_hint<const M: usize>(w: &Polyvec<M, false>, h: &Polyvec<M, false>) -> (r: Polyvec<M, false>)
    requires
        w.in_range(0, 8380416),
    ensures
        r.ints() =~= hinted_high_bits_vec(w.ints(), h.ints()),
        r.in_range(0, 15),
{
    let mut r = *w;
    let mut i: usize = 0;
    while i < M
        invariant
            i <= M,
            w.in_range(0, 8380416),
            forall|j: int|
                0 <= j < i ==> (#[trigger] r.vec@[j]).ints() == hinted_high_bits_all(
                    w.vec@[j].ints(),
                    h.vec@[j].ints(),
                ) && r.vec@[j].in_range(0, 15),
            forall|j: int| i <= j < M ==> r.vec@[j] == w.vec@[j],
        decreases M - i,
    {
        r.vec[i] = poly_use_hint(&w.vec[i], &h.vec[i]);
        i += 1;
    }
    r
}

/// Whether the infinity norm of `v` reaches `b`.
pub fn polyvec_chknorm<const M: usize>(v: &Polyvec<M, false>, b: i32) -> (r: bool)
    requires
        v.in_range(-6283009, 6283008),
        0 < b <= (q() - 1) / 8,
    ensures
        r == norm_reaches_vec(v.residues(), b as int),
        !r ==> v.bounded(b as int),
{
    let mut i: usize = 0;
    while i < M
        invariant
            i <= M,
            v.in_range(-6283009, 6283008),
            0 < b <= (q() - 1) / 8,
            forall|j: int| 0 <= j < i ==> !norm_reaches(#[trigger] v.residues()[j], b as int),
            forall|j: int| 0 <= j < i ==> (#[trigger] v.vec@[j]).bounded(b as int),
        decreases M - i,
    {
        assert(v.residues()[i as int] == v.vec@[i as int].residues());
        if poly_chknorm(&v.vec[i], b) {
            return true;
        }
        i += 1;
    }
    false
}

/// Dividing by `2^32` goes through sums and differences.
pub proof fn lemma_scale_add(a: Seq<int>, b: Seq<int>)
    requires
        a.len() == 256,
        b.len() == 256,
    ensures
        ring_add(scale(r_inv(), a), scale(r_inv(), b)) == scale(r_inv(), ring_add(a, b)),
        ring_sub(scale(r_inv(), a), scale(r_inv(), b)) == scale(r_inv(), ring_sub(a, b)),
{
    assert forall|i: int| 0 <= i < 256 implies #[trigger] ring_add(
        scale(r_inv(), a),
        scale(r_inv(), b),
    )[i] == scale(r_inv(), ring_add(a, b))[i] by {
        let x = a[i];
        let y = b[i];
        lemma_canon_add(r_inv() * x, r_inv() * y);
        assert(r_inv() * x + r_inv() * y == r_inv() * (x + y));
        lemma_canon_mul(r_inv(), x + y);
    }
    assert forall|i: int| 0 <= i < 256 implies #[trigger] ring_sub(
        scale(r_inv(), a),
        scale(r_inv(), b),
    )[i] == scale(r_inv(), ring_sub(a, b))[i] by {
        let x = a[i];
        let y = b[i];
        crate::ring::lemma_canon_sub(r_inv() * x, r_inv() * y);
        assert(r_inv() * x - r_inv() * y == r_inv() * (x - y));
        lemma_canon_mul(r_inv(), x - y);
    }
    assert(ring_add(scale(r_inv(), a), scale(r_inv(), b)) =~= scale(r_inv(), ring_add(a, b)));
    assert(ring_sub(scale(r_inv(), a), scale(r_inv(), b)) =~= scale(r_inv(), ring_sub(a, b)));
}

/// The sum of the products, entry by entry, of the transformed elements of
/// `u` and of `v`, each divided by `2^32`.
pub fn polyvecl_pointwise_acc_montgomery(u: &NttPolyvecl, v: &NttPolyvecl) -> (w: NttPoly)
    requires
        u.bounded(9 * q()),
        v.bounded(9 * q()),
    ensures
        w.bounded(5 * q()),
        w.residues() == scale(r_inv(), dot(u.residues(), v.residues(), 5)),
{
    let mut w = poly_pointwise_montgomery(&u.vec[0], &v.vec[0]);
    proof {
        let d1 = dot(u.residues(), v.residues(), 1);
        let first = pointwise(u.residues()[0], v.residues()[0]);
        assert(d1 =~= first) by {
            reveal_with_fuel(dot, 2);
            assert forall|i: int| 0 <= i < 256 implies d1[i] == first[i] by {
                assert(zeros()[i] == 0);
            }
        }
    }
    let mut i: usize = 1;
    while i < L
        invariant
            1 <= i <= L,
            u.bounded(9 * q()),
            v.bounded(9 * q()),
            w.bounded(i * q()),
            w.residues() == scale(r_inv(), dot(u.residues(), v.residues(), i as nat)),
        decreases L - i,
    {
        let t = poly_pointwise_montgomery(&u.vec[i], &v.vec[i]);
        proof {
            lemma_can_add(w, t, i * q(), q());
        }
        let sum = poly_add(&w, &t);
        proof {
            lemma_sum_bounded(w, t, sum, i * q(), q());
            let d = dot(u.residues(), v.residues(), i as nat);
            let p = pointwise(u.residues()[i as int], v.residues()[i as int]);
            lemma_scale_add(d, p);
        }
        w = sum;
        i += 1;
    }
    w
}

/// The matrix for the seed `rho`; `None` where a stream does not fill its
/// entry.
pub fn polyvec_matrix_expand(rho: &[u8]) -> (r: Option<[NttPolyvecl; K]>)
    ensures
        match r {
            Some(mat) => {
                &&& matrix_full(rho@)
                &&& matrix_ints(mat) == expand_matrix(rho@)
                &&& forall|i: int| 0 <= i < 6 ==> (#[trigger] mat@[i]).in_range(0, 8380416)
            },
            None => !matrix_full(rho@),
        },
{
    let mut mat = [NttPolyvecl::default();K];
    let mut i: usize = 0;
    while i < K
        invariant
            i <= K,
            forall|k: int|
                0 <= k < i ==> (#[trigger] mat@[k]).ints() == expand_matrix(rho@)[k]
                    && mat@[k].in_range(0, 8380416),
            forall|k: int, l: int|
                0 <= k < i && 0 <= l < 5 ==> #[trigger] matrix_entry_full(rho@, k, l),
        decreases K - i,
    {
        let mut row = NttPolyvecl::default();
        let mut j: usize = 0;
        while j < L
            invariant
                i < K,
                j <= L,
                forall|l: int|
                    0 <= l < j ==> (#[trigger] row.vec@[l]).ints() == sample_uniform(
                        rho@,
                        (256 * i + l) as u16,
                    ) && row.vec@[l].in_range(0, 8380416),
                forall|l: int| 0 <= l < j ==> #[trigger] matrix_entry_full(rho@, i as int, l),
            decreases L - j,
        {
            match poly_uniform(rho, (256 * i + j) as u16) {
                Some(a) => {
                    row.vec[j] = a;
                },
                None => {
                    assert(!matrix_entry_full(rho@, i as int, j as int));
                    return None;
                },
            }
            j += 1;
        }
        assert(row.ints() =~= expand_matrix(rho@)[i as int]);
        mat[i] = row;
        i += 1;
    }
    assert(matrix_ints(mat) =~= expand_matrix(rho@));
    Some(mat)
}

/// The product of the matrix and the transformed vector `v`, divided by
/// `2^32`.
pub fn polyvec_matrix_pointwise_montgomery(mat: &[NttPolyvecl; K], v: &NttPolyvecl) -> (t: NttPolyveck)
    requires
        forall|i: int| 0 <= i < 6 ==> (#[trigger] mat@[i]).bounded(9 * q()),
        v.bounded(9 * q()),
    ensures
        t.bounded(5 * q()),
        t.residues() == matrix_times_mont(matrix_residues(*mat), v.residues()),
{
    let mut t = NttPolyveck::default();
    let mut i: usize = 0;
    while i < K
        invariant
            i <= K,
            forall|k: int| 0 <= k < 6 ==> (#[trigger] mat@[k]).bounded(9 * q()),
            v.bounded(9 * q()),
            forall|k: int|
                0 <= k < i ==> (#[trigger] t.vec@[k]).bounded(5 * q()) && t.vec@[k].residues()
                    == scale(r_inv(), dot(mat@[k].residues(), v.residues(), 5)),
        decreases K - i,
    {
        t.vec[i] = polyvecl_pointwise_acc_montgomery(&mat[i], v);
        i += 1;
    }
    assert(t.residues() =~= matrix_times_mont(matrix_residues(*mat), v.residues()));
    t
}

/// The vector of short elements for `seed`, with the nonces from `nonce`
/// on; `None` where a stream does not fill its entry.
pub fn polyvec_uniform_eta<const M: usize>(seed: &[u8], nonce: u16) -> (r: Option<
    Polyvec<M, false>,
>)
    requires
        nonce + M <= 0xffff,
    ensures
        match r {
            Some(v) => {
                &&& eta_vec_full(seed@, nonce, M as nat)
                &&& v.ints() == sample_eta_vec(seed@, nonce, M as nat)
                &&& v.in_range(-4, 4)
            },
            None => !eta_vec_full(seed@, nonce, M as nat),
        },
{
    let mut v = Polyvec::<M, false>::default();
    let mut i: usize = 0;
    while i < M
        invariant
            i <= M,
            nonce + M <= 0xffff,
            forall|j: int|
                0 <= j < i ==> (#[trigger] v.vec@[j]).ints() == sample_eta(
                    seed@,
                    (nonce + j) as u16,
                ) && v.vec@[j].in_range(-4, 4),
            forall|j: int| 0 <= j < i ==> #[trigger] eta_entry_full(seed@, nonce, j),
        decreases M - i,
    {
        match poly_uniform_eta(seed, nonce + (i as u16)) {
            Some(a) => {
                v.vec[i] = a;
            },
            None => {
                assert(!eta_entry_full(seed@, nonce, i as int));
                return None;
            },
        }
        i += 1;
    }
    assert(v.ints() =~= sample_eta_vec(seed@, nonce, M as nat));
    Some(v)
}

/// The masking vector for `seed` and the attempt `nonce`.
pub fn polyvecl_uniform_gamma1(seed: &[u8], nonce: u16) -> (v: Polyvecl)
    requires
        5 * nonce + 5 <= 0x1_0000,
    ensures
        v.ints() == sample_gamma1_vec(seed@, nonce),
        v.in_range(-524287, 524288),
{
    let mut v = Polyvecl::default();
    let mut i: usize = 0;
    while i < L
        invariant
            i <= L,
            5 * nonce + 5 <= 0x1_0000,
            forall|j: int|
                0 <= j < i ==> (#[trigger] v.vec@[j]).ints() == sample_gamma1(
                    seed@,
                    (5 * nonce + j) as u16,
                ) && v.vec@[j].in_range(-524287, 524288),
        decreases L - i,
    {
        v.vec[i] = poly_uniform_gamma1(seed, 5 * nonce + (i as u16));
        i += 1;
    }
    assert(v.ints() =~= sample_gamma1_vec(seed@, nonce));
    v
}

} // verus!
