//! Ring elements: polynomials with `N` coefficients, their arithmetic,
//! rounding, norm, packing and sampling. A ring element and its transform
//! are values of two types, so that the one is never taken for the other.
use vstd::prelude::*;
use vstd::arithmetic::power::pow;
use crate::digits::{
    all_digits,
    as_bytes,
    as_ints,
    digit_ints,
    group_value,
    le_value,
    lemma_regroup_len,
    pack_digits,
    regroup,
    unpack_digits,
};
use crate::ntt::{at, intt_spec, invntt_tomont, mont_r, ntt, ntt_spec, scale};
use crate::params::{N, Q, TAU};
use crate::symmetric::{
    advance,
    hashes_for,
    init_state,
    lemma_advance_add,
    squeezed,
    stream128_init,
    stream128_squeezeblocks,
    stream256_init,
    stream256_squeezeblocks,
    State,
};
use crate::reduce::{freeze, montgomery_reduce, reduce32};
use crate::ring::{abs, bounded, canon, centered, in_range, ints, lemma_canon_add, lemma_canon_mul, lemma_canon_sub, q, r_inv, residues};
use crate::rounding::{
    decompose,
    high_bits,
    hint_of,
    hinted_high_bits,
    low_bits,
    make_hint,
    power2round,
    power2round_high,
    power2round_low,
    use_hint,
};

verus! {

/// A ring element by its coefficients, or the transform of one by its
/// entries. The tag tells which: where `T` is set, the entries are those
/// of a transform. Only the transforms turn the one into the other.
#[derive(Clone, Copy, Debug)]
pub struct RingElement<const T: bool> {
    pub coeffs: [i32; N],
}

/// A ring element, by its coefficients.
pub type Poly = RingElement<false>;

/// The transform of a ring element, by its entries.
pub type NttPoly = RingElement<true>;

impl<const T: bool> RingElement<T> {
    /// The coefficients as mathematical integers.
    pub open spec fn ints(&self) -> Seq<int> {
        ints(self.coeffs@)
    }

    /// The canonical residues of the coefficients.
    pub open spec fn residues(&self) -> Seq<int> {
        residues(self.coeffs@)
    }

    /// Every coefficient lies strictly between `-b` and `b`.
    pub open spec fn bounded(&self, b: int) -> bool {
        bounded(self.coeffs@, b)
    }

    /// Every coefficient lies in `[lo, hi]`.
    pub open spec fn in_range(&self, lo: int, hi: int) -> bool {
        in_range(self.coeffs@, lo, hi)
    }
}

impl<const T: bool> Default for RingElement<T> {
    fn default() -> (p: RingElement<T>)
        ensures
            p.ints() == zeros(),
            forall|i: int| 0 <= i < 256 ==> #[trigger] p.coeffs@[i] == 0,
    {
        let p = RingElement { coeffs: [0i32; N] };
        assert(p.ints() =~= zeros());
        p
    }
}

/// The zero polynomial.
pub open spec fn zeros() -> Seq<int> {
    Seq::new(256, |i: int| 0int)
}

/// The sum of two polynomials over the integers.
pub open spec fn add_seq(a: Seq<int>, b: Seq<int>) -> Seq<int> {
    Seq::new(256, |i: int| a[i] + b[i])
}

/// The difference of two polynomials over the integers.
pub open spec fn sub_seq(a: Seq<int>, b: Seq<int>) -> Seq<int> {
    Seq::new(256, |i: int| a[i] - b[i])
}

/// The sum of two ring elements.
pub open spec fn ring_add(a: Seq<int>, b: Seq<int>) -> Seq<int> {
    Seq::new(256, |i: int| canon(a[i] + b[i]))
}

/// The difference of two ring elements.
pub open spec fn ring_sub(a: Seq<int>, b: Seq<int>) -> Seq<int> {
    Seq::new(256, |i: int| canon(a[i] - b[i]))
}

/// The product of two transformed ring elements, entry by entry.
pub open spec fn pointwise(a: Seq<int>, b: Seq<int>) -> Seq<int> {
    Seq::new(256, |i: int| canon(a[i] * b[i]))
}

/// The representatives in `[0, q)` of the coefficients `a`.
pub open spec fn canon_all(a: Seq<int>) -> Seq<int> {
    Seq::new(256, |i: int| canon(a[i]))
}

/// The coefficients `a` times `2^D`.
pub open spec fn shifted(a: Seq<int>) -> Seq<int> {
    Seq::new(256, |i: int| a[i] * 8192)
}

/// The high parts of the coefficients `a` in the split at `2^D`.
pub open spec fn power2round_high_all(a: Seq<int>) -> Seq<int> {
    Seq::new(256, |i: int| power2round_high(a[i]))
}

/// The low parts of the coefficients `a` in the split at `2^D`.
pub open spec fn power2round_low_all(a: Seq<int>) -> Seq<int> {
    Seq::new(256, |i: int| power2round_low(a[i]))
}

/// The high bits of the coefficients `a`.
pub open spec fn high_bits_all(a: Seq<int>) -> Seq<int> {
    Seq::new(256, |i: int| high_bits(a[i]))
}

/// The low bits of the coefficients `a`.
pub open spec fn low_bits_all(a: Seq<int>) -> Seq<int> {
    Seq::new(256, |i: int| low_bits(a[i]))
}

/// The hint bits for the low parts `a0` next to the high parts `a1`.
pub open spec fn hints_all(a0: Seq<int>, a1: Seq<int>) -> Seq<int> {
    Seq::new(256, |i: int| if hint_of(a0[i], a1[i]) { 1int } else { 0int })
}

/// The high bits of the coefficients `a`, corrected by the hints `h`.
pub open spec fn hinted_high_bits_all(a: Seq<int>, h: Seq<int>) -> Seq<int> {
    Seq::new(256, |i: int| hinted_high_bits(a[i], h[i] != 0))
}

/// The sum of the first `n` entries of `h`: the number of ones among them,
/// where `h` holds hint bits.
pub open spec fn weight(h: Seq<int>, n: nat) -> int
    decreases n,
{
    if n == 0 {
        0
    } else {
        weight(h, (n - 1) as nat) + h[n - 1]
    }
}

/// Whether some coefficient of `a` has a centered representative of
/// absolute value `b` or more: whether the infinity norm reaches `b`.
pub open spec fn norm_reaches(a: Seq<int>, b: int) -> bool {
    exists|i: int| 0 <= i < a.len() && abs(centered(#[trigger] a[i])) >= b
}

/// Reduces every coefficient to a small centered representative.
pub fn poly_reduce<const T: bool>(a: &RingElement<T>) -> (r: RingElement<T>)
    requires
        a.in_range(-0x8000_0000, 0x7fff_ffff - 0x40_0000),
    ensures
        r.in_range(-6283009, 6283008),
        r.residues() == a.residues(),
{
    let mut r = *a;
    let mut i: usize = 0;
    while i < N
        invariant
            i <= N,
            a.in_range(-0x8000_0000, 0x7fff_ffff - 0x40_0000),
            forall|j: int|
                0 <= j < i ==> -6283009 <= #[trigger] r.coeffs@[j] <= 6283008 && canon(
                    r.coeffs@[j] as int,
                ) == canon(a.coeffs@[j] as int),
            forall|j: int| i <= j < 256 ==> r.coeffs@[j] == a.coeffs@[j],
        decreases N - i,
    {
        r.coeffs[i] = reduce32(a.coeffs[i]);
        i += 1;
    }
    assert(r.residues() =~= a.residues());
    r
}

/// Brings every coefficient to its representative in `[0, q)`.
pub fn poly_freeze<const T: bool>(a: &RingElement<T>) -> (r: RingElement<T>)
    requires
        a.in_range(-0x8000_0000, 0x7fff_ffff - 0x40_0000),
    ensures
        r.ints() == a.residues(),
        r.residues() == a.residues(),
        r.in_range(0, 8380416),
{
    let mut r = *a;
    let mut i: usize = 0;
    while i < N
        invariant
            i <= N,
            a.in_range(-0x8000_0000, 0x7fff_ffff - 0x40_0000),
            forall|j: int| 0 <= j < i ==> #[trigger] r.coeffs@[j] == canon(a.coeffs@[j] as int),
            forall|j: int| i <= j < 256 ==> r.coeffs@[j] == a.coeffs@[j],
        decreases N - i,
    {
        r.coeffs[i] = freeze(a.coeffs[i]);
        i += 1;
    }
    assert(r.ints() =~= a.residues());
    assert(r.residues() =~= a.residues());
    r
}

/// The sums of the coefficients of `a` and `b` fit a machine integer.
pub open spec fn can_add<const T: bool>(a: RingElement<T>, b: RingElement<T>) -> bool {
    forall|i: int|
        0 <= i < 256 ==> -0x8000_0000 <= #[trigger] a.coeffs@[i] + b.coeffs@[i] <= 0x7fff_ffff
}

/// The differences of the coefficients of `a` and `b` fit a machine
/// integer.
pub open spec fn can_sub<const T: bool>(a: RingElement<T>, b: RingElement<T>) -> bool {
    forall|i: int|
        0 <= i < 256 ==> -0x8000_0000 <= #[trigger] a.coeffs@[i] - b.coeffs@[i] <= 0x7fff_ffff
}

/// Polynomials bounded by `x` and `y` can be added and subtracted where
/// `x + y` fits.
pub proof fn lemma_can_add<const T: bool>(a: RingElement<T>, b: RingElement<T>, x: int, y: int)
    requires
        a.bounded(x),
        b.bounded(y),
        x + y <= 0x8000_0000,
    ensures
        can_add(a, b),
        can_sub(a, b),
{
    assert forall|i: int| 0 <= i < 256 implies -0x8000_0000 <= #[trigger] a.coeffs@[i]
        + b.coeffs@[i] <= 0x7fff_ffff by {
        assert(-x < a.coeffs@[i] < x);
        assert(-y < b.coeffs@[i] < y);
    }
    assert forall|i: int| 0 <= i < 256 implies -0x8000_0000 <= #[trigger] a.coeffs@[i]
        - b.coeffs@[i] <= 0x7fff_ffff by {
        assert(-x < a.coeffs@[i] < x);
        assert(-y < b.coeffs@[i] < y);
    }
}

/// The sum and the difference of polynomials bounded by `x` and `y` are
/// bounded by `x + y`.
pub proof fn lemma_sum_bounded<const T: bool>(a: RingElement<T>, b: RingElement<T>, r: RingElement<T>, x: int, y: int)
    requires
        a.bounded(x),
        b.bounded(y),
        r.ints() == add_seq(a.ints(), b.ints()) || r.ints() == sub_seq(a.ints(), b.ints()),
    ensures
        r.bounded(x + y),
{
    assert forall|i: int| 0 <= i < 256 implies -(x + y) < #[trigger] r.coeffs@[i] < x + y by {
        assert(-x < a.coeffs@[i] < x);
        assert(-y < b.coeffs@[i] < y);
        assert(r.ints()[i] == r.coeffs@[i]);
        assert(a.ints()[i] == a.coeffs@[i]);
        assert(b.ints()[i] == b.coeffs@[i]);
    }
}

/// A polynomial in `[lo, hi]` is bounded by any `b` above `-lo` and `hi`.
pub proof fn lemma_range_bounded<const T: bool>(a: RingElement<T>, lo: int, hi: int, b: int)
    requires
        a.in_range(lo, hi),
        -b < lo,
        hi < b,
    ensures
        a.bounded(b),
{
    assert forall|i: int| 0 <= i < 256 implies -b < #[trigger] a.coeffs@[i] < b by {
        assert(lo <= a.coeffs@[i] <= hi);
    }
}

/// A polynomial bounded by `b` lies in `[-b + 1, b - 1]`, and in every
/// wider range.
pub proof fn lemma_bounded_range<const T: bool>(a: RingElement<T>, b: int, lo: int, hi: int)
    requires
        a.bounded(b),
        lo <= -b + 1,
        b - 1 <= hi,
    ensures
        a.in_range(lo, hi),
{
    assert forall|i: int| 0 <= i < 256 implies lo <= #[trigger] a.coeffs@[i] <= hi by {
        assert(-b < a.coeffs@[i] < b);
    }
}

/// Adds two polynomials coefficient by coefficient, without reduction.
pub fn poly_add<const T: bool>(a: &RingElement<T>, b: &RingElement<T>) -> (r: RingElement<T>)
    requires
        can_add(*a, *b),
    ensures
        r.ints() == add_seq(a.ints(), b.ints()),
        r.residues() == ring_add(a.residues(), b.residues()),
{
    let mut r = *a;
    let mut i: usize = 0;
    while i < N
        invariant
            i <= N,
            can_add(*a, *b),
            forall|j: int| 0 <= j < i ==> r.coeffs@[j] == a.coeffs@[j] + b.coeffs@[j],
            forall|j: int| i <= j < 256 ==> r.coeffs@[j] == a.coeffs@[j],
        decreases N - i,
    {
        assert(-0x8000_0000 <= a.coeffs@[i as int] + b.coeffs@[i as int] <= 0x7fff_ffff);
        r.coeffs[i] = a.coeffs[i] + b.coeffs[i];
        i += 1;
    }
    assert(r.ints() =~= add_seq(a.ints(), b.ints()));
    assert forall|i: int| 0 <= i < 256 implies #[trigger] r.residues()[i] == ring_add(
        a.residues(),
        b.residues(),
    )[i] by {
        lemma_canon_add(a.coeffs@[i] as int, b.coeffs@[i] as int);
    }
    assert(r.residues() =~= ring_add(a.residues(), b.residues()));
    r
}

/// Subtracts two polynomials coefficient by coefficient, without
/// reduction.
pub fn poly_sub<const T: bool>(a: &RingElement<T>, b: &RingElement<T>) -> (r: RingElement<T>)
    requires
        can_sub(*a, *b),
    ensures
        r.ints() == sub_seq(a.ints(), b.ints()),
        r.residues() == ring_sub(a.residues(), b.residues()),
{
    let mut r = *a;
    let mut i: usize = 0;
    while i < N
        invariant
            i <= N,
            can_sub(*a, *b),
            forall|j: int| 0 <= j < i ==> r.coeffs@[j] == a.coeffs@[j] - b.coeffs@[j],
            forall|j: int| i <= j < 256 ==> r.coeffs@[j] == a.coeffs@[j],
        decreases N - i,
    {
        assert(-0x8000_0000 <= a.coeffs@[i as int] - b.coeffs@[i as int] <= 0x7fff_ffff);
        r.coeffs[i] = a.coeffs[i] - b.coeffs[i];
        i += 1;
    }
    assert(r.ints() =~= sub_seq(a.ints(), b.ints()));
    assert forall|i: int| 0 <= i < 256 implies #[trigger] r.residues()[i] == ring_sub(
        a.residues(),
        b.residues(),
    )[i] by {
        lemma_canon_sub(a.coeffs@[i] as int, b.coeffs@[i] as int);
    }
    assert(r.residues() =~= ring_sub(a.residues(), b.residues()));
    r
}

/// Multiplies every coefficient by `2^D`.
pub fn poly_shiftl(a: &Poly) -> (r: Poly)
    requires
        a.in_range(0, 1023),
    ensures
        r.ints() == shifted(a.ints()),
        r.in_range(0, 8380416),
{
    let mut r = *a;
    let mut i: usize = 0;
    while i < N
        invariant
            i <= N,
            a.in_range(0, 1023),
            forall|j: int| 0 <= j < i ==> #[trigger] r.coeffs@[j] == a.coeffs@[j] * 8192,
            forall|j: int| i <= j < 256 ==> r.coeffs@[j] == a.coeffs@[j],
        decreases N - i,
    {
        r.coeffs[i] = a.coeffs[i] * 8192;
        i += 1;
    }
    assert(r.ints() =~= shifted(a.ints()));
    r
}

/// The transform of the ring element `a`.
pub fn poly_ntt(a: &Poly) -> (r: NttPoly)
    requires
        a.bounded(q()),
    ensures
        r.bounded(9 * q()),
        r.residues() == ntt_spec(a.residues()),
{
    RingElement { coeffs: ntt(&a.coeffs) }
}

/// The ring element with the transform `a`, times `2^32`.
pub fn poly_invntt_tomont(a: &NttPoly) -> (r: Poly)
    requires
        a.bounded(q()),
    ensures
        r.bounded(q()),
        r.residues() == scale(mont_r(), intt_spec(a.residues())),
{
    RingElement { coeffs: invntt_tomont(&a.coeffs) }
}

/// The product of two transformed polynomials, entry by entry, divided by
/// `2^32`.
pub fn poly_pointwise_montgomery(a: &NttPoly, b: &NttPoly) -> (r: NttPoly)
    requires
        a.bounded(9 * q()),
        b.bounded(9 * q()),
    ensures
        r.bounded(q()),
        r.residues() == scale(r_inv(), pointwise(a.residues(), b.residues())),
{
    let mut r = *a;
    let mut i: usize = 0;
    while i < N
        invariant
            i <= N,
            a.bounded(9 * q()),
            b.bounded(9 * q()),
            forall|j: int|
                0 <= j < i ==> -q() < #[trigger] r.coeffs@[j] < q() && canon(r.coeffs@[j] as int)
                    == canon(r_inv() * canon(canon(a.coeffs@[j] as int) * canon(b.coeffs@[j] as int))),
            forall|j: int| i <= j < 256 ==> r.coeffs@[j] == a.coeffs@[j],
        decreases N - i,
    {
        let x: i32 = a.coeffs[i];
        let y: i32 = b.coeffs[i];
        assert(-(81 * q() * q()) < x * y < 81 * q() * q()) by (nonlinear_arith)
            requires
                -(9 * q()) < x < 9 * q(),
                -(9 * q()) < y < 9 * q(),
        ;
        let t: i32 = montgomery_reduce((x as i64) * (y as i64));
        proof {
            lemma_canon_mul(x as int, y as int);
            assert(x * y * r_inv() == r_inv() * (x * y)) by (nonlinear_arith);
            lemma_canon_mul(r_inv(), x * y);
            lemma_canon_mul(r_inv(), canon(x as int) * canon(y as int));
        }
        r.coeffs[i] = t;
        i += 1;
    }
    assert(r.residues() =~= scale(r_inv(), pointwise(a.residues(), b.residues())));
    r
}

/// Splits every coefficient at `2^D`; returns the high and the low parts.
pub fn poly_power2round(a: &Poly) -> (r: (Poly, Poly))
    requires
        a.in_range(0, 8380416),
    ensures
        r.0.ints() == power2round_high_all(a.ints()),
        r.1.ints() == power2round_low_all(a.ints()),
        r.0.in_range(0, 1023),
        r.1.in_range(-4095, 4096),
{
    let mut a1 = *a;
    let mut a0 = *a;
    let mut i: usize = 0;
    while i < N
        invariant
            i <= N,
            a.in_range(0, 8380416),
            forall|j: int|
                0 <= j < i ==> #[trigger] a1.coeffs@[j] == power2round_high(a.coeffs@[j] as int)
                    && 0 <= a1.coeffs@[j] <= 1023,
            forall|j: int|
                0 <= j < i ==> #[trigger] a0.coeffs@[j] == power2round_low(a.coeffs@[j] as int)
                    && -4095 <= a0.coeffs@[j] <= 4096,
            forall|j: int| i <= j < 256 ==> a1.coeffs@[j] == a.coeffs@[j],
            forall|j: int| i <= j < 256 ==> a0.coeffs@[j] == a.coeffs@[j],
        decreases N - i,
    {
        let (hi, lo) = power2round(a.coeffs[i]);
        a1.coeffs[i] = hi;
        a0.coeffs[i] = lo;
        i += 1;
    }
    assert(a1.ints() =~= power2round_high_all(a.ints()));
    assert(a0.ints() =~= power2round_low_all(a.ints()));
    (a1, a0)
}

/// Splits every coefficient into high and low bits; returns the high and
/// the low parts.
pub fn poly_decompose(a: &Poly) -> (r: (Poly, Poly))
    requires
        a.in_range(0, 8380416),
    ensures
        r.0.ints() == high_bits_all(a.ints()),
        r.1.ints() == low_bits_all(a.ints()),
        r.0.in_range(0, 15),
        r.1.in_range(-261888, 261888),
{
    let mut a1 = *a;
    let mut a0 = *a;
    let mut i: usize = 0;
    while i < N
        invariant
            i <= N,
            a.in_range(0, 8380416),
            forall|j: int|
                0 <= j < i ==> #[trigger] a1.coeffs@[j] == high_bits(a.coeffs@[j] as int) && 0
                    <= a1.coeffs@[j] <= 15,
            forall|j: int|
                0 <= j < i ==> #[trigger] a0.coeffs@[j] == low_bits(a.coeffs@[j] as int)
                    && -261888 <= a0.coeffs@[j] <= 261888,
            forall|j: int| i <= j < 256 ==> a1.coeffs@[j] == a.coeffs@[j],
            forall|j: int| i <= j < 256 ==> a0.coeffs@[j] == a.coeffs@[j],
        decreases N - i,
    {
        let (hi, lo) = decompose(a.coeffs[i]);
        a1.coeffs[i] = hi;
        a0.coeffs[i] = lo;
        i += 1;
    }
    assert(a1.ints() =~= high_bits_all(a.ints()));
    assert(a0.ints() =~= low_bits_all(a.ints()));
    (a1, a0)
}

/// The hint bits for the low parts `a0` next to the high parts `a1`, and
/// the number of ones among them.
pub fn poly_make_hint(a0: &Poly, a1: &Poly) -> (r: (Poly, usize))
    ensures
        r.0.ints() == hints_all(a0.ints(), a1.ints()),
        r.0.in_range(0, 1),
        r.1 == weight(r.0.ints(), 256),
        r.1 <= 256,
{
    let mut h = *a0;
    let mut n: usize = 0;
    let mut i: usize = 0;
    while i < N
        invariant
            i <= N,
            n <= i,
            forall|j: int|
                0 <= j < i ==> #[trigger] h.coeffs@[j] == (if hint_of(
                    a0.coeffs@[j] as int,
                    a1.coeffs@[j] as int,
                ) {
                    1int
                } else {
                    0int
                }),
            forall|j: int| i <= j < 256 ==> h.coeffs@[j] == a0.coeffs@[j],
            n == weight(hints_all(a0.ints(), a1.ints()), i as nat),
        decreases N - i,
    {
        let bit: i32 = make_hint(a0.coeffs[i], a1.coeffs[i]);
        h.coeffs[i] = bit;
        n = n + (bit as usize);
        i += 1;
    }
    assert(h.ints() =~= hints_all(a0.ints(), a1.ints()));
    (h, n)
}

/// The high bits of every coefficient of `a`, corrected by the hint in
/// `h`.
pub fn poly_use_hint(a: &Poly, h: &Poly) -> (r: Poly)
    requires
        a.in_range(0, 8380416),
    ensures
        r.ints() == hinted_high_bits_all(a.ints(), h.ints()),
        r.in_range(0, 15),
{
    let mut r = *a;
    let mut i: usize = 0;
    while i < N
        invariant
            i <= N,
            a.in_range(0, 8380416),
            forall|j: int|
                0 <= j < i ==> #[trigger] r.coeffs@[j] == hinted_high_bits(
                    a.coeffs@[j] as int,
                    h.coeffs@[j] != 0,
                ) && 0 <= r.coeffs@[j] <= 15,
            forall|j: int| i <= j < 256 ==> r.coeffs@[j] == a.coeffs@[j],
        decreases N - i,
    {
        r.coeffs[i] = use_hint(a.coeffs[i], h.coeffs[i]);
        i += 1;
    }
    assert(r.ints() =~= hinted_high_bits_all(a.ints(), h.ints()));
    r
}

/// Whether the infinity norm of `a` reaches `b`. The absolute values are
/// taken without a branch; the answer comes with the first coefficient
/// that reaches `b`.
pub fn poly_chknorm(a: &Poly, b: i32) -> (r: bool)
    requires
        a.in_range(-6283009, 6283008),
        0 < b <= (q() - 1) / 8,
    ensures
        r == norm_reaches(a.residues(), b as int),
        !r ==> a.bounded(b as int),
{
    let mut i: usize = 0;
    while i < N
        invariant
            i <= N,
            a.in_range(-6283009, 6283008),
            0 < b <= (q() - 1) / 8,
            forall|j: int| 0 <= j < i ==> abs(centered(#[trigger] a.residues()[j])) < b,
            forall|j: int| 0 <= j < i ==> -b < #[trigger] a.coeffs@[j] < b,
        decreases N - i,
    {
        let x: i32 = a.coeffs[i];
        let twice: i32 = 2 * x;
        let mask: i32 = (x >> 31) & twice;
        proof {
            assert((x >> 31) & twice == if x < 0 { twice } else { 0i32 }) by (bit_vector);
        }
        let t: i32 = x - mask;
        assert(a.residues()[i as int] == canon(x as int));
        if t >= b {
            assert(abs(centered(a.residues()[i as int])) >= b);
            return true;
        }
        i += 1;
    }
    false
}



/// The coefficients `c` mirrored at `top`: `top - c[i]` in place of `c[i]`.
pub open spec fn mirrored(c: Seq<int>, top: int) -> Seq<int> {
    Seq::new(c.len(), |i: int| top - c[i])
}

/// The bytes that hold the digits `d` in `base`, tightly packed: `n_in`
/// digits fill `n_out` bytes.
pub open spec fn packed(d: Seq<int>, base: int, n_in: nat, n_out: nat) -> Seq<u8> {
    as_bytes(regroup(d, base, 256, n_in, n_out))
}

/// The digits in `base` that the bytes `b` hold, tightly packed: `n_in`
/// bytes hold `n_out` digits.
pub open spec fn unpacked(b: Seq<u8>, base: int, n_in: nat, n_out: nat) -> Seq<int> {
    regroup(as_ints(b), 256, base, n_in, n_out)
}

/// The numbers that the groups of each packing hold.
pub proof fn lemma_group_sizes()
    ensures
        pow(16, 2) == pow(256, 1) == 0x100,
        pow(1024, 4) == pow(256, 5) == 0x100_0000_0000,
        pow(1048576, 2) == pow(256, 5),
        pow(8192, 8) == pow(256, 13) == 0x1_0000_0000_0000_0000_0000_0000_00,
{
    reveal_with_fuel(pow, 14);
}

/// The coefficients of `a`, mirrored at `top` where `mirror` is set, as
/// digits.
fn poly_digits(a: &Poly, top: i32, mirror: bool, base: u32) -> (d: Vec<u32>)
    requires
        mirror ==> a.in_range(top - base + 1, top as int),
        !mirror ==> a.in_range(0, base - 1),
        -0x1000_0000 <= top <= 0x1000_0000,
        base <= 0x1000_0000,
    ensures
        digit_ints(d@) == if mirror {
            mirrored(a.ints(), top as int)
        } else {
            a.ints()
        },
        all_digits(digit_ints(d@), base as int),
        d@.len() == 256,
{
    let mut d: Vec<u32> = Vec::new();
    let mut i: usize = 0;
    while i < N
        invariant
            i <= N,
            d@.len() == i,
            mirror ==> a.in_range(top - base + 1, top as int),
            !mirror ==> a.in_range(0, base - 1),
            -0x1000_0000 <= top <= 0x1000_0000,
            base <= 0x1000_0000,
            forall|j: int|
                0 <= j < i ==> #[trigger] d@[j] == (if mirror {
                    top - a.coeffs@[j]
                } else {
                    a.coeffs@[j] as int
                }) && d@[j] < base,
        decreases N - i,
    {
        let c: i32 = a.coeffs[i];
        let v: i32 = if mirror { top - c } else { c };
        d.push(v as u32);
        i += 1;
    }
    assert(digit_ints(d@) =~= if mirror {
        mirrored(a.ints(), top as int)
    } else {
        a.ints()
    });
    d
}

/// The polynomial whose coefficients are the digits `d`, mirrored at `top`
/// where `mirror` is set.
fn poly_from_digits(d: &Vec<u32>, top: i32, mirror: bool, base: u32) -> (a: Poly)
    requires
        d@.len() == 256,
        all_digits(digit_ints(d@), base as int),
        0 <= top <= 0x1000_0000,
        base <= 0x1000_0000,
    ensures
        a.ints() == if mirror {
            mirrored(digit_ints(d@), top as int)
        } else {
            digit_ints(d@)
        },
        mirror ==> a.in_range(top - base + 1, top as int),
        !mirror ==> a.in_range(0, base - 1),
{
    let mut a = Poly::default();
    let mut i: usize = 0;
    while i < N
        invariant
            i <= N,
            d@.len() == 256,
            all_digits(digit_ints(d@), base as int),
            0 <= top <= 0x1000_0000,
            base <= 0x1000_0000,
            forall|j: int|
                0 <= j < i ==> #[trigger] a.coeffs@[j] == (if mirror {
                    top - d@[j]
                } else {
                    d@[j] as int
                }),
        decreases N - i,
    {
        assert(0 <= digit_ints(d@)[i as int] < base);
        let v: i32 = d[i] as i32;
        a.coeffs[i] = if mirror { top - v } else { v };
        i += 1;
    }
    assert(a.ints() =~= if mirror {
        mirrored(digit_ints(d@), top as int)
    } else {
        digit_ints(d@)
    });
    assert forall|j: int| 0 <= j < 256 implies (mirror ==> top - base + 1 <= #[trigger] a.coeffs@[j]
        <= top) && (!mirror ==> 0 <= a.coeffs@[j] <= base - 1) by {
        assert(0 <= digit_ints(d@)[j] < base);
    }
    a
}

/// Appends to `out` the 128 bytes that hold the coefficients of `a`, which
/// lie in `[-ETA, ETA]`: four bits each, for `ETA - a[i]`.
pub fn polyeta_pack(a: &Poly, out: &mut Vec<u8>)
    requires
        a.in_range(-4, 4),
    ensures
        final(out)@ == old(out)@ + packed(mirrored(a.ints(), 4), 16, 2, 1),
        final(out)@.len() == old(out)@.len() + 128,
{
    proof {
        lemma_group_sizes();
        lemma_regroup_len(mirrored(a.ints(), 4), 16, 256, 2, 1, 128);
    }
    let d = poly_digits(a, 4, true, 16);
    pack_digits(d.as_slice(), 16, 2, 1, out);
}

/// The polynomial that 128 bytes hold at four bits a coefficient; its
/// coefficients lie in `[-11, 4]`.
pub fn polyeta_unpack(bytes: &[u8]) -> (a: Poly)
    requires
        bytes@.len() == 128,
    ensures
        a.ints() == mirrored(unpacked(bytes@, 16, 1, 2), 4),
        a.in_range(-11, 4),
{
    proof {
        lemma_regroup_len(as_ints(bytes@), 256, 16, 1, 2, 128);
    }
    let d = unpack_digits(bytes, 16, 1, 2);
    poly_from_digits(&d, 4, true, 16)
}

/// Appends to `out` the 320 bytes that hold the coefficients of `a`, which
/// lie in `[0, 1024)`: ten bits each.
pub fn polyt1_pack(a: &Poly, out: &mut Vec<u8>)
    requires
        a.in_range(0, 1023),
    ensures
        final(out)@ == old(out)@ + packed(a.ints(), 1024, 4, 5),
        final(out)@.len() == old(out)@.len() + 320,
{
    proof {
        lemma_group_sizes();
        lemma_regroup_len(a.ints(), 1024, 256, 4, 5, 64);
    }
    let d = poly_digits(a, 0, false, 1024);
    pack_digits(d.as_slice(), 1024, 4, 5, out);
}

/// The polynomial that 320 bytes hold at ten bits a coefficient.
pub fn polyt1_unpack(bytes: &[u8]) -> (a: Poly)
    requires
        bytes@.len() == 320,
    ensures
        a.ints() == unpacked(bytes@, 1024, 5, 4),
        a.in_range(0, 1023),
{
    proof {
        lemma_regroup_len(as_ints(bytes@), 256, 1024, 5, 4, 64);
    }
    let d = unpack_digits(bytes, 1024, 5, 4);
    poly_from_digits(&d, 0, false, 1024)
}

/// Appends to `out` the 416 bytes that hold the coefficients of `a`, which
/// lie in `(-2^(D-1), 2^(D-1)]`: thirteen bits each, for `2^(D-1) - a[i]`.
pub fn polyt0_pack(a: &Poly, out: &mut Vec<u8>)
    requires
        a.in_range(-4095, 4096),
    ensures
        final(out)@ == old(out)@ + packed(mirrored(a.ints(), 4096), 8192, 8, 13),
        final(out)@.len() == old(out)@.len() + 416,
{
    proof {
        lemma_group_sizes();
        lemma_regroup_len(mirrored(a.ints(), 4096), 8192, 256, 8, 13, 32);
    }
    let d = poly_digits(a, 4096, true, 8192);
    pack_digits(d.as_slice(), 8192, 8, 13, out);
}

/// The polynomial that 416 bytes hold at thirteen bits a coefficient.
pub fn polyt0_unpack(bytes: &[u8]) -> (a: Poly)
    requires
        bytes@.len() == 416,
    ensures
        a.ints() == mirrored(unpacked(bytes@, 8192, 13, 8), 4096),
        a.in_range(-4095, 4096),
{
    proof {
        lemma_regroup_len(as_ints(bytes@), 256, 8192, 13, 8, 32);
    }
    let d = unpack_digits(bytes, 8192, 13, 8);
    poly_from_digits(&d, 4096, true, 8192)
}

/// Appends to `out` the 640 bytes that hold the coefficients of `a`, which
/// lie in `(-GAMMA1, GAMMA1]`: twenty bits each, for `GAMMA1 - a[i]`.
pub fn polyz_pack(a: &Poly, out: &mut Vec<u8>)
    requires
        a.in_range(-524287, 524288),
    ensures
        final(out)@ == old(out)@ + packed(mirrored(a.ints(), 524288), 1048576, 2, 5),
        final(out)@.len() == old(out)@.len() + 640,
{
    proof {
        lemma_group_sizes();
        lemma_regroup_len(mirrored(a.ints(), 524288), 1048576, 256, 2, 5, 128);
    }
    let d = poly_digits(a, 524288, true, 1048576);
    pack_digits(d.as_slice(), 1048576, 2, 5, out);
}

/// The polynomial that 640 bytes hold at twenty bits a coefficient.
pub fn polyz_unpack(bytes: &[u8]) -> (a: Poly)
    requires
        bytes@.len() == 640,
    ensures
        a.ints() == mirrored(unpacked(bytes@, 1048576, 5, 2), 524288),
        a.in_range(-524287, 524288),
{
    proof {
        lemma_regroup_len(as_ints(bytes@), 256, 1048576, 5, 2, 128);
    }
    let d = unpack_digits(bytes, 1048576, 5, 2);
    poly_from_digits(&d, 524288, true, 1048576)
}

/// Appends to `out` the 128 bytes that hold the coefficients of `a`, which
/// lie in `[0, 16)`: four bits each.
pub fn polyw1_pack(a: &Poly, out: &mut Vec<u8>)
    requires
        a.in_range(0, 15),
    ensures
        final(out)@ == old(out)@ + packed(a.ints(), 16, 2, 1),
        final(out)@.len() == old(out)@.len() + 128,
{
    proof {
        lemma_group_sizes();
        lemma_regroup_len(a.ints(), 16, 256, 2, 1, 128);
    }
    let d = poly_digits(a, 0, false, 16);
    pack_digits(d.as_slice(), 16, 2, 1, out);
}



/// The most blocks that a rejection sampler reads from its stream. A
/// stream that keeps fewer than 256 candidates in so many blocks does not
/// fill the sampler, and the sampler gives nothing.
pub const SAMPLER_MAX_BLOCKS: usize = 8;

/// The bytes that the stream hands to the challenge sampler: two blocks.
pub const CHALLENGE_BYTES: usize = 272;

/// Block `e` of a stream that starts in state `s0` and is read one block
/// of `block` bytes at a time.
pub open spec fn stream_block(s0: Seq<u8>, e: nat, block: nat) -> Seq<u8> {
    squeezed(advance(s0, e * hashes_for(block)), block)
}

/// The bytes in a block of the stream of a rejection sampler: that of the
/// uniform sampler, or that of the sampler of short elements.
pub open spec fn block_bytes(uniform: bool) -> nat {
    if uniform {
        168
    } else {
        136
    }
}

/// The number of candidates in a block.
pub open spec fn block_candidates(uniform: bool) -> nat {
    if uniform {
        56
    } else {
        272
    }
}

/// Candidate `k` of a block. The uniform sampler reads three bytes as a
/// little-endian number of 23 bits and keeps it if it is below `q`. The
/// sampler of short elements reads four bits, low half of a byte first,
/// and keeps `ETA` minus the number if the number is at most `2 * ETA`.
pub open spec fn candidate(buf: Seq<u8>, k: int, uniform: bool) -> Option<int> {
    if uniform {
        let t = buf[3 * k] + 256 * buf[3 * k + 1] + 65536 * (buf[3 * k + 2] % 128);
        if t < q() {
            Some(t)
        } else {
            None
        }
    } else {
        let t = if k % 2 == 0 {
            buf[k / 2] % 16
        } else {
            buf[k / 2] / 16
        };
        if t < 9 {
            Some(4 - t)
        } else {
            None
        }
    }
}

/// The candidates kept among the first `n` of a block, in order.
pub open spec fn kept(buf: Seq<u8>, uniform: bool, n: nat) -> Seq<int>
    decreases n,
{
    if n == 0 {
        Seq::empty()
    } else {
        match candidate(buf, n - 1, uniform) {
            Some(v) => kept(buf, uniform, (n - 1) as nat).push(v),
            None => kept(buf, uniform, (n - 1) as nat),
        }
    }
}

/// The candidates kept in the first `e` blocks of a stream, in order.
pub open spec fn kept_stream(s0: Seq<u8>, uniform: bool, e: nat) -> Seq<int>
    decreases e,
{
    if e == 0 {
        Seq::empty()
    } else {
        kept_stream(s0, uniform, (e - 1) as nat) + kept(
            stream_block(s0, (e - 1) as nat, block_bytes(uniform)),
            uniform,
            block_candidates(uniform),
        )
    }
}

/// Whether the stream for `seed` and `nonce` fills a rejection sampler:
/// whether `SAMPLER_MAX_BLOCKS` blocks of it keep 256 candidates.
pub open spec fn sample_full(seed: Seq<u8>, nonce: u16, uniform: bool) -> bool {
    kept_stream(init_state(seed, nonce), uniform, SAMPLER_MAX_BLOCKS as nat).len() >= 256
}

/// What a rejection sampler gives for `seed` and `nonce`, where the stream
/// fills it: the first 256 candidates kept.
pub open spec fn sample_rejection(seed: Seq<u8>, nonce: u16, uniform: bool) -> Seq<int> {
    kept_stream(init_state(seed, nonce), uniform, SAMPLER_MAX_BLOCKS as nat).take(256)
}

/// The ring element with coefficients uniform in `[0, q)` for `seed` and
/// `nonce`, where the stream fills it.
pub open spec fn sample_uniform(seed: Seq<u8>, nonce: u16) -> Seq<int> {
    sample_rejection(seed, nonce, true)
}

/// The short ring element with coefficients in `[-ETA, ETA]` for `seed`
/// and `nonce`, where the stream fills it.
pub open spec fn sample_eta(seed: Seq<u8>, nonce: u16) -> Seq<int> {
    sample_rejection(seed, nonce, false)
}

/// The masking element with coefficients in `(-GAMMA1, GAMMA1]` for `seed`
/// and `nonce`: the first 640 bytes of the stream, unpacked.
pub open spec fn sample_gamma1(seed: Seq<u8>, nonce: u16) -> Seq<int> {
    mirrored(unpacked(squeezed(init_state(seed, nonce), 680).take(640), 1048576, 5, 2), 524288)
}

/// The smallest range that holds what a rejection sampler keeps.
pub open spec fn kept_lo(uniform: bool) -> int {
    if uniform {
        0
    } else {
        -4
    }
}

pub open spec fn kept_hi(uniform: bool) -> int {
    if uniform {
        q() - 1
    } else {
        4
    }
}

/// What is kept from fewer candidates is a prefix of what is kept from
/// more, and lies in the range of the sampler.
pub proof fn lemma_kept_prefix(buf: Seq<u8>, uniform: bool, m: nat, n: nat)
    requires
        m <= n,
    ensures
        kept(buf, uniform, m).len() <= kept(buf, uniform, n).len() <= n,
        forall|i: int|
            0 <= i < kept(buf, uniform, m).len() ==> kept(buf, uniform, m)[i] == kept(
                buf,
                uniform,
                n,
            )[i],
        forall|i: int|
            0 <= i < kept(buf, uniform, n).len() ==> kept_lo(uniform) <= #[trigger] kept(
                buf,
                uniform,
                n,
            )[i] <= kept_hi(uniform),
    decreases n,
{
    if n > 0 {
        if m < n {
            lemma_kept_prefix(buf, uniform, m, (n - 1) as nat);
        } else {
            lemma_kept_prefix(buf, uniform, (n - 1) as nat, (n - 1) as nat);
        }
    }
}

/// What is kept from fewer blocks is a prefix of what is kept from more,
/// and lies in the range of the sampler.
pub proof fn lemma_kept_stream_prefix(s0: Seq<u8>, uniform: bool, m: nat, n: nat)
    requires
        m <= n,
    ensures
        kept_stream(s0, uniform, m).len() <= kept_stream(s0, uniform, n).len(),
        forall|i: int|
            0 <= i < kept_stream(s0, uniform, m).len() ==> kept_stream(s0, uniform, m)[i]
                == kept_stream(s0, uniform, n)[i],
        forall|i: int|
            0 <= i < kept_stream(s0, uniform, n).len() ==> kept_lo(uniform) <= #[trigger] kept_stream(
                s0,
                uniform,
                n,
            )[i] <= kept_hi(uniform),
    decreases n,
{
    if n > 0 {
        let last = kept(
            stream_block(s0, (n - 1) as nat, block_bytes(uniform)),
            uniform,
            block_candidates(uniform),
        );
        lemma_kept_prefix(
            stream_block(s0, (n - 1) as nat, block_bytes(uniform)),
            uniform,
            block_candidates(uniform),
            block_candidates(uniform),
        );
        if m < n {
            lemma_kept_stream_prefix(s0, uniform, m, (n - 1) as nat);
        } else {
            lemma_kept_stream_prefix(s0, uniform, (n - 1) as nat, (n - 1) as nat);
        }
        let prev = kept_stream(s0, uniform, (n - 1) as nat);
        let all = kept_stream(s0, uniform, n);
        assert(all == prev + last);
        assert forall|i: int| 0 <= i < all.len() implies kept_lo(uniform) <= #[trigger] all[i]
            <= kept_hi(uniform) by {
            if i < prev.len() {
                assert(all[i] == prev[i]);
            } else {
                assert(all[i] == last[i - prev.len()]);
            }
        }
    }
}

/// Writes what is kept from the block `buf` to the coefficients of `a`
/// from place `ctr` on, as far as there is room; returns the place after
/// the last one written.
fn rej_fill<const T: bool>(a: &mut RingElement<T>, ctr: usize, buf: &[u8], uniform: bool) -> (n: usize)
    requires
        ctr <= 256,
        buf@.len() == block_bytes(uniform),
    ensures
        ctr <= n <= 256,
        n == if ctr + kept(buf@, uniform, block_candidates(uniform)).len() < 256 {
            ctr + kept(buf@, uniform, block_candidates(uniform)).len()
        } else {
            256
        },
        forall|i: int|
            0 <= i < 256 ==> #[trigger] final(a).coeffs@[i] == if ctr <= i < n {
                kept(buf@, uniform, block_candidates(uniform))[i - ctr]
            } else {
                old(a).coeffs@[i] as int
            },
{
    let ghost a0 = a.coeffs@;
    let count: usize = if uniform { 56 } else { 272 };
    let mut k: usize = 0;
    let mut n: usize = ctr;
    while k < count && n < 256
        invariant
            k <= count == block_candidates(uniform),
            buf@.len() == block_bytes(uniform),
            ctr <= n <= 256,
            n == ctr + kept(buf@, uniform, k as nat).len(),
            forall|i: int|
                0 <= i < 256 ==> #[trigger] a.coeffs@[i] == if ctr <= i < n {
                    kept(buf@, uniform, k as nat)[i - ctr]
                } else {
                    a0[i] as int
                },
        decreases count - k,
    {
        let cand: Option<i32> = if uniform {
            let t: i32 = (buf[3 * k] as i32) + 256 * (buf[3 * k + 1] as i32) + 65536 * ((buf[3 * k
                + 2] % 128) as i32);
            if t < Q {
                Some(t)
            } else {
                None
            }
        } else {
            let byte: u8 = buf[k / 2];
            let t: u8 = if k % 2 == 0 { byte % 16 } else { byte / 16 };
            if t < 9 {
                Some(4 - (t as i32))
            } else {
                None
            }
        };
        assert(match cand {
            Some(v) => candidate(buf@, k as int, uniform) == Some(v as int),
            None => candidate(buf@, k as int, uniform) is None,
        });
        match cand {
            Some(v) => {
                a.coeffs[n] = v;
                n += 1;
            },
            None => {},
        }
        k += 1;
    }
    proof {
        lemma_kept_prefix(buf@, uniform, k as nat, block_candidates(uniform));
    }
    n
}

/// The polynomial that a rejection sampler gives for `seed` and `nonce`;
/// `None` where the stream does not fill it.
fn poly_rejection<const T: bool>(seed: &[u8], nonce: u16, uniform: bool) -> (r: Option<
    RingElement<T>,
>)
    ensures
        match r {
            Some(a) => {
                &&& sample_full(seed@, nonce, uniform)
                &&& a.ints() == sample_rejection(seed@, nonce, uniform)
                &&& a.in_range(kept_lo(uniform), kept_hi(uniform))
            },
            None => !sample_full(seed@, nonce, uniform),
        },
{
    let mut state = State::default();
    if uniform {
        stream128_init(&mut state, seed, nonce);
    } else {
        stream256_init(&mut state, seed, nonce);
    }
    let ghost s0 = state.s@;
    let mut a = RingElement::<T>::default();
    let mut ctr: usize = 0;
    let mut e: usize = 0;
    while ctr < N && e < SAMPLER_MAX_BLOCKS
        invariant
            e <= SAMPLER_MAX_BLOCKS,
            ctr <= 256,
            s0 == init_state(seed@, nonce),
            state.s@ == advance(s0, e as nat * hashes_for(block_bytes(uniform))),
            ctr == if kept_stream(s0, uniform, e as nat).len() < 256 {
                kept_stream(s0, uniform, e as nat).len()
            } else {
                256
            },
            forall|i: int|
                0 <= i < 256 ==> #[trigger] a.coeffs@[i] == if i < ctr {
                    kept_stream(s0, uniform, e as nat)[i]
                } else {
                    0
                },
        decreases SAMPLER_MAX_BLOCKS - e,
    {
        let ghost before = state.s@;
        let mut buf = [0u8; 168];
        if uniform {
            stream128_squeezeblocks(&mut buf, 1, &mut state);
        } else {
            stream256_squeezeblocks(&mut buf, 1, &mut state);
        }
        let block = vstd::slice::slice_subrange(
            buf.as_slice(),
            0,
            if uniform {
                168
            } else {
                136
            },
        );
        proof {
            assert(block@ =~= stream_block(s0, e as nat, block_bytes(uniform)));
            let h = hashes_for(block_bytes(uniform));
            assert(h == if uniform { 6nat } else { 5nat });
            lemma_advance_add(s0, e as nat * h, h);
            assert(e as nat * h + h == (e + 1) as nat * h) by (nonlinear_arith);
        }
        ctr = rej_fill(&mut a, ctr, block, uniform);
        e += 1;
    }
    proof {
        lemma_kept_stream_prefix(s0, uniform, e as nat, SAMPLER_MAX_BLOCKS as nat);
        lemma_kept_stream_prefix(s0, uniform, e as nat, e as nat);
    }
    if ctr < N {
        return None;
    }
    assert(a.ints() =~= sample_rejection(seed@, nonce, uniform));
    Some(a)
}

/// The ring element with coefficients in `[0, q)` that the stream for
/// `seed` and `nonce` gives, an entry of the matrix; `None` where the
/// stream does not fill it.
pub fn poly_uniform(seed: &[u8], nonce: u16) -> (r: Option<NttPoly>)
    ensures
        match r {
            Some(a) => {
                &&& sample_full(seed@, nonce, true)
                &&& a.ints() == sample_uniform(seed@, nonce)
                &&& a.in_range(0, 8380416)
            },
            None => !sample_full(seed@, nonce, true),
        },
{
    poly_rejection(seed, nonce, true)
}

/// The short ring element with coefficients in `[-ETA, ETA]` that the
/// stream for `seed` and `nonce` gives; `None` where the stream does not
/// fill it.
pub fn poly_uniform_eta(seed: &[u8], nonce: u16) -> (r: Option<Poly>)
    ensures
        match r {
            Some(a) => {
                &&& sample_full(seed@, nonce, false)
                &&& a.ints() == sample_eta(seed@, nonce)
                &&& a.in_range(-4, 4)
            },
            None => !sample_full(seed@, nonce, false),
        },
{
    poly_rejection(seed, nonce, false)
}

/// The masking element with coefficients in `(-GAMMA1, GAMMA1]` that the
/// stream for `seed` and `nonce` gives.
pub fn poly_uniform_gamma1(seed: &[u8], nonce: u16) -> (a: Poly)
    ensures
        a.ints() == sample_gamma1(seed@, nonce),
        a.in_range(-524287, 524288),
{
    let mut state = State::default();
    stream256_init(&mut state, seed, nonce);
    let mut buf = [0u8; 680];
    stream256_squeezeblocks(&mut buf, 5, &mut state);
    let bytes = vstd::slice::slice_subrange(buf.as_slice(), 0, 640);
    assert(bytes@ =~= squeezed(init_state(seed@, nonce), 680).take(640));
    polyz_unpack(bytes)
}



/// The first place from `pos` on at which `src` holds a byte of at most
/// `i`; the length of `src` if there is none.
pub open spec fn next_at_most(src: Seq<u8>, pos: nat, i: int) -> nat
    decreases src.len() - pos,
{
    if pos >= src.len() {
        src.len()
    } else if src[pos as int] <= i {
        pos
    } else {
        next_at_most(src, pos + 1, i)
    }
}

/// The challenge that grows out of `c` in the steps `i`, `i + 1`, up to
/// 255. Step `i` takes the next byte `b` of at most `i` from `src`, moves
/// the coefficient at `b` to place `i` and puts 1 or -1 at `b`, by the
/// lowest bit of `signs`. The steps end where `src` is used up.
pub open spec fn challenge_from(src: Seq<u8>, c: Seq<int>, signs: int, pos: nat, i: nat) -> Seq<
    int,
>
    decreases 256 - i,
{
    if i >= 256 {
        c
    } else {
        let p = next_at_most(src, pos, i as int);
        if p >= src.len() {
            c
        } else {
            let b = src[p as int] as int;
            challenge_from(
                src,
                c.update(i as int, c[b]).update(b, 1 - 2 * (signs % 2)),
                signs / 2,
                p + 1,
                i + 1,
            )
        }
    }
}

/// Whether `src` holds, from `pos` on, a place for every step from `i`
/// up to 255.
pub open spec fn places_suffice(src: Seq<u8>, pos: nat, i: nat) -> bool
    decreases 256 - i,
{
    if i >= 256 {
        true
    } else {
        let p = next_at_most(src, pos, i as int);
        p < src.len() && places_suffice(src, p + 1, i + 1)
    }
}

/// The bytes that the stream hands to the challenge sampler for `seed`.
pub open spec fn challenge_source(seed: Seq<u8>) -> Seq<u8> {
    squeezed(init_state(seed, 0), CHALLENGE_BYTES as nat)
}

/// Whether the stream for `seed` fills the challenge: whether its bytes
/// hold a place for each of the `TAU` steps.
pub open spec fn challenge_full(seed: Seq<u8>) -> bool {
    places_suffice(challenge_source(seed), 8, (256 - TAU) as nat)
}

/// The challenge for the seed `seed`, where the stream fills it: the first
/// eight bytes of the stream give the signs, the bytes after them the
/// places.
pub open spec fn sample_challenge(seed: Seq<u8>) -> Seq<int> {
    let src = challenge_source(seed);
    challenge_from(src, zeros(), le_value(as_ints(src.take(8)), 256), 8, (256 - TAU) as nat)
}

/// The challenge polynomial for `seed`: `TAU` steps, each of which puts
/// one more 1 or -1 among zeros; `None` where the stream does not fill it.
pub fn poly_challenge(seed: &[u8]) -> (r: Option<Poly>)
    ensures
        match r {
            Some(c) => {
                &&& challenge_full(seed@)
                &&& c.ints() == sample_challenge(seed@)
                &&& c.in_range(-1, 1)
                &&& nonzeros(c.ints(), 256) == TAU
            },
            None => !challenge_full(seed@),
        },
{
    let mut state = State::default();
    stream256_init(&mut state, seed, 0);
    let mut buf = [0u8; CHALLENGE_BYTES];
    stream256_squeezeblocks(&mut buf, 2, &mut state);
    let ghost src = buf@;
    assert(src =~= challenge_source(seed@));
    let mut head: Vec<u32> = Vec::new();
    let mut j: usize = 0;
    while j < 8
        invariant
            j <= 8,
            head@.len() == j,
            forall|k: int| 0 <= k < j ==> head@[k] == buf@[k],
        decreases 8 - j,
    {
        head.push(buf[j] as u32);
        j += 1;
    }
    proof {
        reveal_with_fuel(pow, 9);
        assert(digit_ints(head@).subrange(0, 8) =~= as_ints(src.take(8)));
    }
    let mut signs: u128 = group_value(head.as_slice(), 0, 256, 8);
    let mut c = Poly::default();
    let mut pos: usize = 8;
    let mut i: usize = N - TAU;
    while i < N
        invariant
            N - TAU <= i <= N,
            8 <= pos <= CHALLENGE_BYTES,
            src == buf@,
            c.in_range(-1, 1),
            challenge_from(src, c.ints(), signs as int, pos as nat, i as nat) == sample_challenge(
                seed@,
            ),
            places_suffice(src, pos as nat, i as nat) == challenge_full(seed@),
        decreases N - i,
    {
        let ghost pos0 = pos;
        while pos < CHALLENGE_BYTES && buf[pos] as usize > i
            invariant
                pos0 <= pos <= CHALLENGE_BYTES,
                src == buf@,
                next_at_most(src, pos as nat, i as int) == next_at_most(src, pos0 as nat, i as int),
            decreases CHALLENGE_BYTES - pos,
        {
            pos += 1;
        }
        if pos >= CHALLENGE_BYTES {
            return None;
        }
        let b: usize = buf[pos] as usize;
        pos += 1;
        let ghost before = c.ints();
        let moved: i32 = c.coeffs[b];
        c.coeffs[i] = moved;
        c.coeffs[b] = 1 - 2 * ((signs % 2) as i32);
        proof {
            assert(c.ints() =~= before.update(i as int, before[b as int]).update(
                b as int,
                1 - 2 * (signs as int % 2),
            ));
        }
        signs = signs / 2;
        i += 1;
    }
    proof {
        lemma_challenge_shape(seed@);
    }
    Some(c)
}



/// The polynomial that 128 bytes hold at four bits a coefficient, each
/// coefficient in `[0, 16)`.
pub fn polyw1_unpack(bytes: &[u8]) -> (a: Poly)
    requires
        bytes@.len() == 128,
    ensures
        a.ints() == unpacked(bytes@, 16, 1, 2),
        a.in_range(0, 15),
{
    proof {
        lemma_regroup_len(as_ints(bytes@), 256, 16, 1, 2, 128);
    }
    let d = unpack_digits(bytes, 16, 1, 2);
    poly_from_digits(&d, 0, false, 16)
}



/// What a rejection sampler gives, where the stream fills it, has 256
/// coefficients in the range of the sampler.
pub proof fn lemma_sample_rejection_range(seed: Seq<u8>, nonce: u16, uniform: bool)
    requires
        sample_full(seed, nonce, uniform),
    ensures
        sample_rejection(seed, nonce, uniform).len() == 256,
        forall|j: int|
            0 <= j < 256 ==> kept_lo(uniform) <= #[trigger] sample_rejection(
                seed,
                nonce,
                uniform,
            )[j] <= kept_hi(uniform),
{
    lemma_kept_stream_prefix(
        init_state(seed, nonce),
        uniform,
        SAMPLER_MAX_BLOCKS as nat,
        SAMPLER_MAX_BLOCKS as nat,
    );
}



/// The number of nonzero entries among the first `n` of `c`.
pub open spec fn nonzeros(c: Seq<int>, n: nat) -> int
    decreases n,
{
    if n == 0 {
        0
    } else {
        nonzeros(c, (n - 1) as nat) + if c[n - 1] != 0 {
            1int
        } else {
            0int
        }
    }
}

/// A challenge in the making, before step `i`: zeros from place `i` on,
/// signs and zeros before it, and `i - (256 - TAU)` signs in all.
pub open spec fn challenge_state(c: Seq<int>, i: int) -> bool {
    &&& c.len() == 256
    &&& forall|j: int| 0 <= j < 256 ==> -1 <= #[trigger] c[j] <= 1
    &&& forall|j: int| i <= j < 256 ==> #[trigger] c[j] == 0
    &&& nonzeros(c, 256) == i - (256 - TAU)
}

/// Putting `v` at place `k` changes the number of nonzero entries by what
/// `v` adds and what was there takes away.
pub proof fn lemma_nonzeros_update(c: Seq<int>, k: int, v: int, n: nat)
    requires
        0 <= k < c.len(),
        n <= c.len(),
    ensures
        nonzeros(c.update(k, v), n) == nonzeros(c, n) + if k < n {
            (if v != 0 {
                1int
            } else {
                0int
            }) - (if c[k] != 0 {
                1int
            } else {
                0int
            })
        } else {
            0int
        },
    decreases n,
{
    if n > 0 {
        lemma_nonzeros_update(c, k, v, (n - 1) as nat);
    }
}

/// The place that a step of the challenge finds holds a byte of at most
/// `i`, where it is a place of `src` at all.
pub proof fn lemma_next_at_most(src: Seq<u8>, pos: nat, i: int)
    ensures
        pos <= next_at_most(src, pos, i) || next_at_most(src, pos, i) == src.len(),
        next_at_most(src, pos, i) < src.len() ==> src[next_at_most(src, pos, i) as int] <= i,
    decreases src.len() - pos,
{
    if pos < src.len() && src[pos as int] > i {
        lemma_next_at_most(src, pos + 1, i);
    }
}

/// The zero polynomial has no nonzero entry.
pub proof fn lemma_nonzeros_zeros(n: nat)
    requires
        n <= 256,
    ensures
        nonzeros(zeros(), n) == 0,
    decreases n,
{
    if n > 0 {
        lemma_nonzeros_zeros((n - 1) as nat);
    }
}

/// Every step of the challenge adds one sign: from a state before step
/// `i`, the steps up to 255 give signs and zeros with `TAU` signs in all.
pub proof fn lemma_challenge_from(src: Seq<u8>, c: Seq<int>, signs: int, pos: nat, i: nat)
    requires
        256 - TAU <= i <= 256,
        challenge_state(c, i as int),
        places_suffice(src, pos, i),
    ensures
        challenge_state(challenge_from(src, c, signs, pos, i), 256),
    decreases 256 - i,
{
    if i < 256 {
        let p = next_at_most(src, pos, i as int);
        lemma_next_at_most(src, pos, i as int);
        let b = src[p as int] as int;
        let sign = 1 - 2 * (signs % 2);
        let c1 = c.update(i as int, c[b]);
        let c2 = c1.update(b, sign);
        lemma_nonzeros_update(c, i as int, c[b], 256);
        lemma_nonzeros_update(c1, b, sign, 256);
        assert(c[i as int] == 0);
        assert(challenge_state(c2, (i + 1) as int));
        lemma_challenge_from(src, c2, signs / 2, p + 1, i + 1);
    }
}

/// A challenge, where the stream fills it, has `TAU` coefficients that
/// are 1 or -1, and zeros elsewhere.
pub proof fn lemma_challenge_shape(seed: Seq<u8>)
    requires
        challenge_full(seed),
    ensures
        sample_challenge(seed).len() == 256,
        forall|j: int| 0 <= j < 256 ==> -1 <= #[trigger] sample_challenge(seed)[j] <= 1,
        nonzeros(sample_challenge(seed), 256) == TAU,
{
    lemma_nonzeros_zeros(256);
    let src = challenge_source(seed);
    lemma_challenge_from(
        src,
        zeros(),
        le_value(as_ints(src.take(8)), 256),
        8,
        (256 - TAU) as nat,
    );
}

} // verus!
