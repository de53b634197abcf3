//! Splitting a coefficient into high and low parts, and the hints that let
//! a verifier recover the high part of a value it knows only approximately.
use vstd::prelude::*;
use crate::params::{D, GAMMA2, Q};
use crate::ring::{canon, q};

verus! {

/// The remainder of `a` modulo the even number `m`, centered: the
/// representative in `(-m/2, m/2]`.
pub open spec fn mod_pm(a: int, m: int) -> int {
    if a % m > m / 2 {
        a % m - m
    } else {
        a % m
    }
}

/// The low part of `a` in the split at `2^D`, in `(-2^(D-1), 2^(D-1)]`.
pub open spec fn power2round_low(a: int) -> int {
    mod_pm(a, 8192)
}

/// The high part of `a` in the split at `2^D`.
pub open spec fn power2round_high(a: int) -> int {
    (a - power2round_low(a)) / 8192
}

/// The width `2 * GAMMA2` of a high-bits bucket.
pub open spec fn alpha() -> int {
    523776
}

/// The low bits of `a`: its centered remainder modulo `alpha()`, lowered by
/// one in the topmost bucket, which wraps around to bucket zero.
pub open spec fn low_bits(a: int) -> int {
    let r0 = mod_pm(a, alpha());
    if a - r0 == q() - 1 {
        r0 - 1
    } else {
        r0
    }
}

/// The high bits of `a`: the number of its bucket, in `[0, 16)`.
pub open spec fn high_bits(a: int) -> int {
    let r0 = mod_pm(a, alpha());
    if a - r0 == q() - 1 {
        0
    } else {
        (a - r0) / alpha()
    }
}

/// Whether a low part `a0`, next to the high part `a1`, has left the bucket:
/// whether adding it to `a1 * alpha()` gives a value with other high bits.
pub open spec fn hint_of(a0: int, a1: int) -> bool {
    a0 > 261888 || a0 < -261888 || (a0 == -261888 && a1 != 0)
}

/// The high bits of `a` corrected by a hint: unchanged without a hint, else
/// moved by one bucket towards the side that the low bits of `a` point to.
pub open spec fn hinted_high_bits(a: int, hint: bool) -> int {
    if !hint {
        high_bits(a)
    } else if low_bits(a) > 0 {
        (high_bits(a) + 1) % 16
    } else {
        (high_bits(a) - 1) % 16
    }
}

/// Splits `a` in `[0, q)` as `a1 * 2^D + a0` with `a0` in
/// `(-2^(D-1), 2^(D-1)]`; returns `(a1, a0)`.
pub fn power2round(a: i32) -> (r: (i32, i32))
    requires
        0 <= a < q(),
    ensures
        r.0 == power2round_high(a as int),
        r.1 == power2round_low(a as int),
        a == r.0 * 8192 + r.1,
        0 <= r.0 < 1024,
        -4096 < r.1 <= 4096,
{
    let s: i32 = a + 4095;
    let a1: i32 = s >> 13;
    proof {
        assert(s >> 13 == s / 8192i32) by (bit_vector)
            requires
                0 <= s < 0x1000_0000i32,
        ;
    }
    let a0: i32 = a - a1 * 8192;
    (a1, a0)
}

/// Splits `a` in `[0, q)` into its high and low bits; returns `(a1, a0)`
/// with `a` congruent to `a1 * alpha() + a0` modulo `q`.
pub fn decompose(a: i32) -> (r: (i32, i32))
    requires
        0 <= a < q(),
    ensures
        r.0 == high_bits(a as int),
        r.1 == low_bits(a as int),
        0 <= r.0 < 16,
        -261888 <= r.1 <= 261888,
{
    let s: i32 = a + 127;
    let x: i32 = s >> 7;
    proof {
        assert(s >> 7 == s / 128i32) by (bit_vector)
            requires
                0 <= s < 0x1000_0000i32,
        ;
    }
    let e: i32 = x * 1025 + 0x20_0000;
    let y: i32 = e >> 22;
    proof {
        assert(e >> 22 == e / 0x40_0000i32) by (bit_vector)
            requires
                0 <= e < 0x1000_0000i32,
        ;
    }
    let a1: i32 = y & 15;
    proof {
        assert(y & 15 == y % 16i32) by (bit_vector)
            requires
                0 <= y < 0x1000_0000i32,
        ;
        let h = (a + 261887) / 523776;
        assert(0 <= h <= 16);
        assert(x >= 4092 * h - 2045);
        assert(x <= 4092 * h + 2046);
        assert(y == h);
        let r = a as int % 523776;
        assert(a == 523776 * (a as int / 523776) + r);
    }
    let a0: i32 = a - a1 * 2 * GAMMA2;
    let m: i32 = (Q - 1) / 2 - a0;
    proof {
        assert((m >> 31) & 8380417i32 == if m < 0 { 8380417i32 } else { 0i32 }) by (bit_vector);
    }
    let a0: i32 = a0 - ((m >> 31) & Q);
    (a1, a0)
}

/// The hint bit for a low part `a0` next to the high part `a1`: 1 where
/// `hint_of` holds, else 0.
pub fn make_hint(a0: i32, a1: i32) -> (r: i32)
    ensures
        r == if hint_of(a0 as int, a1 as int) { 1int } else { 0int },
{
    if a0 > GAMMA2 || a0 < -GAMMA2 || (a0 == -GAMMA2 && a1 != 0) {
        1
    } else {
        0
    }
}

/// The high bits of `a` in `[0, q)`, corrected by `hint`.
pub fn use_hint(a: i32, hint: i32) -> (r: i32)
    requires
        0 <= a < q(),
    ensures
        r == hinted_high_bits(a as int, hint != 0),
        0 <= r < 16,
{
    let (a1, a0) = decompose(a);
    if hint == 0 {
        a1
    } else if a0 > 0 {
        let v: i32 = a1 + 1;
        proof {
            assert(v & 15 == v % 16i32) by (bit_vector)
                requires
                    0 <= v < 32i32,
            ;
        }
        v & 15
    } else {
        let v: i32 = a1 - 1;
        proof {
            assert(v & 15 == if v < 0 { 15i32 } else { v }) by (bit_vector)
                requires
                    -1 <= v < 16i32,
            ;
        }
        v & 15
    }
}



/// A coefficient in `[0, q)` is congruent to its high bits times the
/// bucket width plus its low bits.
pub proof fn lemma_decompose(w: int)
    requires
        0 <= w < q(),
    ensures
        0 <= high_bits(w) < 16,
        -261888 <= low_bits(w) <= 261888,
        canon(high_bits(w) * alpha() + low_bits(w)) == w,
{
    let r = w % alpha();
    assert(w == alpha() * (w / alpha()) + r);
    assert(0 <= w / alpha() <= 16);
}

/// A coefficient in `[0, q)` is its high part times `2^D` plus its low
/// part.
pub proof fn lemma_power2round(t: int)
    requires
        0 <= t < q(),
    ensures
        0 <= power2round_high(t) < 1024,
        -4096 < power2round_low(t) <= 4096,
        t == power2round_high(t) * 8192 + power2round_low(t),
{
    let r = t % 8192;
    assert(t == 8192 * (t / 8192) + r);
}

/// The hint made from a low part lets the high bits be recovered: for high
/// bits `w1` and a low part `a0` smaller than the bucket width, the high
/// bits of `w1 * alpha() + a0`, corrected by the hint for `a0` next to
/// `w1`, are `w1`.
pub proof fn lemma_use_hint(w1: int, a0: int)
    requires
        0 <= w1 < 16,
        -alpha() < a0 < alpha(),
    ensures
        hinted_high_bits(canon(w1 * alpha() + a0), hint_of(a0, w1)) == w1,
{
    let v = w1 * alpha() + a0;
    let a = canon(v);
    assert(a == if v < 0 { v + q() } else { v });
    let k = a / alpha();
    let r = a % alpha();
    assert(a == alpha() * k + r);
    assert(0 <= k <= 16);
    if a0 > 261888 {
        assert(k == w1 && r == a0);
    } else if a0 >= 0 {
        assert(k == w1 && r == a0);
    } else if w1 >= 1 {
        assert(k == w1 - 1 && r == alpha() + a0);
    } else {
        assert(a == 16 * alpha() + 1 + a0);
        if a0 == -1 {
            assert(k == 16 && r == 0);
        } else {
            assert(k == 15 && r == alpha() + 1 + a0);
        }
    }
}



/// The split into high and low bits is unique: high bits `h` and low bits
/// `l` in `(-GAMMA2, GAMMA2]` are the high and low bits of the coefficient
/// congruent to `h * alpha() + l`.
pub proof fn lemma_decompose_of(h: int, l: int)
    requires
        0 <= h < 16,
        -261888 < l <= 261888,
    ensures
        high_bits(canon(h * alpha() + l)) == h,
        low_bits(canon(h * alpha() + l)) == l,
{
    let v = h * alpha() + l;
    let a = canon(v);
    assert(a == if v < 0 { v + q() } else { v });
    let k = a / alpha();
    let r = a % alpha();
    assert(a == alpha() * k + r);
    assert(0 <= k <= 16);
    if l >= 0 {
        assert(k == h && r == l);
    } else if h >= 1 {
        assert(k == h - 1 && r == alpha() + l);
    } else {
        assert(a == 16 * alpha() + 1 + l);
        if l == -1 {
            assert(k == 16 && r == 0);
        } else {
            assert(k == 15 && r == alpha() + 1 + l);
        }
    }
}

/// The hint marks a change of the high bits: for high bits `w1` and a low
/// part `a0` smaller than the bucket width, the hint for `a0` next to `w1`
/// is set if and only if the high bits of `w1 * alpha() + a0` are not
/// `w1`.
pub proof fn lemma_hint_marks_change(w1: int, a0: int)
    requires
        0 <= w1 < 16,
        -alpha() < a0 < alpha(),
    ensures
        hint_of(a0, w1) <==> high_bits(canon(w1 * alpha() + a0)) != w1,
{
    lemma_use_hint(w1, a0);
    let a = canon(w1 * alpha() + a0);
    lemma_decompose(a);
}

} // verus!
