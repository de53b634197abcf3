//! Reductions of single coefficients: Montgomery reduction, reduction to a
//! small centered range, and the conditional additions that bring a
//! representative into `[0, q)`.
use vstd::prelude::*;
use crate::params::Q;
use crate::ring::{q, r_inv, canon, lemma_canon_small, lemma_montgomery_residue};

verus! {

/// `2^32 mod q`, centered.
pub const MONT: i32 = -4186625;

/// The inverse of `q` modulo `2^32`.
pub const QINV: i32 = 58728449;

proof fn lemma_truncate_congruent(a: i64, al: i32)
    requires
        al == a as i32,
    ensures
        (a - al) % 0x1_0000_0000 == 0,
{
    assert(((a as i32) as i64) & 0xffff_ffffi64 == a & 0xffff_ffffi64) by (bit_vector);
    let x = (a as i32) as i64;
    assert(x & 0xffff_ffffi64 == x % 0x1_0000_0000i64) by (bit_vector);
    assert(a & 0xffff_ffffi64 == a % 0x1_0000_0000i64) by (bit_vector);
}

proof fn lemma_shift32(u: i64)
    ensures
        (u >> 32) as int == (u as int) / 0x1_0000_0000,
        -0x8000_0000 <= (u >> 32) < 0x8000_0000,
{
    assert((u >> 32) == u / 0x1_0000_0000i64 && -0x8000_0000i64 <= (u >> 32) < 0x8000_0000i64)
        by (bit_vector);
}

/// Montgomery reduction: for `a` strictly between `-2^31 q` and `2^31 q`
/// the result `r` lies strictly between `-q` and `q` and `r * 2^32` is
/// congruent to `a` modulo `q`.
pub fn montgomery_reduce(a: i64) -> (r: i32)
    requires
        -0x8000_0000 * q() < a < 0x8000_0000 * q(),
    ensures
        -q() < r < q(),
        (r * 0x1_0000_0000 - a) % q() == 0,
        canon(r as int) == canon(a * r_inv()),
{
    let al: i32 = #[verifier::truncate] (a as i32);
    let t: i32 = al.wrapping_mul(QINV);
    proof {
        lemma_truncate_congruent(a, al);
        let p = al as int * QINV as int;
        assert((t - p) % 0x1_0000_0000 == 0);
        // QINV * Q == 1 + 114592 * 2^32
        let k1 = (t - p) / 0x1_0000_0000;
        let k2 = (a - al) / 0x1_0000_0000;
        assert(t - p == k1 * 0x1_0000_0000);
        assert(a - al == k2 * 0x1_0000_0000);
        assert(p * 8380417 == al + al * 114592 * 0x1_0000_0000);
        assert(a - t * 8380417 == (k2 - k1 * 8380417 - al * 114592) * 0x1_0000_0000);
    }
    let u: i64 = a - (t as i64) * (Q as i64);
    proof {
        lemma_shift32(u);
        let m = -(((t - al as int * QINV as int) / 0x1_0000_0000) * 8380417) + (a - al) / 0x1_0000_0000 - al * 114592;
        assert(u == m * 0x1_0000_0000);
        assert((u >> 32) == m);
        assert(m * 0x1_0000_0000 - a == -(t as int) * q());
        vstd::arithmetic::div_mod::lemma_mod_multiples_basic(-(t as int), q());
        lemma_montgomery_residue(m, a as int);
    }
    (u >> 32) as i32
}

/// Reduction to a small centered representative: `a` less `q` times the
/// multiple of `2^23` nearest to `a`. The result is congruent to `a` and
/// lies in `[-6283009, 6283008]`.
pub fn reduce32(a: i32) -> (r: i32)
    requires
        a <= 0x7fff_ffff - 0x40_0000,
    ensures
        r == a - ((a + 0x40_0000) / 0x80_0000) * q(),
        -6283009 <= r <= 6283008,
        canon(r as int) == canon(a as int),
{
    let s: i32 = a + 0x40_0000;
    let t: i32 = s >> 23;
    proof {
        assert((s >> 23) == s / 0x80_0000i32 && -256 <= (s >> 23) < 256) by (bit_vector);
    }
    let r = a - t * Q;
    proof {
        assert(t * 0x80_0000 <= s < t * 0x80_0000 + 0x80_0000);
        if t == -256 {
            assert(r >= -0x8000_0000 + 256 * q());
        } else {
            assert(t >= -255);
        }
        vstd::arithmetic::div_mod::lemma_mod_multiples_vanish(-(t as int), a as int, q());
    }
    r
}

/// Adds `q` to a negative coefficient, without a branch.
pub fn caddq(a: i32) -> (r: i32)
    requires
        a <= 0x7fff_ffff - 8380417,
    ensures
        r == if a < 0 { a + q() } else { a as int },
        canon(r as int) == canon(a as int),
{
    let mask: i32 = (a >> 31) & Q;
    proof {
        assert((a >> 31) & 8380417i32 == if a < 0 { 8380417i32 } else { 0i32 }) by (bit_vector);
        vstd::arithmetic::div_mod::lemma_mod_multiples_vanish(1, a as int, q());
    }
    a + mask
}

/// The canonical representative of `a`, in `[0, q)`.
pub fn freeze(a: i32) -> (r: i32)
    requires
        a <= 0x7fff_ffff - 0x40_0000,
    ensures
        r == canon(a as int),
{
    let r = caddq(reduce32(a));
    proof {
        lemma_canon_small(r as int);
    }
    r
}

} // verus!
