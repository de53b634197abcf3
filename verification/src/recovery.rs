//! Why a verifier recovers the high bits of the commitment of the signer:
//! the algebra of the transforms, and the bounds under which the hints
//! undo the difference of the low parts.
use vstd::prelude::*;
use crate::ntt::{
    intt_spec,
    is_canonical,
    lemma_intt_linear,
    lemma_ntt_intt,
    lemma_ntt_linear,
    lemma_scale_one,
    lemma_transform_canonical,
    lin,
    ntt_spec,
};
use crate::poly::{canon_all, pointwise, ring_add, ring_sub, shifted, zeros};
use crate::poly::{power2round_high_all, power2round_low_all};
use crate::polyvec::dot;
use crate::ring::{
    abs,
    canon,
    centered,
    eqm,
    lemma_eqm_add,
    lemma_eqm_canon,
    lemma_eqm_mul,
    q,
};
use crate::rounding::{
    alpha,
    high_bits,
    hint_of,
    hinted_high_bits,
    lemma_decompose,
    lemma_decompose_of,
    lemma_hint_marks_change,
    lemma_power2round,
    lemma_use_hint,
    low_bits,
};

verus! {

/// The transform of the sum of an inverse transform and a ring element is
/// the sum of what was transformed back and the transform of the element.
pub proof fn lemma_ntt_sum(p: Seq<int>, y: Seq<int>)
    requires
        is_canonical(p),
        y.len() == 256,
    ensures
        ntt_spec(ring_add(intt_spec(p), y)) == ring_add(p, ntt_spec(y)),
{
    let x = intt_spec(p);
    assert(ring_add(x, y) =~= lin(1, x, 1, y));
    lemma_ntt_linear(1, x, 1, y);
    lemma_ntt_intt(p);
    lemma_scale_one(p);
    lemma_transform_canonical(y);
    assert(lin(1, p, 1, ntt_spec(y)) =~= ring_add(p, ntt_spec(y)));
}

proof fn lemma_dot_step(c: int, ds: int, dy: int, m: int, s: int, y: int)
    ensures
        canon(canon(canon(c * ds) + dy) + canon(m * canon(canon(c * s) + y))) == canon(
            canon(c * canon(ds + canon(m * s))) + canon(dy + canon(m * y)),
        ),
{
    // The left side.
    lemma_eqm_canon(c * ds);
    lemma_eqm_canon(dy);
    lemma_eqm_add(canon(c * ds), c * ds, dy, dy);
    lemma_eqm_canon(canon(c * ds) + dy);
    lemma_eqm_canon(c * s);
    lemma_eqm_canon(y);
    lemma_eqm_add(canon(c * s), c * s, y, y);
    lemma_eqm_canon(canon(c * s) + y);
    lemma_eqm_canon(m);
    lemma_eqm_mul(m, m, canon(canon(c * s) + y), c * s + y);
    lemma_eqm_canon(m * canon(canon(c * s) + y));
    lemma_eqm_add(
        canon(canon(c * ds) + dy),
        c * ds + dy,
        canon(m * canon(canon(c * s) + y)),
        m * (c * s + y),
    );
    // The right side.
    lemma_eqm_canon(m * s);
    lemma_eqm_canon(ds);
    lemma_eqm_add(ds, ds, canon(m * s), m * s);
    lemma_eqm_canon(ds + canon(m * s));
    lemma_eqm_canon(c);
    lemma_eqm_mul(c, c, canon(ds + canon(m * s)), ds + m * s);
    lemma_eqm_canon(c * canon(ds + canon(m * s)));
    lemma_eqm_canon(m * y);
    lemma_eqm_add(dy, dy, canon(m * y), m * y);
    lemma_eqm_canon(dy + canon(m * y));
    lemma_eqm_add(
        canon(c * canon(ds + canon(m * s))),
        c * (ds + m * s),
        canon(dy + canon(m * y)),
        dy + m * y,
    );
    assert((c * ds + dy) + m * (c * s + y) == c * (ds + m * s) + (dy + m * y)) by {
        assert(m * (c * s + y) == m * (c * s) + m * y) by (nonlinear_arith);
        assert(m * (c * s) == c * (m * s)) by (nonlinear_arith);
        assert(c * (ds + m * s) == c * ds + c * (m * s)) by (nonlinear_arith);
    }
}

/// The sum of products with entries of the shape `c * s + y` splits into
/// `c` times the sum of products with `s` and the sum of products with
/// `y`.
pub proof fn lemma_dot_split(
    m: Seq<Seq<int>>,
    c: Seq<int>,
    s: Seq<Seq<int>>,
    yh: Seq<Seq<int>>,
    z: Seq<Seq<int>>,
    n: nat,
)
    requires
        n <= 5,
        forall|l: int| 0 <= l < 5 ==> #[trigger] z[l] == ring_add(pointwise(c, s[l]), yh[l]),
    ensures
        dot(m, z, n) == ring_add(pointwise(c, dot(m, s, n)), dot(m, yh, n)),
    decreases n,
{
    let target = ring_add(pointwise(c, dot(m, s, n)), dot(m, yh, n));
    if n == 0 {
        assert forall|j: int| 0 <= j < 256 implies #[trigger] dot(m, z, n)[j] == target[j] by {
            assert(c[j] * 0 == 0);
        }
    } else {
        lemma_dot_split(m, c, s, yh, z, (n - 1) as nat);
        let l = n - 1;
        assert(z[l] == ring_add(pointwise(c, s[l]), yh[l]));
        assert forall|j: int| 0 <= j < 256 implies #[trigger] dot(m, z, n)[j] == target[j] by {
            lemma_dot_step(
                c[j],
                dot(m, s, (n - 1) as nat)[j],
                dot(m, yh, (n - 1) as nat)[j],
                m[l][j],
                s[l][j],
                yh[l][j],
            );
        }
    }
    assert(dot(m, z, n) =~= target);
}

/// The sum of products is a sequence of 256 residues in `[0, q)`.
pub proof fn lemma_dot_canonical(m: Seq<Seq<int>>, v: Seq<Seq<int>>, n: nat)
    ensures
        is_canonical(dot(m, v, n)),
    decreases n,
{
    if n == 0 {
        assert forall|i: int| 0 <= i < 256 implies 0 <= #[trigger] dot(m, v, n)[i] < q() by {
            assert(zeros()[i] == 0);
        }
    }
}

/// The transform of the high part of the public vector, times `2^D`: the
/// public vector is `t = A s1 + s2`, its high part times `2^D` is `t` less
/// its low part.
pub proof fn lemma_hat_shifted(d1: Seq<int>, s2: Seq<int>)
    requires
        is_canonical(d1),
        s2.len() == 256,
    ensures
        ntt_spec(
            canon_all(shifted(power2round_high_all(ring_add(intt_spec(d1), canon_all(s2))))),
        ) == lin(
            1,
            ring_add(d1, ntt_spec(canon_all(s2))),
            -1,
            ntt_spec(canon_all(power2round_low_all(ring_add(intt_spec(d1), canon_all(s2))))),
        ),
{
    let t = ring_add(intt_spec(d1), canon_all(s2));
    let t1 = power2round_high_all(t);
    let t0 = power2round_low_all(t);
    let lhs = canon_all(shifted(t1));
    assert forall|j: int| 0 <= j < 256 implies #[trigger] lhs[j] == lin(1, t, -1, canon_all(t0))[j] by {
        lemma_power2round(t[j]);
        lemma_eqm_canon(t0[j]);
        lemma_eqm_canon(t[j]);
        lemma_eqm_add(t[j], t[j], canon(t0[j]), t0[j]);
        assert(1 * t[j] + (-1) * canon(t0[j]) == t[j] - canon(t0[j]));
        assert(t1[j] * 8192 == t[j] - t0[j]);
    }
    assert(lhs =~= lin(1, t, -1, canon_all(t0)));
    lemma_ntt_linear(1, t, -1, canon_all(t0));
    lemma_ntt_sum(d1, canon_all(s2));
}

proof fn lemma_recovered_coeff(c: int, d1: int, dy: int, s2: int, t0: int)
    ensures
        canon(
            canon(canon(c * d1) + dy) - canon(c * canon(1 * canon(d1 + s2) + (-1) * t0)),
        ) == canon(1 * canon(1 * dy + (-1) * canon(c * s2)) + 1 * canon(c * t0)),
{
    // The left side.
    lemma_eqm_canon(c * d1);
    lemma_eqm_canon(dy);
    lemma_eqm_add(canon(c * d1), c * d1, dy, dy);
    lemma_eqm_canon(canon(c * d1) + dy);
    lemma_eqm_canon(d1 + s2);
    lemma_eqm_canon(t0);
    lemma_eqm_add(canon(d1 + s2), d1 + s2, t0, t0);
    assert(1 * canon(d1 + s2) + (-1) * t0 == canon(d1 + s2) - t0);
    lemma_eqm_canon(canon(d1 + s2) - t0);
    lemma_eqm_canon(c);
    lemma_eqm_mul(c, c, canon(canon(d1 + s2) - t0), d1 + s2 - t0);
    lemma_eqm_canon(c * canon(canon(d1 + s2) - t0));
    lemma_eqm_add(
        canon(canon(c * d1) + dy),
        c * d1 + dy,
        canon(c * canon(canon(d1 + s2) - t0)),
        c * (d1 + s2 - t0),
    );
    // The right side.
    lemma_eqm_canon(c * s2);
    lemma_eqm_add(dy, dy, canon(c * s2), c * s2);
    assert(1 * dy + (-1) * canon(c * s2) == dy - canon(c * s2));
    lemma_eqm_canon(dy - canon(c * s2));
    lemma_eqm_canon(c * t0);
    lemma_eqm_add(canon(dy - canon(c * s2)), dy - c * s2, canon(c * t0), c * t0);
    assert(1 * canon(dy - canon(c * s2)) + 1 * canon(c * t0) == canon(dy - canon(c * s2)) + canon(
        c * t0,
    ));
    assert((c * d1 + dy) - c * (d1 + s2 - t0) == (dy - c * s2) + c * t0) by {
        assert(c * (d1 + s2 - t0) == c * d1 + c * s2 - c * t0) by (nonlinear_arith);
    }
}

/// What the verifier transforms back is `w - c s2 + c t0`, where the
/// signer committed to `w`.
pub proof fn lemma_recovered_entry(
    c: Seq<int>,
    d1: Seq<int>,
    dy: Seq<int>,
    s2h: Seq<int>,
    t0h: Seq<int>,
)
    requires
        c.len() == 256,
        d1.len() == 256,
        dy.len() == 256,
        s2h.len() == 256,
        t0h.len() == 256,
    ensures
        intt_spec(
            ring_sub(
                ring_add(pointwise(c, d1), dy),
                pointwise(c, lin(1, ring_add(d1, s2h), -1, t0h)),
            ),
        ) == lin(
            1,
            lin(1, intt_spec(dy), -1, intt_spec(pointwise(c, s2h))),
            1,
            intt_spec(pointwise(c, t0h)),
        ),
{
    let e = ring_sub(
        ring_add(pointwise(c, d1), dy),
        pointwise(c, lin(1, ring_add(d1, s2h), -1, t0h)),
    );
    let prod_s2 = pointwise(c, s2h);
    let prod_t0 = pointwise(c, t0h);
    let inner = lin(1, dy, -1, prod_s2);
    let f = lin(1, inner, 1, prod_t0);
    assert forall|j: int| 0 <= j < 256 implies #[trigger] e[j] == f[j] by {
        lemma_recovered_coeff(c[j], d1[j], dy[j], s2h[j], t0h[j]);
    }
    assert(e =~= f);
    lemma_intt_linear(1, inner, 1, prod_t0);
    lemma_intt_linear(1, dy, -1, prod_s2);
}

/// The hint recovers the high bits of the commitment: where the verifier
/// holds `w - c s2 + c t0`, the low bits of `w` less `c s2` are small and
/// `c t0` is small, the high bits of what the verifier holds, corrected by
/// the hint for the sum of the two small parts, are the high bits of `w`.
pub proof fn lemma_hint_recovers(w: int, cs2: int, ct0: int, b1: int, b2: int)
    requires
        0 <= w < q(),
        abs(centered(canon(canon(low_bits(w)) - cs2))) < b1,
        abs(centered(ct0)) < b2,
        b1 + b2 <= alpha() + 1,
    ensures
        hinted_high_bits(
            canon(1 * canon(1 * w + (-1) * cs2) + 1 * ct0),
            hint_of(
                centered(canon(canon(low_bits(w)) - cs2)) + centered(ct0),
                high_bits(w),
            ),
        ) == high_bits(w),
{
    let w1 = high_bits(w);
    let w0 = low_bits(w);
    let lr = canon(canon(w0) - cs2);
    let a0 = centered(lr) + centered(ct0);
    lemma_decompose(w);
    // w - cs2 + ct0 is congruent to w1 * alpha + a0.
    lemma_eqm_canon(w0);
    lemma_eqm_canon(cs2);
    lemma_eqm_add(canon(w0), w0, cs2, cs2);
    lemma_eqm_canon(canon(w0) - cs2);
    lemma_eqm_canon(lr);
    lemma_eqm_canon(ct0);
    lemma_eqm_add(centered(lr), w0 - cs2, centered(ct0), ct0);
    lemma_eqm_canon(w1 * alpha());
    lemma_eqm_add(w1 * alpha(), w1 * alpha(), a0, w0 - cs2 + ct0);
    // What the verifier holds.
    lemma_eqm_canon(w1 * alpha() + w0);
    lemma_eqm_canon(w);
    lemma_eqm_add(w, w1 * alpha() + w0, cs2, cs2);
    assert(1 * w + (-1) * cs2 == w - cs2);
    lemma_eqm_canon(w - cs2);
    lemma_eqm_add(canon(w - cs2), w1 * alpha() + w0 - cs2, ct0, ct0);
    assert(1 * canon(w - cs2) + 1 * ct0 == canon(w - cs2) + ct0);
    assert(w1 * alpha() + a0 == w1 * alpha() + centered(lr) + centered(ct0));
    assert(eqm(canon(w - cs2) + ct0, w1 * alpha() + a0));
    lemma_use_hint(w1, a0);
}



/// What the signer checks is the low part of `w - c s2`: where the low
/// bits of `w`, less `c s2`, are smaller than `GAMMA2` in the centered
/// representative, they are the low bits of `w - c s2`, and the high bits
/// of `w - c s2` are those of `w`.
pub proof fn lemma_low_rest_is_low_bits(w: int, cs2: int)
    requires
        0 <= w < q(),
        abs(centered(canon(canon(low_bits(w)) - cs2))) < 261888,
    ensures
        low_bits(canon(w - cs2)) == centered(canon(canon(low_bits(w)) - cs2)),
        high_bits(canon(w - cs2)) == high_bits(w),
{
    let w1 = high_bits(w);
    let w0 = low_bits(w);
    let lr = canon(canon(w0) - cs2);
    let l = centered(lr);
    lemma_decompose(w);
    lemma_eqm_canon(w0);
    lemma_eqm_canon(cs2);
    lemma_eqm_add(canon(w0), w0, cs2, cs2);
    lemma_eqm_canon(canon(w0) - cs2);
    lemma_eqm_canon(lr);
    lemma_eqm_canon(w1 * alpha());
    lemma_eqm_add(w1 * alpha(), w1 * alpha(), l, w0 - cs2);
    lemma_eqm_canon(w1 * alpha() + w0);
    lemma_eqm_canon(w);
    lemma_eqm_add(w, w1 * alpha() + w0, cs2, cs2);
    assert(w1 * alpha() + (w0 - cs2) == w1 * alpha() + w0 - cs2);
    assert(canon(w - cs2) == canon(w1 * alpha() + l));
    lemma_decompose_of(w1, l);
}

/// A small number is the centered representative of its residue.
proof fn lemma_centered_of_small(x: int)
    requires
        -4190208 <= x <= 4190208,
    ensures
        centered(canon(x)) == x,
        centered(x) == x,
{
}

/// Where `u` is congruent to `w - cs2`, with high bits `u1` and low bits
/// `u0`, `w` is congruent to `u1 * alpha + (u0 + c)` for every `c`
/// congruent to `cs2`.
proof fn lemma_add_back(w: int, cs2: int, u: int, u1: int, u0: int, c: int)
    requires
        eqm(u, w - cs2),
        eqm(u, u1 * alpha() + u0),
        eqm(c, cs2),
    ensures
        eqm(w, u1 * alpha() + (u0 + c)),
{
    lemma_eqm_add(u, w - cs2, cs2, cs2);
    lemma_eqm_add(u, u1 * alpha() + u0, cs2, c);
    assert(w - cs2 + cs2 == w);
    assert(u1 * alpha() + u0 + c == u1 * alpha() + (u0 + c));
}

/// Where `w0` is `u0 + c` and `c` is congruent to `cs2`, `w0 - cs2` is
/// congruent to `u0`.
proof fn lemma_take_off(w0: int, u0: int, c: int, cs2: int)
    requires
        w0 == u0 + c,
        eqm(c, cs2),
    ensures
        canon(canon(w0) - cs2) == canon(u0),
{
    lemma_eqm_canon(w0);
    lemma_eqm_add(canon(w0), u0 + c, cs2, c);
    lemma_eqm_canon(canon(w0) - cs2);
    assert(u0 + c - c == u0);
}

/// The low bits of `w - c s2`, where they are small and `c s2` is small,
/// are the low bits of `w` less `c s2`.
pub proof fn lemma_low_bits_is_low_rest(w: int, cs2: int, b1: int, b2: int)
    requires
        0 <= w < q(),
        abs(low_bits(canon(w - cs2))) < b1,
        abs(centered(cs2)) <= b2,
        0 <= b2,
        b1 + b2 <= 261888,
    ensures
        centered(canon(canon(low_bits(w)) - cs2)) == low_bits(canon(w - cs2)),
{
    let u = canon(w - cs2);
    let u1 = high_bits(u);
    let u0 = low_bits(u);
    let c = centered(cs2);
    lemma_decompose(u);
    lemma_eqm_canon(w - cs2);
    lemma_eqm_canon(cs2);
    lemma_eqm_canon(u1 * alpha() + u0);
    assert(eqm(u, u1 * alpha() + u0));
    lemma_add_back(w, cs2, u, u1, u0, c);
    lemma_decompose_of(u1, u0 + c);
    assert(canon(w) == w);
    assert(low_bits(w) == u0 + c);
    lemma_take_off(low_bits(w), u0, c, cs2);
    lemma_centered_of_small(u0);
}

/// The hint of the signer marks a change of the high bits: it is set if
/// and only if `w - c s2 + c t0` has other high bits than `w - c s2`,
/// where the low bits of `w` less `c s2`, and `c t0`, are small.
pub proof fn lemma_hint_is_change(w: int, cs2: int, ct0: int, b1: int, b2: int)
    requires
        0 <= w < q(),
        abs(centered(canon(canon(low_bits(w)) - cs2))) < b1,
        abs(centered(ct0)) < b2,
        b1 <= 261888,
        b1 + b2 <= alpha() + 1,
    ensures
        hint_of(
            centered(canon(canon(low_bits(w)) - cs2)) + centered(ct0),
            high_bits(w),
        ) <==> high_bits(canon(canon(w - cs2) + ct0)) != high_bits(canon(w - cs2)),
{
    let w1 = high_bits(w);
    let w0 = low_bits(w);
    let lr = canon(canon(w0) - cs2);
    let a0 = centered(lr) + centered(ct0);
    lemma_decompose(w);
    lemma_low_rest_is_low_bits(w, cs2);
    lemma_eqm_canon(w0);
    lemma_eqm_canon(cs2);
    lemma_eqm_add(canon(w0), w0, cs2, cs2);
    lemma_eqm_canon(canon(w0) - cs2);
    lemma_eqm_canon(lr);
    lemma_eqm_canon(ct0);
    lemma_eqm_add(centered(lr), w0 - cs2, centered(ct0), ct0);
    lemma_eqm_canon(w1 * alpha());
    lemma_eqm_add(w1 * alpha(), w1 * alpha(), a0, w0 - cs2 + ct0);
    lemma_eqm_canon(w1 * alpha() + w0);
    lemma_eqm_canon(w);
    lemma_eqm_add(w, w1 * alpha() + w0, cs2, cs2);
    lemma_eqm_canon(w - cs2);
    lemma_eqm_add(canon(w - cs2), w1 * alpha() + w0 - cs2, ct0, ct0);
    assert(w1 * alpha() + a0 == w1 * alpha() + centered(lr) + centered(ct0));
    assert(eqm(canon(w - cs2) + ct0, w1 * alpha() + a0));
    lemma_hint_marks_change(w1, a0);
}

} // verus!
