use pqc_dilithium::ntt::{invntt_tomont, ntt};
use pqc_dilithium::params::{N, Q};
use pqc_dilithium::poly::{
    poly_add, poly_chknorm, poly_decompose, poly_freeze, poly_invntt_tomont, poly_make_hint,
    poly_ntt, poly_pointwise_montgomery, poly_power2round, poly_reduce, poly_shiftl, poly_sub,
    poly_use_hint, Poly,
};
use pqc_dilithium::reduce::{caddq, freeze, montgomery_reduce, reduce32};
use pqc_dilithium::rounding::{decompose, make_hint, power2round, use_hint};

#[test]
fn montgomery_reduce_values() {
    assert_eq!(montgomery_reduce(0), 0);
    assert_eq!(montgomery_reduce(1), -114592);
    assert_eq!(montgomery_reduce(4193792), 1);
    assert_eq!(montgomery_reduce(-4193792 * 5), -5);
    assert_eq!(montgomery_reduce((i32::MAX as i64) * (Q as i64) - 12345), 6728184);
}

#[test]
fn reduce32_values() {
    assert_eq!(reduce32(0), 0);
    assert_eq!(reduce32(Q), 0);
    assert_eq!(reduce32(-Q), 0);
    assert_eq!(reduce32(i32::MAX - (1 << 22)), 6283008);
    assert_eq!(reduce32(i32::MIN), -2096896);
    assert_eq!(reduce32(12345678), 3965261);
}

#[test]
fn caddq_and_freeze_values() {
    assert_eq!(caddq(-1), Q - 1);
    assert_eq!(caddq(0), 0);
    assert_eq!(caddq(5), 5);
    assert_eq!(freeze(-1), Q - 1);
    assert_eq!(freeze(Q + 7), 7);
    assert_eq!(freeze(-3 * Q + 2), 2);
    assert_eq!(freeze(i32::MIN), 6283521);
}

#[test]
fn power2round_values() {
    assert_eq!(power2round(0), (0, 0));
    assert_eq!(power2round(4096), (0, 4096));
    assert_eq!(power2round(4097), (1, -4095));
    assert_eq!(power2round(8192), (1, 0));
    assert_eq!(power2round(Q - 1), (1023, 0));
}

#[test]
fn decompose_values() {
    assert_eq!(decompose(0), (0, 0));
    assert_eq!(decompose(261888), (0, 261888));
    assert_eq!(decompose(261889), (1, -261887));
    assert_eq!(decompose(523776), (1, 0));
    assert_eq!(decompose(4000000), (8, -190208));
    assert_eq!(decompose(8118528), (15, 261888));
    assert_eq!(decompose(8118529), (0, -261888));
    assert_eq!(decompose(Q - 1), (0, -1));
}

#[test]
fn every_coefficient_decomposes_to_itself() {
    let mut a: i32 = 0;
    while a < Q {
        let (a1, a0) = decompose(a);
        assert!((0..16).contains(&a1));
        assert!((-261888..=261888).contains(&a0));
        assert_eq!((a1 as i64 * 523776 + a0 as i64).rem_euclid(Q as i64), a as i64);
        let (t1, t0) = power2round(a);
        assert_eq!(t1 * 8192 + t0, a);
        assert!(-4096 < t0 && t0 <= 4096);
        a += 997;
    }
}

#[test]
fn make_hint_values() {
    assert_eq!(make_hint(0, 3), 0);
    assert_eq!(make_hint(261888, 3), 0);
    assert_eq!(make_hint(261889, 3), 1);
    assert_eq!(make_hint(-261889, 0), 1);
    assert_eq!(make_hint(-261888, 0), 0);
    assert_eq!(make_hint(-261888, 1), 1);
}

#[test]
fn use_hint_values() {
    assert_eq!(use_hint(4000000, 0), 8);
    assert_eq!(use_hint(4000000, 1), 7);
    assert_eq!(use_hint(4200000, 1), 9);
    assert_eq!(use_hint(Q - 1, 1), 15);
    assert_eq!(use_hint(8118528, 1), 0);
    assert_eq!(use_hint(1, 1), 1);
    assert_eq!(use_hint(0, 1), 15);
}

#[test]
fn hint_recovers_high_bits() {
    let gamma2: i64 = 261888;
    let alpha: i64 = 2 * gamma2;
    for w1 in 0..16i64 {
        let mut a0 = -alpha + 1;
        while a0 < alpha {
            let a = (w1 * alpha + a0).rem_euclid(Q as i64) as i32;
            let hint = make_hint(a0 as i32, w1 as i32);
            assert_eq!(use_hint(a, hint), w1 as i32);
            a0 += 4093;
        }
        for a0 in [-gamma2 - 1, -gamma2, -gamma2 + 1, -1, 0, 1, gamma2 - 1, gamma2, gamma2 + 1] {
            let a = (w1 * alpha + a0).rem_euclid(Q as i64) as i32;
            let hint = make_hint(a0 as i32, w1 as i32);
            assert_eq!(use_hint(a, hint), w1 as i32);
        }
    }
}

fn counting() -> [i32; N] {
    let mut a = [0i32; N];
    for i in 0..N {
        a[i] = (i as i32) + 1;
    }
    a
}

#[test]
fn ntt_of_one_is_all_ones() {
    let mut a = [0i32; N];
    a[0] = 1;
    let t = ntt(&a);
    for i in 0..N {
        assert_eq!(freeze(t[i]), 1);
    }
}

#[test]
fn inverse_transform_undoes_transform() {
    let a = counting();
    let t = ntt(&a);
    let mut reduced = [0i32; N];
    for i in 0..N {
        assert!(t[i].abs() < 9 * Q);
        reduced[i] = reduce32(t[i]);
    }
    let back = invntt_tomont(&reduced);
    for i in 0..N {
        assert!(back[i].abs() < Q);
        let expected = ((a[i] as i64) * 4193792).rem_euclid(Q as i64);
        assert_eq!(freeze(back[i]) as i64, expected);
    }
}

fn ring_product(a: &Poly, b: &Poly) -> Poly {
    let c = poly_pointwise_montgomery(&poly_ntt(a), &poly_ntt(b));
    poly_freeze(&poly_invntt_tomont(&c))
}

#[test]
fn transform_multiplies_in_the_ring() {
    let mut x = Poly { coeffs: [0i32; N] };
    x.coeffs[1] = 1;
    let square = ring_product(&x, &x);
    for i in 0..N {
        assert_eq!(square.coeffs[i], if i == 2 { 1 } else { 0 });
    }
    let mut top = Poly { coeffs: [0i32; N] };
    top.coeffs[255] = 1;
    let wrapped = ring_product(&top, &x);
    for i in 0..N {
        assert_eq!(wrapped.coeffs[i], if i == 0 { Q - 1 } else { 0 });
    }
    let a = Poly { coeffs: counting() };
    let mut three = Poly { coeffs: [0i32; N] };
    three.coeffs[0] = 3;
    let tripled = ring_product(&a, &three);
    for i in 0..N {
        assert_eq!(tripled.coeffs[i], 3 * a.coeffs[i]);
    }
}

#[test]
fn poly_arithmetic_values() {
    let a = Poly { coeffs: counting() };
    let mut b = Poly { coeffs: [0i32; N] };
    for i in 0..N {
        b.coeffs[i] = Q - (i as i32);
    }
    let sum = poly_add(&a, &b);
    let diff = poly_sub(&a, &b);
    for i in 0..N {
        assert_eq!(sum.coeffs[i], Q + 1);
        assert_eq!(diff.coeffs[i], 2 * (i as i32) + 1 - Q);
    }
    let reduced = poly_reduce(&sum);
    let frozen = poly_freeze(&diff);
    for i in 0..N {
        assert_eq!(reduced.coeffs[i], 1);
        assert_eq!(frozen.coeffs[i], 2 * (i as i32) + 1);
    }
    let shifted = poly_shiftl(&a);
    for i in 0..N {
        assert_eq!(shifted.coeffs[i], a.coeffs[i] * 8192);
    }
}

#[test]
fn poly_rounding_values() {
    let mut a = Poly { coeffs: [0i32; N] };
    for i in 0..N {
        a.coeffs[i] = ((i as i64 * 32749 * 251) % (Q as i64)) as i32;
    }
    let (t1, t0) = poly_power2round(&a);
    let (w1, w0) = poly_decompose(&a);
    for i in 0..N {
        assert_eq!((t1.coeffs[i], t0.coeffs[i]), power2round(a.coeffs[i]));
        assert_eq!((w1.coeffs[i], w0.coeffs[i]), decompose(a.coeffs[i]));
    }
    let mut low = Poly { coeffs: [0i32; N] };
    low.coeffs[3] = 261889;
    low.coeffs[7] = -261888;
    low.coeffs[9] = -300000;
    let mut high = Poly { coeffs: [0i32; N] };
    high.coeffs[7] = 2;
    let (h, n) = poly_make_hint(&low, &high);
    assert_eq!(n, 3);
    for i in 0..N {
        assert_eq!(h.coeffs[i], if i == 3 || i == 7 || i == 9 { 1 } else { 0 });
    }
    let used = poly_use_hint(&a, &h);
    for i in 0..N {
        assert_eq!(used.coeffs[i], use_hint(a.coeffs[i], h.coeffs[i]));
    }
}

#[test]
fn chknorm_values() {
    let mut a = Poly { coeffs: [0i32; N] };
    a.coeffs[17] = 100;
    a.coeffs[200] = -101;
    assert!(!poly_chknorm(&a, 102));
    assert!(poly_chknorm(&a, 101));
    assert!(poly_chknorm(&a, 1));
    let zero = Poly { coeffs: [0i32; N] };
    assert!(!poly_chknorm(&zero, 1));
}
