use pqc_dilithium::api::SignError;
use pqc_dilithium::digits::{pack_digits, regroup_digits, unpack_digits};
use pqc_dilithium::packing::{
    pack_hints, pack_pk, pack_poly, pack_sig, pack_sk, pack_vec, unpack_hints, unpack_pk,
    unpack_poly, unpack_sig, unpack_sk, unpack_vec, Coding, SecretKey,
};
use pqc_dilithium::params::{N, PUBLICKEYBYTES, SECRETKEYBYTES, SIGNBYTES};
use pqc_dilithium::poly::{
    polyeta_pack, polyeta_unpack, polyt0_pack, polyt0_unpack, polyt1_pack, polyt1_unpack,
    polyw1_pack, polyw1_unpack, polyz_pack, polyz_unpack, Poly,
};
use pqc_dilithium::polyvec::{Polyveck, Polyvecl};

fn spread(lo: i32, hi: i32, salt: i64) -> Poly {
    let mut p = Poly { coeffs: [0i32; N] };
    let width = (hi - lo + 1) as i64;
    for i in 0..N {
        p.coeffs[i] = lo + (((i as i64 + salt) * 2654435761) % width) as i32;
    }
    p.coeffs[0] = lo;
    p.coeffs[1] = hi;
    p
}

fn bytes(len: usize, salt: u32) -> Vec<u8> {
    let mut v = Vec::new();
    let mut x: u32 = salt;
    for _ in 0..len {
        x = x.wrapping_mul(1664525).wrapping_add(1013904223);
        v.push((x >> 24) as u8);
    }
    v
}

#[test]
fn regroup_digits_values() {
    assert_eq!(regroup_digits(&[0x3ff, 0, 0x3ff, 0], 1024, 256, 4, 5), vec![0xff, 0x03, 0xf0, 0x3f, 0x00]);
    assert_eq!(regroup_digits(&[1, 2, 3, 4], 1024, 256, 4, 5), vec![0x01, 0x08, 0x30, 0x00, 0x01]);
    assert_eq!(regroup_digits(&[0x01, 0x08, 0x30, 0x00, 0x01], 256, 1024, 5, 4), vec![1, 2, 3, 4]);
    assert_eq!(regroup_digits(&[5, 9, 15, 0], 16, 256, 2, 1), vec![0x95, 0x0f]);
    assert_eq!(regroup_digits(&[5, 9, 15], 16, 256, 2, 1), vec![0x95]);
    let mut out = vec![0xaa];
    pack_digits(&[0xfffff, 0x12345], 1048576, 2, 5, &mut out);
    assert_eq!(out, vec![0xaa, 0xff, 0xff, 0x5f, 0x34, 0x12]);
    assert_eq!(unpack_digits(&[0xff, 0xff, 0x5f, 0x34, 0x12], 1048576, 5, 2), vec![0xfffff, 0x12345]);
}

#[test]
fn polyt1_layout() {
    let mut p = Poly { coeffs: [0i32; N] };
    p.coeffs[0] = 1;
    p.coeffs[1] = 2;
    p.coeffs[2] = 3;
    p.coeffs[3] = 4;
    p.coeffs[255] = 1023;
    let mut out = Vec::new();
    polyt1_pack(&p, &mut out);
    assert_eq!(out.len(), 320);
    assert_eq!(&out[..5], &[0x01, 0x08, 0x30, 0x00, 0x01]);
    assert_eq!(&out[315..], &[0, 0, 0, 0xc0, 0xff]);
    assert_eq!(polyt1_unpack(&out).coeffs, p.coeffs);
}

#[test]
fn polyeta_layout() {
    let mut p = Poly { coeffs: [0i32; N] };
    p.coeffs[0] = 4;
    p.coeffs[1] = -4;
    p.coeffs[2] = 1;
    let mut out = Vec::new();
    polyeta_pack(&p, &mut out);
    assert_eq!(out.len(), 128);
    assert_eq!(&out[..3], &[0x80, 0x43, 0x44]);
    assert_eq!(polyeta_unpack(&out).coeffs, p.coeffs);
    assert_eq!(polyeta_unpack(&[0xff; 128]).coeffs, [-11i32; N]);
}

#[test]
fn polyt0_polyz_polyw1_layout() {
    let mut p = Poly { coeffs: [0i32; N] };
    p.coeffs[0] = 4096;
    p.coeffs[1] = -4095;
    let mut out = Vec::new();
    polyt0_pack(&p, &mut out);
    assert_eq!(out.len(), 416);
    assert_eq!(&out[..4], &[0x00, 0xe0, 0xff, 0x03]);
    let mut z = Poly { coeffs: [0i32; N] };
    z.coeffs[0] = 524288;
    z.coeffs[1] = -524287;
    let mut out = Vec::new();
    polyz_pack(&z, &mut out);
    assert_eq!(out.len(), 640);
    assert_eq!(&out[..5], &[0x00, 0x00, 0xf0, 0xff, 0xff]);
    let mut w = Poly { coeffs: [0i32; N] };
    w.coeffs[0] = 15;
    w.coeffs[1] = 1;
    w.coeffs[2] = 7;
    let mut out = Vec::new();
    polyw1_pack(&w, &mut out);
    assert_eq!(out.len(), 128);
    assert_eq!(&out[..2], &[0x1f, 0x07]);
    assert_eq!(polyw1_unpack(&out).coeffs, w.coeffs);
}

#[test]
fn every_coding_round_trips() {
    let cases = [
        (Coding::Eta, -4, 4, 128usize),
        (Coding::T1, 0, 1023, 320),
        (Coding::T0, -4095, 4096, 416),
        (Coding::Z, -524287, 524288, 640),
        (Coding::W1, 0, 15, 128),
    ];
    for (kind, lo, hi, size) in cases {
        let p = spread(lo, hi, size as i64);
        let mut out = Vec::new();
        pack_poly(&p, kind, &mut out);
        assert_eq!(out.len(), size);
        assert_eq!(unpack_poly(&out, kind).coeffs, p.coeffs);
        let raw = bytes(size, size as u32);
        let q = unpack_poly(&raw, kind);
        let mut again = Vec::new();
        // What is unpacked from any bytes is packed to the same bytes,
        // where the coefficients lie in the range that is packed.
        if q.coeffs.iter().all(|c| lo <= *c && *c <= hi) {
            pack_poly(&q, kind, &mut again);
            assert_eq!(again, raw);
        } else {
            assert!(matches!(kind, Coding::Eta));
        }
    }
}

#[test]
fn specific_unpackers_invert_packers() {
    let t0 = spread(-4095, 4096, 5);
    let mut out = Vec::new();
    polyt0_pack(&t0, &mut out);
    assert_eq!(polyt0_unpack(&out).coeffs, t0.coeffs);
    let z = spread(-524287, 524288, 6);
    let mut out = Vec::new();
    polyz_pack(&z, &mut out);
    assert_eq!(polyz_unpack(&out).coeffs, z.coeffs);
}

#[test]
fn vectors_round_trip() {
    let mut v = Polyveck { vec: [Poly { coeffs: [0i32; N] }; 6] };
    for i in 0..6 {
        v.vec[i] = spread(0, 1023, i as i64);
    }
    let mut out = vec![1, 2, 3];
    pack_vec(&v, Coding::T1, &mut out);
    assert_eq!(out.len(), 3 + 6 * 320);
    let back: Polyveck = unpack_vec(&out[3..], Coding::T1);
    for i in 0..6 {
        assert_eq!(back.vec[i].coeffs, v.vec[i].coeffs);
    }
}

#[test]
fn public_key_round_trips() {
    let mut t1 = Polyveck { vec: [Poly { coeffs: [0i32; N] }; 6] };
    for i in 0..6 {
        t1.vec[i] = spread(0, 1023, 10 + i as i64);
    }
    let rho = [0x5au8; 32];
    let pk = pack_pk(&rho, &t1);
    assert_eq!(pk.len(), PUBLICKEYBYTES);
    assert_eq!(&pk[..32], &rho);
    let back = unpack_pk(&pk);
    assert_eq!(back.rho, rho);
    for i in 0..6 {
        assert_eq!(back.t1.vec[i].coeffs, t1.vec[i].coeffs);
    }
    let mut raw = [0u8; PUBLICKEYBYTES];
    raw.copy_from_slice(&bytes(PUBLICKEYBYTES, 77));
    let key = unpack_pk(&raw);
    assert_eq!(pack_pk(&key.rho, &key.t1), raw);
}

fn secret_key() -> SecretKey {
    let mut s1 = Polyvecl { vec: [Poly { coeffs: [0i32; N] }; 5] };
    let mut s2 = Polyveck { vec: [Poly { coeffs: [0i32; N] }; 6] };
    let mut t0 = Polyveck { vec: [Poly { coeffs: [0i32; N] }; 6] };
    for i in 0..5 {
        s1.vec[i] = spread(-4, 4, i as i64);
    }
    for i in 0..6 {
        s2.vec[i] = spread(-4, 4, 20 + i as i64);
        t0.vec[i] = spread(-4095, 4096, 30 + i as i64);
    }
    SecretKey { rho: [1u8; 32], key: [2u8; 32], tr: [3u8; 32], s1, s2, t0 }
}

#[test]
fn secret_key_round_trips() {
    let k = secret_key();
    let sk = pack_sk(&k);
    assert_eq!(sk.len(), SECRETKEYBYTES);
    assert_eq!(&sk[..32], &[1u8; 32]);
    assert_eq!(&sk[32..64], &[2u8; 32]);
    assert_eq!(&sk[64..96], &[3u8; 32]);
    let back = unpack_sk(&sk).unwrap();
    assert_eq!((back.rho, back.key, back.tr), (k.rho, k.key, k.tr));
    for i in 0..5 {
        assert_eq!(back.s1.vec[i].coeffs, k.s1.vec[i].coeffs);
    }
    for i in 0..6 {
        assert_eq!(back.s2.vec[i].coeffs, k.s2.vec[i].coeffs);
        assert_eq!(back.t0.vec[i].coeffs, k.t0.vec[i].coeffs);
    }
    assert_eq!(pack_sk(&back), sk);
}

#[test]
fn secret_key_with_coefficient_out_of_range_is_rejected() {
    let mut sk = pack_sk(&secret_key());
    // The digit 9 stands for the coefficient -5.
    sk[96] = 0x09;
    assert!(matches!(unpack_sk(&sk), Err(SignError::Format)));
    let mut sk = pack_sk(&secret_key());
    sk[1503] = 0xf0;
    assert!(matches!(unpack_sk(&sk), Err(SignError::Format)));
    let mut sk = pack_sk(&secret_key());
    // The digit 8 stands for the coefficient -4, which is in range.
    sk[96] = 0x08;
    assert!(unpack_sk(&sk).is_ok());
}

fn hints() -> Polyveck {
    let mut h = Polyveck { vec: [Poly { coeffs: [0i32; N] }; 6] };
    h.vec[0].coeffs[3] = 1;
    h.vec[0].coeffs[200] = 1;
    h.vec[2].coeffs[0] = 1;
    h.vec[5].coeffs[255] = 1;
    h
}

#[test]
fn hints_layout() {
    let mut out = Vec::new();
    pack_hints(&hints(), &mut out);
    assert_eq!(out.len(), 61);
    assert_eq!(&out[..5], &[3, 200, 0, 255, 0]);
    assert!(out[5..55].iter().all(|b| *b == 0));
    assert_eq!(&out[55..], &[2, 2, 3, 3, 3, 4]);
    let back = unpack_hints(&out).unwrap();
    for i in 0..6 {
        assert_eq!(back.vec[i].coeffs, hints().vec[i].coeffs);
    }
    let empty = Polyveck { vec: [Poly { coeffs: [0i32; N] }; 6] };
    let mut out = Vec::new();
    pack_hints(&empty, &mut out);
    assert_eq!(out, vec![0u8; 61]);
}

#[test]
fn hints_that_are_not_valid_are_rejected() {
    let mut good = Vec::new();
    pack_hints(&hints(), &mut good);
    // An end before the start.
    let mut b = good.clone();
    b[56] = 1;
    assert!(unpack_hints(&b).is_none());
    // An end after the last place.
    let mut b = good.clone();
    b[60] = 56;
    assert!(unpack_hints(&b).is_none());
    // Places that do not rise.
    let mut b = good.clone();
    b[0] = 200;
    assert!(unpack_hints(&b).is_none());
    let mut b = good.clone();
    b[1] = 2;
    assert!(unpack_hints(&b).is_none());
    // A byte after the last place that is not zero.
    let mut b = good.clone();
    b[4] = 1;
    assert!(unpack_hints(&b).is_none());
    assert!(unpack_hints(&good).is_some());
}

#[test]
fn full_hints_round_trip() {
    let mut h = Polyveck { vec: [Poly { coeffs: [0i32; N] }; 6] };
    for j in 0..55 {
        h.vec[j % 6].coeffs[(j * 37) % 256] = 1;
    }
    let mut out = Vec::new();
    pack_hints(&h, &mut out);
    assert_eq!(out[60], 55);
    let back = unpack_hints(&out).unwrap();
    for i in 0..6 {
        assert_eq!(back.vec[i].coeffs, h.vec[i].coeffs);
    }
    let mut again = Vec::new();
    pack_hints(&back, &mut again);
    assert_eq!(again, out);
}

#[test]
fn signature_round_trips() {
    let mut z = Polyvecl { vec: [Poly { coeffs: [0i32; N] }; 5] };
    for i in 0..5 {
        z.vec[i] = spread(-524287, 524288, 40 + i as i64);
    }
    let c = [0xc3u8; 32];
    let sig = pack_sig(&c, &z, &hints());
    assert_eq!(sig.len(), SIGNBYTES);
    let back = unpack_sig(&sig).unwrap();
    assert_eq!(back.c, c);
    for i in 0..5 {
        assert_eq!(back.z.vec[i].coeffs, z.vec[i].coeffs);
    }
    for i in 0..6 {
        assert_eq!(back.h.vec[i].coeffs, hints().vec[i].coeffs);
    }
    assert_eq!(pack_sig(&back.c, &back.z, &back.h), sig);
    let mut bad = sig;
    bad[SIGNBYTES - 1] = 200;
    assert!(matches!(unpack_sig(&bad), Err(SignError::Format)));
}
