use pqc_dilithium::params::{N, Q};
use pqc_dilithium::poly::{
    poly_challenge, poly_uniform, poly_uniform_eta, poly_uniform_gamma1, polyz_unpack,
};
use pqc_dilithium::polyvec::{
    polyvec_matrix_expand, polyvec_uniform_eta, polyvecl_uniform_gamma1, Polyveck, Polyvecl,
};
use pqc_dilithium::symmetric::{stream128_init, stream128_squeezeblocks, stream256_init, stream256_squeezeblocks, State};

#[test]
fn uniform_takes_the_candidates_below_q_in_order() {
    let seed = [7u8; 32];
    let a = poly_uniform(&seed, 0x0305).unwrap();
    let mut state = State::default();
    stream128_init(&mut state, &seed, 0x0305);
    let mut expected = Vec::new();
    while expected.len() < N {
        let mut block = [0u8; 168];
        stream128_squeezeblocks(&mut block, 1, &mut state);
        for k in 0..56 {
            let t = (block[3 * k] as i32)
                | ((block[3 * k + 1] as i32) << 8)
                | (((block[3 * k + 2] & 0x7f) as i32) << 16);
            if t < Q && expected.len() < N {
                expected.push(t);
            }
        }
    }
    assert_eq!(a.coeffs.to_vec(), expected);
    assert!(a.coeffs.iter().all(|c| 0 <= *c && *c < Q));
    assert_ne!(poly_uniform(&seed, 0x0306).unwrap().coeffs, a.coeffs);
}

#[test]
fn eta_takes_the_small_nibbles_in_order() {
    let seed = [9u8; 64];
    let a = poly_uniform_eta(&seed, 3).unwrap();
    let mut state = State::default();
    stream256_init(&mut state, &seed, 3);
    let mut expected = Vec::new();
    while expected.len() < N {
        let mut block = [0u8; 136];
        stream256_squeezeblocks(&mut block, 1, &mut state);
        for byte in block {
            for t in [byte & 15, byte >> 4] {
                if t < 9 && expected.len() < N {
                    expected.push(4 - (t as i32));
                }
            }
        }
    }
    assert_eq!(a.coeffs.to_vec(), expected);
    assert!(a.coeffs.iter().all(|c| -4 <= *c && *c <= 4));
}

#[test]
fn gamma1_unpacks_the_stream() {
    let seed = [1u8; 32];
    let a = poly_uniform_gamma1(&seed, 12);
    let mut state = State::default();
    stream256_init(&mut state, &seed, 12);
    let mut buf = [0u8; 680];
    stream256_squeezeblocks(&mut buf, 5, &mut state);
    assert_eq!(a.coeffs, polyz_unpack(&buf[..640]).coeffs);
    assert!(a.coeffs.iter().all(|c| -524287 <= *c && *c <= 524288));
}

#[test]
fn challenge_has_tau_signs_among_zeros() {
    for salt in 0..20u8 {
        let c = poly_challenge(&[salt; 32]).unwrap();
        let nonzero = c.coeffs.iter().filter(|x| **x != 0).count();
        assert_eq!(nonzero, 49);
        assert!(c.coeffs.iter().all(|x| -1 <= *x && *x <= 1));
        assert_eq!(poly_challenge(&[salt; 32]).unwrap().coeffs, c.coeffs);
    }
}

#[test]
fn vectors_use_consecutive_nonces() {
    let seed = [4u8; 64];
    let s1: Polyvecl = polyvec_uniform_eta(&seed, 0).unwrap();
    let s2: Polyveck = polyvec_uniform_eta(&seed, 5).unwrap();
    for i in 0..5 {
        assert_eq!(s1.vec[i].coeffs, poly_uniform_eta(&seed, i as u16).unwrap().coeffs);
    }
    for i in 0..6 {
        assert_eq!(s2.vec[i].coeffs, poly_uniform_eta(&seed, 5 + i as u16).unwrap().coeffs);
    }
    let y = polyvecl_uniform_gamma1(&seed, 3);
    for i in 0..5 {
        assert_eq!(y.vec[i].coeffs, poly_uniform_gamma1(&seed, 15 + i as u16).coeffs);
    }
    let mat = polyvec_matrix_expand(&seed[..32]).unwrap();
    for i in 0..6 {
        for j in 0..5 {
            assert_eq!(
                mat[i].vec[j].coeffs,
                poly_uniform(&seed[..32], (256 * i + j) as u16).unwrap().coeffs
            );
        }
    }
}

#[test]
fn many_seeds_fill_every_sampler() {
    for salt in 0..40u8 {
        let seed = [salt; 32];
        for nonce in 0..4u16 {
            assert!(poly_uniform(&seed, nonce).is_some());
            assert!(poly_uniform_eta(&seed, nonce).is_some());
        }
        assert!(poly_challenge(&seed).is_some());
        assert!(polyvec_matrix_expand(&seed).is_some());
    }
}
