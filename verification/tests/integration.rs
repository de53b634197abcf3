use pqc_dilithium::packing::{unpack_pk, unpack_sk};
use pqc_dilithium::params::{N, Q};
use pqc_dilithium::poly::{poly_chknorm, Poly};
use pqc_dilithium::polyvec::{
    polyvec_add, polyvec_freeze, polyvec_matrix_expand, polyvec_ntt, polyvec_power2round,
    polyvec_reduce,
};
use pqc_dilithium::sign::{
    crypto_sign_keypair, crypto_sign_signature, crypto_sign_verify, matrix_apply_exec,
    sign_attempt, signer_new, ATTEMPTS_LIMIT, MAX_ATTEMPTS,
};
use pqc_dilithium::{verify, Keypair, SignError, PUBLICKEYBYTES, SECRETKEYBYTES, SIGNBYTES};

#[test]
fn sign_then_verify_valid() {
    let msg = b"Hello";
    let keys = Keypair::derive(b"kekek").unwrap();
    let signature = keys.sign(msg, false).unwrap();
    assert!(verify(&signature, msg, &keys.public).is_ok());
}

#[test]
fn sign_then_verify_invalid() {
    let msg = b"Hello";
    let keys = Keypair::derive(b"kekek").unwrap();
    let mut signature = keys.sign(msg, false).unwrap();
    assert_eq!(signature.len(), SIGNBYTES);
    assert!(verify(&signature, msg, &keys.public).is_ok());
    signature[..4].copy_from_slice(&[255u8; 4]);
    assert_eq!(verify(&signature, msg, &keys.public), Err(SignError::Verify));
}

#[test]
fn derive_is_deterministic() {
    let a = Keypair::derive(b"kekek").unwrap();
    let b = Keypair::derive(b"kekek").unwrap();
    assert_eq!(a.public.len(), PUBLICKEYBYTES);
    assert_eq!(a.secret.len(), SECRETKEYBYTES);
    assert_eq!(a.public.to_vec(), b.public.to_vec());
    assert_eq!(a.secret.to_vec(), b.secret.to_vec());
    assert!(a == b);
    let c = Keypair::derive(b"kekel").unwrap();
    assert_ne!(a.public.to_vec(), c.public.to_vec());
    assert_eq!(a.expose_secret(), &a.secret[..]);
}

#[test]
fn derived_key_starts_with_the_hash_of_seed_and_nonce() {
    let keys = Keypair::derive(b"kekek").unwrap();
    let rho = [
        0xfe, 0x2f, 0x8d, 0x66, 0x58, 0xc7, 0x56, 0x9a, 0x9e, 0x46, 0x25, 0x6d, 0x7f, 0xc3, 0x88,
        0x9c, 0x3e, 0xd6, 0x7f, 0x6d, 0xc7, 0xf1, 0xc4, 0x66, 0x9d, 0x23, 0x74, 0x05, 0x0e, 0x94,
        0xba, 0xe3,
    ];
    assert_eq!(&keys.public[..32], &rho);
    assert_eq!(&keys.secret[..32], &rho);
    assert_eq!(keys.pk().rho, rho);
    let tr = pqc_dilithium::symmetric::hash(&keys.public);
    assert_eq!(&keys.secret[64..96], &tr);
}

#[test]
fn public_vector_is_matrix_times_secret_plus_error() {
    let (pk, sk) = crypto_sign_keypair(b"a seed of any length at all").unwrap();
    let public = unpack_pk(&pk);
    let secret = unpack_sk(&sk).unwrap();
    assert_eq!(public.rho, secret.rho);
    let mat = polyvec_matrix_expand(&secret.rho).unwrap();
    let product = matrix_apply_exec(&mat, &polyvec_ntt(&secret.s1));
    let t = polyvec_freeze(&polyvec_add(&product, &secret.s2));
    let (t1, t0) = polyvec_power2round(&t);
    for i in 0..6 {
        assert_eq!(t1.vec[i].coeffs, public.t1.vec[i].coeffs);
        assert_eq!(t0.vec[i].coeffs, secret.t0.vec[i].coeffs);
        assert!(secret.s2.vec[i].coeffs.iter().all(|c| -4 <= *c && *c <= 4));
    }
    for i in 0..5 {
        assert!(secret.s1.vec[i].coeffs.iter().all(|c| -4 <= *c && *c <= 4));
    }
}

#[test]
fn sign_is_deterministic() {
    let keys = Keypair::derive(b"seed").unwrap();
    let s1 = keys.sign(b"message", false).unwrap();
    let s2 = keys.sign(b"message", false).unwrap();
    assert_eq!(s1.to_vec(), s2.to_vec());
    let s3 = keys.sign_seeded(b"message", None).unwrap();
    assert_eq!(s1.to_vec(), s3.to_vec());
    let other = keys.sign(b"messagf", false).unwrap();
    assert_ne!(s1.to_vec(), other.to_vec());
}

#[test]
fn seeded_signatures_verify_and_depend_on_the_seed() {
    let keys = Keypair::derive(b"seed").unwrap();
    let a = keys.sign_seeded(b"message", Some([1u8; 32])).unwrap();
    let b = keys.sign_seeded(b"message", Some([2u8; 32])).unwrap();
    let again = keys.sign_seeded(b"message", Some([1u8; 32])).unwrap();
    assert_eq!(a.to_vec(), again.to_vec());
    assert_ne!(a.to_vec(), b.to_vec());
    assert!(verify(&a, b"message", &keys.public).is_ok());
    assert!(verify(&b, b"message", &keys.public).is_ok());
}

#[test]
fn random_signatures_and_keys_verify() {
    let keys = Keypair::generate().unwrap();
    let other = Keypair::generate().unwrap();
    assert_ne!(keys.public.to_vec(), other.public.to_vec());
    let a = keys.sign(b"message", true).unwrap();
    let b = keys.sign(b"message", true).unwrap();
    assert_ne!(a.to_vec(), b.to_vec());
    assert!(verify(&a, b"message", &keys.public).is_ok());
    assert!(verify(&b, b"message", &keys.public).is_ok());
    assert_eq!(verify(&a, b"message", &other.public), Err(SignError::Verify));
}

#[test]
fn many_seeds_and_messages_round_trip() {
    for i in 0..12u8 {
        let keys = Keypair::derive(&[i, 2 * i, 3 * i]).unwrap();
        let msg = vec![i; (i as usize) * 17];
        let sig = keys.sign(&msg, false).unwrap();
        assert_eq!(verify(&sig, &msg, &keys.public), Ok(()));
    }
}

#[test]
fn signatures_keep_their_bounds() {
    for i in 0..6u8 {
        let keys = Keypair::derive(&[i; 7]).unwrap();
        let sig = keys.sign(&[i; 3], i % 2 == 1).unwrap();
        let s = Keypair::sig_from_bytes(sig).unwrap();
        let mut ones = 0;
        for e in 0..5 {
            let z = Poly { coeffs: s.z.vec[e].coeffs };
            assert!(!poly_chknorm(&z, 524288 - 196));
            assert!(z.coeffs.iter().all(|c| c.abs() < 524288 - 196));
        }
        for e in 0..6 {
            for c in s.h.vec[e].coeffs {
                assert!(c == 0 || c == 1);
                ones += c;
            }
        }
        assert!(ones <= 55);
        assert_eq!(&sig[..32], &s.c);
    }
}

#[test]
fn any_flipped_bit_fails_verification() {
    let keys = Keypair::derive(b"kekek").unwrap();
    let msg = b"Hello";
    let sig = keys.sign(msg, false).unwrap();
    for place in [0usize, 31, 32, 1000, 3231, 3232, 3292] {
        for bit in [0u8, 7] {
            let mut bad = sig;
            bad[place] ^= 1 << bit;
            assert!(verify(&bad, msg, &keys.public).is_err());
        }
    }
    assert!(verify(&sig, b"Hellp", &keys.public).is_err());
    assert!(verify(&sig, b"", &keys.public).is_err());
    let mut key = keys.public;
    key[40] ^= 1;
    assert_eq!(verify(&sig, msg, &key), Err(SignError::Verify));
}

#[test]
fn wrong_lengths_are_input_errors() {
    let keys = Keypair::derive(b"kekek").unwrap();
    let sig = keys.sign(b"Hello", false).unwrap();
    assert_eq!(verify(&sig[..SIGNBYTES - 1], b"Hello", &keys.public), Err(SignError::Input));
    assert_eq!(verify(&[], b"Hello", &keys.public), Err(SignError::Input));
    assert_eq!(verify(&sig, b"Hello", &keys.public[..100]), Err(SignError::Input));
    let mut long = sig.to_vec();
    long.push(0);
    assert_eq!(verify(&long, b"Hello", &keys.public), Err(SignError::Input));
}

#[test]
fn malformed_hints_are_format_errors() {
    let keys = Keypair::derive(b"kekek").unwrap();
    let mut sig = keys.sign(b"Hello", false).unwrap();
    sig[SIGNBYTES - 1] = 56;
    assert_eq!(verify(&sig, b"Hello", &keys.public), Err(SignError::Format));
    assert_eq!(crypto_sign_verify(&sig, b"Hello", &keys.public), Err(SignError::Format));
    assert!(matches!(Keypair::sig_from_bytes(sig), Err(SignError::Format)));
}

#[test]
fn large_response_is_a_verify_error() {
    let keys = Keypair::derive(b"kekek").unwrap();
    let mut sig = keys.sign(b"Hello", false).unwrap();
    // Twenty zero bits stand for the coefficient GAMMA1.
    sig[32] = 0;
    sig[33] = 0;
    sig[34] &= 0xf0;
    assert_eq!(verify(&sig, b"Hello", &keys.public), Err(SignError::Verify));
}

#[test]
fn malformed_secret_key_is_a_format_error() {
    let mut keys = Keypair::derive(b"kekek").unwrap();
    keys.secret[96] = 0xff;
    assert_eq!(keys.sign(b"Hello", false), Err(SignError::Format));
    assert_eq!(keys.sign(b"Hello", true), Err(SignError::Format));
    assert!(matches!(signer_new(&keys.secret, b"Hello", None), Err(SignError::Format)));
}

#[test]
fn no_attempts_left_is_exhaustion() {
    let keys = Keypair::derive(b"kekek").unwrap();
    assert_eq!(crypto_sign_signature(&keys.secret, b"Hello", None, 0), Err(SignError::Exhausted));
    let full = crypto_sign_signature(&keys.secret, b"Hello", None, ATTEMPTS_LIMIT).unwrap();
    assert_eq!(full.to_vec(), keys.sign(b"Hello", false).unwrap().to_vec());
    assert!(MAX_ATTEMPTS <= ATTEMPTS_LIMIT);
}

#[test]
fn signing_returns_the_first_accepted_attempt() {
    let keys = Keypair::derive(b"kekek").unwrap();
    let signer = signer_new(&keys.secret, b"Hello", None).unwrap();
    let expected = keys.sign(b"Hello", false).unwrap();
    let mut nonce: u16 = 0;
    let mut rejected: u16 = 0;
    loop {
        match sign_attempt(&signer, nonce).unwrap() {
            Some(sig) => {
                assert_eq!(sig.to_vec(), expected.to_vec());
                break;
            }
            None => {
                rejected += 1;
                nonce += 1;
            }
        }
    }
    // With one attempt fewer than it takes, signing is exhausted.
    assert_eq!(
        crypto_sign_signature(&keys.secret, b"Hello", None, rejected),
        Err(SignError::Exhausted)
    );
    assert!(crypto_sign_signature(&keys.secret, b"Hello", None, rejected + 1).is_ok());
}

#[test]
fn structured_views_match_the_bytes() {
    let keys = Keypair::derive(b"kekek").unwrap();
    let pk = keys.pk();
    assert_eq!(&pk.rho, &keys.public[..32]);
    assert!(pk.t1.vec.iter().all(|p| p.coeffs.iter().all(|c| 0 <= *c && *c < 1024)));
    let epk = keys.expanded_pk().unwrap();
    assert_eq!(epk.packed, pqc_dilithium::symmetric::hash(&keys.public));
    let mat = polyvec_matrix_expand(&pk.rho).unwrap();
    for i in 0..6 {
        for j in 0..5 {
            assert_eq!(epk.mat[i].vec[j].coeffs, mat[i].vec[j].coeffs);
        }
        assert!(epk.t1.vec[i].coeffs.iter().all(|c| 0 <= *c && *c < Q));
    }
    let mut shifted = pk.t1;
    for i in 0..6 {
        for j in 0..N {
            shifted.vec[i].coeffs[j] *= 8192;
        }
    }
    let expected = polyvec_freeze(&polyvec_reduce(&polyvec_ntt(&shifted)));
    for i in 0..6 {
        assert_eq!(epk.t1.vec[i].coeffs, expected.vec[i].coeffs);
    }
}

fn hex(bytes: &[u8]) -> String {
    let mut s = String::new();
    for b in bytes {
        s.push_str(&format!("{:02x}", b));
    }
    s
}

#[test]
fn derived_keypair_and_signature_are_fixed() {
    let keys = Keypair::derive(b"kekek").unwrap();
    assert_eq!(
        hex(&pqc_dilithium::symmetric::hash(&keys.public)),
        "8136a5102d4b2eda858707161399541681b392ad49e17059c1e96021196bbae0"
    );
    assert_eq!(
        hex(&pqc_dilithium::symmetric::hash(&keys.secret)),
        "55c81bedf3245c71a2cf78012bf972ce0611c9cde24751d2a83af7530d735d09"
    );
    let sig = keys.sign(b"Hello", false).unwrap();
    assert_eq!(
        hex(&pqc_dilithium::symmetric::hash(&sig)),
        "fd3592930573d24c15d932dc738e6557a6a427a8413255465c1a652beef7acbe"
    );
    let seeded = keys.sign_seeded(b"Hello", Some([1u8; 32])).unwrap();
    assert_eq!(
        hex(&pqc_dilithium::symmetric::hash(&seeded)),
        "6b396c4cee898e1771567f61d01e75e6a7bbe2026997d53aa944cf55c86ae5ec"
    );
}

#[test]
fn rendering_elides_the_secret() {
    let keys = Keypair::derive(b"kekek").unwrap();
    let text = keys.redacted();
    assert_eq!(text, format!("public: {:?}\nsecret: <elided>", keys.public));
    assert!(text.starts_with("public: [254, 47, 141, 102, 88, "));
    assert!(text.ends_with("]\nsecret: <elided>"));
    let mut other = keys;
    other.secret = [0u8; SECRETKEYBYTES];
    assert_eq!(other.redacted(), text);
}

#[test]
fn rendering_of_a_zero_key() {
    let keys = Keypair { public: [0u8; PUBLICKEYBYTES], secret: [0xabu8; SECRETKEYBYTES] };
    let text = keys.redacted();
    assert_eq!(text, format!("public: {:?}\nsecret: <elided>", [0u8; PUBLICKEYBYTES]));
    assert_eq!(text.len(), 5881);
    assert!(!text.contains("171"));
    let mut mixed = keys;
    mixed.public[0] = 7;
    mixed.public[1] = 42;
    mixed.public[2] = 255;
    mixed.public[3] = 100;
    mixed.public[4] = 10;
    mixed.public[1951] = 99;
    assert_eq!(mixed.redacted(), format!("public: {:?}\nsecret: <elided>", mixed.public));
    assert!(mixed.redacted().starts_with("public: [7, 42, 255, 100, 10, 0, "));
}

#[test]
fn defaults_are_zero() {
    let pk = pqc_dilithium::PublicKey::default();
    assert_eq!(pk.rho, [0u8; 32]);
    assert!(pk.t1.vec.iter().all(|p| p.coeffs == [0i32; N]));
    let sig = pqc_dilithium::Signature::default();
    assert_eq!(sig.c, [0u8; 32]);
    assert!(sig.z.vec.iter().all(|p| p.coeffs == [0i32; N]));
    assert!(sig.h.vec.iter().all(|p| p.coeffs == [0i32; N]));
    let epk = pqc_dilithium::ExpandedPublicKey::default();
    assert_eq!(epk.packed, [0u8; 32]);
    assert!(epk.mat.iter().all(|row| row.vec.iter().all(|p| p.coeffs == [0i32; N])));
    assert!(epk.t1.vec.iter().all(|p| p.coeffs == [0i32; N]));
}

#[test]
fn unpacked_signature_packs_again() {
    let keys = Keypair::derive(b"kekek").unwrap();
    let sig = keys.sign(b"Hello", false).unwrap();
    let s = Keypair::sig_from_bytes(sig).unwrap();
    assert_eq!(pqc_dilithium::packing::pack_sig(&s.c, &s.z, &s.h), sig);
}
