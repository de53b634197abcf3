//! Keys and signatures as bytes, and their structured views.
use vstd::prelude::*;
use crate::packing::{
    hints_decoded,
    hints_valid,
    pk_rho,
    pk_t1,
    sig_c,
    sig_hints,
    sig_z,
    unpack_pk,
    unpack_sig,
};
use crate::params::{K, PUBLICKEYBYTES, SECRETKEYBYTES, SEEDBYTES, SIGNBYTES};
use crate::poly::zeros;
use crate::polyvec::{
    matrix_full,
    expand_matrix,
    lemma_bounded_range_vec,
    lemma_range_bounded_vec,
    matrix_ints,
    polyvec_freeze,
    polyvec_matrix_expand,
    polyvec_ntt,
    polyvec_shiftl,
    shifted_vec,
    NttPolyveck,
    NttPolyvecl,
    Polyveck,
    Polyvecl,
};
use crate::randombytes::random_seed;
use crate::ring::q;
use crate::sign::{
    crypto_sign_keypair,
    crypto_sign_signature,
    crypto_sign_verify,
    hat,
    keygen_full,
    keygen_public,
    keygen_secret,
    lemma_residues_canon,
    rnd_view,
    sign_spec,
    verify_spec,
    MAX_ATTEMPTS,
};
use crate::symmetric::{digest, hash};

verus! {

/// A key pair, each half as packed bytes. It has no `Debug`: `redacted`
/// renders it without the secret half.
#[derive(Copy, Clone, PartialEq, Eq, Hash)]
pub struct Keypair {
    pub public: [u8; PUBLICKEYBYTES],
    pub secret: [u8; SECRETKEYBYTES],
}

/// A public key: the seed of the matrix and the high part of the public
/// vector.
#[derive(Debug, Copy, Clone)]
pub struct PublicKey {
    pub rho: [u8; SEEDBYTES],
    pub t1: Polyveck,
}

/// A public key made ready for verifying: the hash of its packed form, the
/// matrix, and the high part of the public vector, shifted and
/// transformed.
#[derive(Debug, Copy, Clone)]
pub struct ExpandedPublicKey {
    pub packed: [u8; SEEDBYTES],
    pub mat: [NttPolyvecl; K],
    pub t1: NttPolyveck,
}

/// A signature: the challenge seed, the response and the hints.
#[derive(Debug, Copy, Clone)]
pub struct Signature {
    pub c: [u8; SEEDBYTES],
    pub z: Polyvecl,
    pub h: Polyveck,
}

/// Why signing or verifying failed.
#[derive(Debug, Clone, Copy, PartialEq, Eq)]
pub enum SignError {
    /// A buffer has the wrong length.
    Input,
    /// A packed object is not a valid encoding.
    Format,
    /// The signature does not fit the message and the key.
    Verify,
    /// A stream did not fill a sampler, or no attempt within the allowed
    /// number gave a signature.
    Exhausted,
}



impl Default for PublicKey {
    fn default() -> (r: PublicKey)
        ensures
            r.rho@ == Seq::new(32, |i: int| 0u8),
            forall|i: int| 0 <= i < 6 ==> (#[trigger] r.t1.vec@[i]).ints() == zeros(),
    {
        let r = PublicKey { rho: [0u8; SEEDBYTES], t1: Polyveck::default() };
        assert(r.rho@ =~= Seq::new(32, |i: int| 0u8));
        r
    }
}

impl Default for ExpandedPublicKey {
    fn default() -> (r: ExpandedPublicKey)
        ensures
            r.packed@ == Seq::new(32, |i: int| 0u8),
            forall|i: int, j: int|
                0 <= i < 6 && 0 <= j < 5 ==> (#[trigger] r.mat@[i].vec@[j]).ints() == zeros(),
            forall|i: int| 0 <= i < 6 ==> (#[trigger] r.t1.vec@[i]).ints() == zeros(),
    {
        let row = NttPolyvecl::default();
        let mut mat = [row;K];
        let mut i: usize = 0;
        while i < K
            invariant
                i <= K,
                forall|j: int| 0 <= j < 5 ==> (#[trigger] row.vec@[j]).ints() == zeros(),
                forall|k: int| 0 <= k < i ==> (#[trigger] mat@[k]) == row,
            decreases K - i,
        {
            mat[i] = row;
            i += 1;
        }
        let r = ExpandedPublicKey { packed: [0u8; SEEDBYTES], mat, t1: NttPolyveck::default() };
        assert(r.packed@ =~= Seq::new(32, |i: int| 0u8));
        assert forall|i: int, j: int| 0 <= i < 6 && 0 <= j < 5 implies (#[trigger] r.mat@[i].vec@[
            j
        ]).ints() == zeros() by {
            assert(r.mat@[i] == row);
        }
        r
    }
}

impl Default for Signature {
    fn default() -> (r: Signature)
        ensures
            r.c@ == Seq::new(32, |i: int| 0u8),
            forall|i: int| 0 <= i < 5 ==> (#[trigger] r.z.vec@[i]).ints() == zeros(),
            forall|i: int| 0 <= i < 6 ==> (#[trigger] r.h.vec@[i]).ints() == zeros(),
    {
        let r = Signature {
            c: [0u8; SEEDBYTES],
            z: Polyvecl::default(),
            h: Polyveck::default(),
        };
        assert(r.c@ =~= Seq::new(32, |i: int| 0u8));
        r
    }
}

/// What signing gives, matched against what it is to give.
pub open spec fn sign_result_is(
    r: Result<[u8; SIGNBYTES], SignError>,
    expected: Result<Seq<u8>, SignError>,
) -> bool {
    match r {
        Ok(sig) => expected == Ok::<Seq<u8>, SignError>(sig@),
        Err(e) => expected == Err::<Seq<u8>, SignError>(e),
    }
}

/// What deriving a key pair gives, matched against what it is to give for
/// `seed`: the key pair for `seed` where the streams fill it, else
/// `Exhausted`.
pub open spec fn derived_from(r: Result<Keypair, SignError>, seed: Seq<u8>) -> bool {
    match r {
        Ok(keys) => {
            &&& keygen_full(seed)
            &&& keys.public@ == keygen_public(seed)
            &&& keys.secret@ == keygen_secret(seed)
        },
        Err(e) => e == SignError::Exhausted && !keygen_full(seed),
    }
}

impl Keypair {
    /// The packed secret key.
    pub fn expose_secret(&self) -> (r: &[u8])
        ensures
            r@ == self.secret@,
    {
        self.secret.as_slice()
    }

    /// A key pair for a fresh seed of `SEEDBYTES` bytes: what `derive`
    /// gives for some seed of that length.
    pub fn generate() -> (r: Result<Keypair, SignError>)
        ensures
            exists|seed: Seq<u8>| seed.len() == 32 && #[trigger] derived_from(r, seed),
    {
        let seed = random_seed();
        let r = Keypair::derive(seed.as_slice());
        assert(seed@.len() == 32 && derived_from(r, seed@));
        r
    }

    /// The key pair for `seed`. Fails with `Exhausted` if and only if a
    /// stream does not fill the matrix or a secret vector.
    pub fn derive(seed: &[u8]) -> (r: Result<Keypair, SignError>)
        ensures
            derived_from(r, seed@),
    {
        match crypto_sign_keypair(seed) {
            Ok((public, secret)) => Ok(Keypair { public, secret }),
            Err(e) => Err(e),
        }
    }

    /// Signs `msg`. The masking vectors are seeded by the key, or by `rnd`
    /// where it is given. Fails with `Format` on a secret key that is not
    /// valid, and with `Exhausted` where a stream does not fill the matrix
    /// or the challenge of an attempt, or none of `MAX_ATTEMPTS` attempts
    /// is accepted.
    pub fn sign_seeded(&self, msg: &[u8], rnd: Option<[u8; SEEDBYTES]>) -> (r: Result<
        [u8; SIGNBYTES],
        SignError,
    >)
        ensures
            sign_result_is(r, sign_spec(self.secret@, msg@, rnd_view(rnd), MAX_ATTEMPTS as nat)),
    {
        crypto_sign_signature(&self.secret, msg, rnd, MAX_ATTEMPTS)
    }

    /// Signs `msg`: with masking vectors seeded by the key alone, or, where
    /// `random` is set, by a fresh seed.
    pub fn sign(&self, msg: &[u8], random: bool) -> (r: Result<[u8; SIGNBYTES], SignError>)
        ensures
            !random ==> sign_result_is(
                r,
                sign_spec(self.secret@, msg@, None, MAX_ATTEMPTS as nat),
            ),
            random ==> exists|rnd: Seq<u8>|
                rnd.len() == 32 && sign_result_is(
                    r,
                    #[trigger] sign_spec(self.secret@, msg@, Some(rnd), MAX_ATTEMPTS as nat),
                ),
    {
        if random {
            let rnd = random_seed();
            let r = self.sign_seeded(msg, Some(rnd));
            assert(rnd@.len() == 32 && sign_result_is(
                r,
                sign_spec(self.secret@, msg@, Some(rnd@), MAX_ATTEMPTS as nat),
            ));
            r
        } else {
            self.sign_seeded(msg, None)
        }
    }

    /// The structured view of a packed signature; fails with `Format` if
    /// and only if the hints are not validly encoded.
    pub fn sig_from_bytes(sig: [u8; SIGNBYTES]) -> (r: Result<Signature, SignError>)
        ensures
            match r {
                Ok(s) => {
                    &&& hints_valid(sig_hints(sig@))
                    &&& s.c@ == sig_c(sig@)
                    &&& s.z.ints() == sig_z(sig@)
                    &&& s.h.ints() == hints_decoded(sig_hints(sig@))
                    &&& s.z.in_range(-524287, 524288)
                    &&& s.h.in_range(0, 1)
                },
                Err(e) => e == SignError::Format && !hints_valid(sig_hints(sig@)),
            },
    {
        unpack_sig(&sig)
    }

    /// The structured view of the public key.
    pub fn pk(&self) -> (r: PublicKey)
        ensures
            r.rho@ == pk_rho(self.public@),
            r.t1.ints() == pk_t1(self.public@),
            r.t1.in_range(0, 1023),
    {
        unpack_pk(&self.public)
    }

    /// The public key made ready for verifying: the hash of its packed
    /// form, the matrix, and the transform of the high part of the public
    /// vector times `2^D`, all with coefficients in `[0, q)`. Fails with
    /// `Exhausted` if and only if a stream does not fill the matrix.
    pub fn expanded_pk(&self) -> (r: Result<ExpandedPublicKey, SignError>)
        ensures
            match r {
                Ok(k) => {
                    &&& matrix_full(pk_rho(self.public@))
                    &&& k.packed@ == digest(self.public@)
                    &&& matrix_ints(k.mat) == expand_matrix(pk_rho(self.public@))
                    &&& k.t1.ints() == hat(shifted_vec(pk_t1(self.public@)))
                    &&& forall|i: int| 0 <= i < 6 ==> (#[trigger] k.mat@[i]).in_range(0, 8380416)
                    &&& k.t1.in_range(0, 8380416)
                },
                Err(e) => e == SignError::Exhausted && !matrix_full(pk_rho(self.public@)),
            },
    {
        let packed = hash(self.public.as_slice());
        let key = self.pk();
        let shifted = polyvec_shiftl(&key.t1);
        proof {
            lemma_range_bounded_vec(shifted, 0, 8380416, q());
            lemma_residues_canon(shifted);
        }
        let t1hat = polyvec_ntt(&shifted);
        proof {
            lemma_bounded_range_vec(t1hat, 9 * q(), -0x8000_0000, 0x7fff_ffff - 0x40_0000);
        }
        let t1 = polyvec_freeze(&t1hat);
        match polyvec_matrix_expand(key.rho.as_slice()) {
            Some(mat) => Ok(ExpandedPublicKey { packed, mat, t1 }),
            None => Err(SignError::Exhausted),
        }
    }
}

/// The array that holds the `LEN` bytes of `bytes`.
fn array_of<const LEN: usize>(bytes: &[u8]) -> (a: [u8; LEN])
    requires
        bytes@.len() == LEN,
    ensures
        a@ == bytes@,
{
    let mut a = [0u8;LEN];
    let mut i: usize = 0;
    while i < LEN
        invariant
            i <= LEN,
            bytes@.len() == LEN,
            forall|j: int| 0 <= j < i ==> a@[j] == bytes@[j],
        decreases LEN - i,
    {
        a[i] = bytes[i];
        i += 1;
    }
    assert(a@ =~= bytes@);
    a
}

/// Verifies the packed signature `sig` of `msg` under the packed public
/// key `public_key`. Fails with `Input` if and only if the signature or
/// the key has the wrong length; else as `verify_spec` says.
pub fn verify(sig: &[u8], msg: &[u8], public_key: &[u8]) -> (r: Result<(), SignError>)
    ensures
        r == if sig@.len() != SIGNBYTES || public_key@.len() != PUBLICKEYBYTES {
            Err(SignError::Input)
        } else {
            verify_spec(sig@, msg@, public_key@)
        },
{
    if sig.len() != SIGNBYTES || public_key.len() != PUBLICKEYBYTES {
        return Err(SignError::Input);
    }
    let s = array_of::<SIGNBYTES>(sig);
    let p = array_of::<PUBLICKEYBYTES>(public_key);
    crypto_sign_verify(&s, msg, &p)
}



/// The ten digits.
pub const DIGITS: [char; 10] = ['0', '1', '2', '3', '4', '5', '6', '7', '8', '9'];

/// What stands before the public key in the rendering of a key pair.
pub const PUBLIC_LABEL: [char; 8] = ['p', 'u', 'b', 'l', 'i', 'c', ':', ' '];

/// What stands in place of the secret key in the rendering of a key pair.
pub const SECRET_ELIDED: [char; 17] = [
    '\n', 's', 'e', 'c', 'r', 'e', 't', ':', ' ', '<', 'e', 'l', 'i', 'd', 'e', 'd', '>',
];

/// The byte `b` in decimal, without leading zeros.
pub open spec fn decimal_text(b: u8) -> Seq<char> {
    if b < 10 {
        seq![DIGITS[b as int]]
    } else if b < 100 {
        seq![DIGITS[b as int / 10], DIGITS[b as int % 10]]
    } else {
        seq![DIGITS[b as int / 100], DIGITS[b as int / 10 % 10], DIGITS[b as int % 10]]
    }
}

/// The first `n` bytes of `b` in decimal, with a comma and a space between
/// every two.
pub open spec fn list_text(b: Seq<u8>, n: nat) -> Seq<char>
    decreases n,
{
    if n == 0 {
        Seq::empty()
    } else if n == 1 {
        decimal_text(b[0])
    } else {
        list_text(b, (n - 1) as nat) + seq![',', ' '] + decimal_text(b[n - 1])
    }
}

/// The rendering of a key pair with the packed public key `public`: the
/// public key as a list of its bytes in decimal, in square brackets, and a
/// mark in place of the secret key.
pub open spec fn redacted_text(public: Seq<u8>) -> Seq<char> {
    PUBLIC_LABEL@ + seq!['['] + list_text(public, public.len()) + seq![']'] + SECRET_ELIDED@
}

/// Calls `String::push`: appends the character `c` to `s`.
#[verifier::external_body]
fn push_char(s: &mut String, c: char)
    ensures
        final(s)@ == old(s)@.push(c),
{
    s.push(c);
}

/// Appends the characters `cs` to `s`.
fn push_chars(s: &mut String, cs: &[char])
    ensures
        final(s)@ == old(s)@ + cs@,
{
    let ghost s0 = s@;
    let mut i: usize = 0;
    while i < cs.len()
        invariant
            i <= cs@.len(),
            s@ == s0 + cs@.take(i as int),
        decreases cs@.len() - i,
    {
        push_char(s, cs[i]);
        assert(s@ =~= s0 + cs@.take(i + 1));
        i += 1;
    }
    assert(cs@.take(cs@.len() as int) =~= cs@);
}

/// Appends the byte `b` in decimal to `s`.
fn push_decimal(s: &mut String, b: u8)
    ensures
        final(s)@ == old(s)@ + decimal_text(b),
{
    let ghost s0 = s@;
    if b >= 100 {
        push_char(s, DIGITS[(b / 100) as usize]);
    }
    if b >= 10 {
        push_char(s, DIGITS[(b / 10 % 10) as usize]);
    }
    push_char(s, DIGITS[(b % 10) as usize]);
    assert(s@ =~= s0 + decimal_text(b));
}

impl Keypair {
    /// The rendering of the key pair for logs and messages. It is made
    /// from the public key alone: the secret key never shows.
    pub fn redacted(&self) -> (s: String)
        ensures
            s@ == redacted_text(self.public@),
    {
        let mut s = String::new();
        push_chars(&mut s, PUBLIC_LABEL.as_slice());
        push_char(&mut s, '[');
        let ghost head = s@;
        assert(head =~= PUBLIC_LABEL@ + seq!['[']);
        let mut i: usize = 0;
        while i < PUBLICKEYBYTES
            invariant
                i <= PUBLICKEYBYTES,
                head == PUBLIC_LABEL@ + seq!['['],
                s@ == head + list_text(self.public@, i as nat),
            decreases PUBLICKEYBYTES - i,
        {
            let ghost before = s@;
            if i > 0 {
                push_char(&mut s, ',');
                push_char(&mut s, ' ');
            }
            push_decimal(&mut s, self.public[i]);
            proof {
                let done = list_text(self.public@, i as nat);
                let next = decimal_text(self.public@[i as int]);
                if i > 0 {
                    assert(s@ =~= head + (done + seq![',', ' '] + next));
                } else {
                    assert(done =~= Seq::<char>::empty());
                    assert(s@ =~= head + next);
                }
            }
            i += 1;
        }
        push_char(&mut s, ']');
        push_chars(&mut s, SECRET_ELIDED.as_slice());
        assert(s@ =~= redacted_text(self.public@));
        s
    }
}

} // verus!
