//! The packed forms of keys and signatures.
use vstd::prelude::*;
use vstd::slice::slice_subrange;
use vstd::arithmetic::power::pow;
use crate::digits::{
    all_digits,
    as_ints,
    lemma_bytes_ints,
    lemma_ints_bytes,
    lemma_regroup_len,
    lemma_regroup_range,
    lemma_regroup_round_trip,
    regroup,
};
use crate::api::{PublicKey, SignError, Signature};
use crate::params::{K, N, OMEGA, PUBLICKEYBYTES, SECRETKEYBYTES, SEEDBYTES, SIGNBYTES};
use crate::poly::{
    lemma_group_sizes,
    mirrored,
    packed,
    polyeta_pack,
    polyeta_unpack,
    polyt0_pack,
    polyt0_unpack,
    polyt1_pack,
    polyt1_unpack,
    polyw1_pack,
    polyw1_unpack,
    polyz_pack,
    polyz_unpack,
    unpacked,
    weight,
    Poly,
};
use crate::polyvec::{weight_vec, Polyvec, Polyveck, Polyvecl};

verus! {

/// The ways in which a polynomial is packed.
#[derive(Clone, Copy)]
pub enum Coding {
    /// A short secret: four bits for `ETA - c`.
    Eta,
    /// A high part of the public vector: ten bits.
    T1,
    /// A low part of the public vector: thirteen bits for `2^(D-1) - c`.
    T0,
    /// A response: twenty bits for `GAMMA1 - c`.
    Z,
    /// High bits of a commitment: four bits.
    W1,
}

impl Coding {
    /// The number of values that a coefficient can take.
    pub open spec fn base(self) -> int {
        match self {
            Coding::Eta => 16,
            Coding::T1 => 1024,
            Coding::T0 => 8192,
            Coding::Z => 1048576,
            Coding::W1 => 16,
        }
    }

    /// The number of coefficients that fill whole bytes together.
    pub open spec fn group(self) -> nat {
        match self {
            Coding::Eta => 2,
            Coding::T1 => 4,
            Coding::T0 => 8,
            Coding::Z => 2,
            Coding::W1 => 2,
        }
    }

    /// The number of bytes that a group fills.
    pub open spec fn group_bytes(self) -> nat {
        match self {
            Coding::Eta => 1,
            Coding::T1 => 5,
            Coding::T0 => 13,
            Coding::Z => 5,
            Coding::W1 => 1,
        }
    }

    /// The number of groups in a polynomial.
    pub open spec fn groups(self) -> nat {
        match self {
            Coding::Eta => 128,
            Coding::T1 => 64,
            Coding::T0 => 32,
            Coding::Z => 128,
            Coding::W1 => 128,
        }
    }

    /// The number of bytes that a polynomial fills.
    pub open spec fn size(self) -> nat {
        match self {
            Coding::Eta => 128,
            Coding::T1 => 320,
            Coding::T0 => 416,
            Coding::Z => 640,
            Coding::W1 => 128,
        }
    }

    /// The largest coefficient, where the packed digit is its distance
    /// from there.
    pub open spec fn top(self) -> Option<int> {
        match self {
            Coding::Eta => Some(4),
            Coding::T1 => None,
            Coding::T0 => Some(4096),
            Coding::Z => Some(524288),
            Coding::W1 => None,
        }
    }

    /// The smallest coefficient that is packed.
    pub open spec fn lo(self) -> int {
        match self {
            Coding::Eta => -4,
            Coding::T1 => 0,
            Coding::T0 => -4095,
            Coding::Z => -524287,
            Coding::W1 => 0,
        }
    }

    /// The largest coefficient that is packed.
    pub open spec fn hi(self) -> int {
        match self {
            Coding::Eta => 4,
            Coding::T1 => 1023,
            Coding::T0 => 4096,
            Coding::Z => 524288,
            Coding::W1 => 15,
        }
    }

    /// The smallest coefficient that unpacking can give.
    pub open spec fn decoded_lo(self) -> int {
        match self {
            Coding::Eta => -11,
            _ => self.lo(),
        }
    }

    /// The digits that stand for the coefficients `c`, and the
    /// coefficients that the digits `c` stand for.
    pub open spec fn digits(self, c: Seq<int>) -> Seq<int> {
        match self.top() {
            Some(t) => mirrored(c, t),
            None => c,
        }
    }

    /// The bytes that hold the coefficients `c`.
    pub open spec fn encode(self, c: Seq<int>) -> Seq<u8> {
        packed(self.digits(c), self.base(), self.group(), self.group_bytes())
    }

    /// The coefficients that the bytes `b` hold.
    pub open spec fn decode(self, b: Seq<u8>) -> Seq<int> {
        self.digits(unpacked(b, self.base(), self.group_bytes(), self.group()))
    }
}

/// The bytes that hold the first `n` entries of the vector `v`, one after
/// the other.
pub open spec fn encode_vec(kind: Coding, v: Seq<Seq<int>>, n: nat) -> Seq<u8>
    decreases n,
{
    if n == 0 {
        Seq::empty()
    } else {
        encode_vec(kind, v, (n - 1) as nat) + kind.encode(v[n - 1])
    }
}

/// The vector of `m` entries that the bytes `b` hold, one after the other.
pub open spec fn decode_vec(kind: Coding, b: Seq<u8>, m: nat) -> Seq<Seq<int>> {
    Seq::new(m, |i: int| kind.decode(b.subrange(i * kind.size(), (i + 1) * kind.size())))
}

/// Appends to `out` the bytes that hold `a`.
pub fn pack_poly(a: &Poly, kind: Coding, out: &mut Vec<u8>)
    requires
        a.in_range(kind.lo(), kind.hi()),
    ensures
        final(out)@ == old(out)@ + kind.encode(a.ints()),
        final(out)@.len() == old(out)@.len() + kind.size(),
{
    match kind {
        Coding::Eta => polyeta_pack(a, out),
        Coding::T1 => polyt1_pack(a, out),
        Coding::T0 => polyt0_pack(a, out),
        Coding::Z => polyz_pack(a, out),
        Coding::W1 => polyw1_pack(a, out),
    }
}

/// The polynomial that `bytes` hold.
pub fn unpack_poly(bytes: &[u8], kind: Coding) -> (a: Poly)
    requires
        bytes@.len() == kind.size(),
    ensures
        a.ints() == kind.decode(bytes@),
        a.in_range(kind.decoded_lo(), kind.hi()),
{
    match kind {
        Coding::Eta => polyeta_unpack(bytes),
        Coding::T1 => polyt1_unpack(bytes),
        Coding::T0 => polyt0_unpack(bytes),
        Coding::Z => polyz_unpack(bytes),
        Coding::W1 => polyw1_unpack(bytes),
    }
}

/// Appends to `out` the bytes that hold the entries of `v`.
pub fn pack_vec<const M: usize>(v: &Polyvec<M, false>, kind: Coding, out: &mut Vec<u8>)
    requires
        v.in_range(kind.lo(), kind.hi()),
    ensures
        final(out)@ == old(out)@ + encode_vec(kind, v.ints(), M as nat),
        final(out)@.len() == old(out)@.len() + M * kind.size(),
{
    let ghost out0 = out@;
    let mut i: usize = 0;
    assert(0 * kind.size() == 0);
    assert(out@ =~= out0 + encode_vec(kind, v.ints(), 0));
    while i < M
        invariant
            i <= M,
            v.in_range(kind.lo(), kind.hi()),
            out@ == out0 + encode_vec(kind, v.ints(), i as nat),
            out@.len() == out0.len() + i * kind.size(),
        decreases M - i,
    {
        let ghost before = out@;
        assert(v.ints()[i as int] == v.vec@[i as int].ints());
        pack_poly(&v.vec[i], kind, out);
        proof {
            assert(out@ =~= out0 + encode_vec(kind, v.ints(), (i + 1) as nat));
            assert((i + 1) * kind.size() == i * kind.size() + kind.size()) by (nonlinear_arith);
        }
        i += 1;
    }
}

/// The vector that `bytes` hold.
pub fn unpack_vec<const M: usize>(bytes: &[u8], kind: Coding) -> (v: Polyvec<M, false>)
    requires
        bytes@.len() == M * kind.size(),
    ensures
        v.ints() == decode_vec(kind, bytes@, M as nat),
        v.in_range(kind.decoded_lo(), kind.hi()),
{
    let size: usize = match kind {
        Coding::Eta => 128,
        Coding::T1 => 320,
        Coding::T0 => 416,
        Coding::Z => 640,
        Coding::W1 => 128,
    };
    let total: usize = bytes.len();
    let mut v = Polyvec::<M, false>::default();
    let mut i: usize = 0;
    let mut off: usize = 0;
    assert(0 * kind.size() == 0);
    while i < M
        invariant
            i <= M,
            size == kind.size(),
            off == i * size,
            total == bytes@.len() == M * size,
            forall|j: int|
                0 <= j < i ==> (#[trigger] v.vec@[j]).ints() == kind.decode(
                    bytes@.subrange(j * kind.size(), (j + 1) * kind.size()),
                ) && v.vec@[j].in_range(kind.decoded_lo(), kind.hi()),
        decreases M - i,
    {
        proof {
            assert((i + 1) * size == i * size + size) by (nonlinear_arith);
            assert((i + 1) * size <= M * size) by (nonlinear_arith)
                requires
                    i + 1 <= M,
            ;
        }
        v.vec[i] = unpack_poly(slice_subrange(bytes, off, off + size), kind);
        off = off + size;
        i += 1;
    }
    assert(v.ints() =~= decode_vec(kind, bytes@, M as nat));
    v
}

/// The array that holds the bytes of `v`.
pub fn to_array<const LEN: usize>(v: &Vec<u8>) -> (a: [u8; LEN])
    requires
        v@.len() == LEN,
    ensures
        a@ == v@,
{
    let mut a = [0u8;LEN];
    let mut i: usize = 0;
    while i < LEN
        invariant
            i <= LEN,
            v@.len() == LEN,
            forall|j: int| 0 <= j < i ==> a@[j] == v@[j],
        decreases LEN - i,
    {
        a[i] = v[i];
        i += 1;
    }
    assert(a@ =~= v@);
    a
}

/// The packed public key: the seed, then the high part of the public
/// vector.
pub open spec fn pk_bytes(rho: Seq<u8>, t1: Seq<Seq<int>>) -> Seq<u8> {
    rho + encode_vec(Coding::T1, t1, 6)
}

/// The seed in a packed public key.
pub open spec fn pk_rho(pk: Seq<u8>) -> Seq<u8> {
    pk.take(32)
}

/// The high part of the public vector in a packed public key.
pub open spec fn pk_t1(pk: Seq<u8>) -> Seq<Seq<int>> {
    decode_vec(Coding::T1, pk.skip(32), 6)
}

/// Packs a public key.
pub fn pack_pk(rho: &[u8; SEEDBYTES], t1: &Polyveck) -> (pk: [u8; PUBLICKEYBYTES])
    requires
        t1.in_range(0, 1023),
    ensures
        pk@ == pk_bytes(rho@, t1.ints()),
{
    let mut out: Vec<u8> = Vec::new();
    out.extend_from_slice(rho.as_slice());
    pack_vec(t1, Coding::T1, &mut out);
    assert(out@ =~= pk_bytes(rho@, t1.ints()));
    to_array(&out)
}

/// Unpacks a public key. Every string of `PUBLICKEYBYTES` bytes is one.
pub fn unpack_pk(pk: &[u8; PUBLICKEYBYTES]) -> (r: PublicKey)
    ensures
        r.rho@ == pk_rho(pk@),
        r.t1.ints() == pk_t1(pk@),
        r.t1.in_range(0, 1023),
{
    let mut rho = [0u8; SEEDBYTES];
    let mut i: usize = 0;
    while i < SEEDBYTES
        invariant
            i <= SEEDBYTES,
            forall|j: int| 0 <= j < i ==> rho@[j] == pk@[j],
        decreases SEEDBYTES - i,
    {
        rho[i] = pk[i];
        i += 1;
    }
    assert(rho@ =~= pk_rho(pk@));
    let body = slice_subrange(pk.as_slice(), SEEDBYTES, PUBLICKEYBYTES);
    assert(body@ =~= pk@.skip(32));
    let t1 = unpack_vec::<6>(body, Coding::T1);
    PublicKey { rho, t1 }
}



/// An unpacked secret key: the seed of the matrix, the signing seed, the
/// hash of the public key, the two short secret vectors and the low part
/// of the public vector. It has no `Debug`, so that it is never rendered.
#[derive(Copy, Clone)]
pub struct SecretKey {
    pub rho: [u8; SEEDBYTES],
    pub key: [u8; SEEDBYTES],
    pub tr: [u8; SEEDBYTES],
    pub s1: Polyvecl,
    pub s2: Polyveck,
    pub t0: Polyveck,
}

/// The packed secret key: the three seeds, then the two short vectors,
/// then the low part of the public vector.
pub open spec fn sk_bytes(
    rho: Seq<u8>,
    key: Seq<u8>,
    tr: Seq<u8>,
    s1: Seq<Seq<int>>,
    s2: Seq<Seq<int>>,
    t0: Seq<Seq<int>>,
) -> Seq<u8> {
    rho + key + tr + encode_vec(Coding::Eta, s1, 5) + encode_vec(Coding::Eta, s2, 6) + encode_vec(
        Coding::T0,
        t0,
        6,
    )
}

/// The first short vector in a packed secret key.
pub open spec fn sk_s1(sk: Seq<u8>) -> Seq<Seq<int>> {
    decode_vec(Coding::Eta, sk.subrange(96, 736), 5)
}

/// The second short vector in a packed secret key.
pub open spec fn sk_s2(sk: Seq<u8>) -> Seq<Seq<int>> {
    decode_vec(Coding::Eta, sk.subrange(736, 1504), 6)
}

/// The low part of the public vector in a packed secret key.
pub open spec fn sk_t0(sk: Seq<u8>) -> Seq<Seq<int>> {
    decode_vec(Coding::T0, sk.subrange(1504, 4000), 6)
}

/// Every coefficient of the vector `v` is at least `lo`.
pub open spec fn vec_at_least(v: Seq<Seq<int>>, lo: int) -> bool {
    forall|i: int, j: int| 0 <= i < v.len() && 0 <= j < 256 ==> #[trigger] v[i][j] >= lo
}

/// A packed secret key is valid if its short vectors hold no coefficient
/// below `-ETA`.
pub open spec fn sk_valid(sk: Seq<u8>) -> bool {
    vec_at_least(sk_s1(sk), -4) && vec_at_least(sk_s2(sk), -4)
}

/// Packs a secret key.
pub fn pack_sk(k: &SecretKey) -> (sk: [u8; SECRETKEYBYTES])
    requires
        k.s1.in_range(-4, 4),
        k.s2.in_range(-4, 4),
        k.t0.in_range(-4095, 4096),
    ensures
        sk@ == sk_bytes(k.rho@, k.key@, k.tr@, k.s1.ints(), k.s2.ints(), k.t0.ints()),
{
    let mut out: Vec<u8> = Vec::new();
    out.extend_from_slice(k.rho.as_slice());
    out.extend_from_slice(k.key.as_slice());
    out.extend_from_slice(k.tr.as_slice());
    pack_vec(&k.s1, Coding::Eta, &mut out);
    pack_vec(&k.s2, Coding::Eta, &mut out);
    pack_vec(&k.t0, Coding::T0, &mut out);
    to_array(&out)
}

/// Copies `SEEDBYTES` bytes of `bytes` from `from` on.
pub fn seed_at(bytes: &[u8], from: usize) -> (seed: [u8; SEEDBYTES])
    requires
        from + SEEDBYTES <= bytes@.len(),
    ensures
        seed@ == bytes@.subrange(from as int, from + SEEDBYTES),
{
    let mut seed = [0u8; SEEDBYTES];
    let total: usize = bytes.len();
    let mut i: usize = 0;
    while i < SEEDBYTES
        invariant
            i <= SEEDBYTES,
            from + SEEDBYTES <= bytes@.len() == total,
            forall|j: int| 0 <= j < i ==> seed@[j] == bytes@[from + j],
        decreases SEEDBYTES - i,
    {
        seed[i] = bytes[from + i];
        i += 1;
    }
    assert(seed@ =~= bytes@.subrange(from as int, from + SEEDBYTES));
    seed
}

/// Whether every coefficient of `v` is at least `lo`.
pub fn polyvec_at_least<const M: usize>(v: &Polyvec<M, false>, lo: i32) -> (r: bool)
    ensures
        r == vec_at_least(v.ints(), lo as int),
{
    let mut i: usize = 0;
    while i < M
        invariant
            i <= M,
            forall|k: int, j: int|
                0 <= k < i && 0 <= j < 256 ==> #[trigger] v.ints()[k][j] >= lo,
        decreases M - i,
    {
        let mut j: usize = 0;
        while j < N
            invariant
                i < M,
                j <= N,
                forall|k: int, l: int|
                    0 <= k < i && 0 <= l < 256 ==> #[trigger] v.ints()[k][l] >= lo,
                forall|l: int| 0 <= l < j ==> #[trigger] v.ints()[i as int][l] >= lo,
            decreases N - j,
        {
            assert(v.ints()[i as int][j as int] == v.vec@[i as int].coeffs@[j as int]);
            if v.vec[i].coeffs[j] < lo {
                return false;
            }
            j += 1;
        }
        i += 1;
    }
    true
}

/// Unpacks a secret key; fails with `Format` on short vectors that hold a
/// coefficient out of range.
pub fn unpack_sk(sk: &[u8; SECRETKEYBYTES]) -> (r: Result<SecretKey, SignError>)
    ensures
        match r {
            Ok(k) => {
                &&& sk_valid(sk@)
                &&& k.rho@ == sk@.subrange(0, 32)
                &&& k.key@ == sk@.subrange(32, 64)
                &&& k.tr@ == sk@.subrange(64, 96)
                &&& k.s1.ints() == sk_s1(sk@)
                &&& k.s2.ints() == sk_s2(sk@)
                &&& k.t0.ints() == sk_t0(sk@)
                &&& k.s1.in_range(-4, 4)
                &&& k.s2.in_range(-4, 4)
                &&& k.t0.in_range(-4095, 4096)
            },
            Err(e) => e == SignError::Format && !sk_valid(sk@),
        },
{
    let bytes = sk.as_slice();
    let rho = seed_at(bytes, 0);
    let key = seed_at(bytes, 32);
    let tr = seed_at(bytes, 64);
    let s1 = unpack_vec::<5>(slice_subrange(bytes, 96, 736), Coding::Eta);
    let s2 = unpack_vec::<6>(slice_subrange(bytes, 736, 1504), Coding::Eta);
    let t0 = unpack_vec::<6>(slice_subrange(bytes, 1504, 4000), Coding::T0);
    if !polyvec_at_least(&s1, -4) || !polyvec_at_least(&s2, -4) {
        return Err(SignError::Format);
    }
    proof {
        lemma_at_least_range(s1, -11, -4, 4);
        lemma_at_least_range(s2, -11, -4, 4);
    }
    Ok(SecretKey { rho, key, tr, s1, s2, t0 })
}

/// A vector in `[lo, hi]` whose coefficients are at least `least` is in
/// `[least, hi]`.
pub proof fn lemma_at_least_range<const M: usize>(v: Polyvec<M, false>, lo: int, least: int, hi: int)
    requires
        v.in_range(lo, hi),
        vec_at_least(v.ints(), least),
    ensures
        v.in_range(least, hi),
{
    assert forall|i: int| 0 <= i < M implies (#[trigger] v.vec@[i]).in_range(least, hi) by {
        assert(v.vec@[i].in_range(lo, hi));
        assert forall|j: int| 0 <= j < 256 implies least <= #[trigger] v.vec@[i].coeffs@[j]
            <= hi by {
            assert(v.ints()[i][j] == v.vec@[i].coeffs@[j]);
        }
    }
}

/// The places of the nonzero coefficients among the first `t` of the
/// vector `h`, read entry after entry: each place counted within its
/// entry, in the order of reading.
pub open spec fn flat_ones(h: Seq<Seq<int>>, t: nat) -> Seq<int>
    decreases t,
{
    if t == 0 {
        Seq::empty()
    } else if h[(t - 1) / 256][(t - 1) % 256] != 0 {
        flat_ones(h, (t - 1) as nat).push((t - 1) % 256)
    } else {
        flat_ones(h, (t - 1) as nat)
    }
}

/// The packed hints: the places of the ones, entry after entry, filled up
/// with zeros to `OMEGA` bytes; then for each entry the number of ones up
/// to its end.
pub open spec fn hints_encoded(h: Seq<Seq<int>>) -> Seq<u8> {
    Seq::new(
        61,
        |p: int|
            if p < 55 {
                if p < flat_ones(h, 1536).len() {
                    flat_ones(h, 1536)[p] as u8
                } else {
                    0u8
                }
            } else {
                flat_ones(h, (256 * (p - 54)) as nat).len() as u8
            },
    )
}

/// Where the places of entry `i` start in packed hints.
pub open spec fn hint_start(b: Seq<u8>, i: int) -> int {
    if i == 0 {
        0
    } else {
        b[55 + i - 1] as int
    }
}

/// Where the places of entry `i` end in packed hints.
pub open spec fn hint_end(b: Seq<u8>, i: int) -> int {
    b[55 + i] as int
}

/// Whether `j` is among the places that `b` lists from `lo` to below `hi`.
pub open spec fn hint_listed(b: Seq<u8>, lo: int, hi: int, j: int) -> bool {
    exists|p: int| lo <= p < hi && #[trigger] b[p] == j
}

/// The places of entry `i` are listed in strictly rising order.
pub open spec fn hint_sorted(b: Seq<u8>, i: int) -> bool {
    forall|p: int| hint_start(b, i) < p < hint_end(b, i) ==> b[p - 1] < #[trigger] b[p]
}

/// Entry `i` of packed hints is valid if it does not end before it starts
/// nor after `OMEGA` places, and its places rise strictly.
pub open spec fn hint_entry_valid(b: Seq<u8>, i: int) -> bool {
    hint_start(b, i) <= hint_end(b, i) <= 55 && hint_sorted(b, i)
}

/// Packed hints are valid if every entry is, and the bytes after the last
/// place are zero.
pub open spec fn hints_valid(b: Seq<u8>) -> bool {
    &&& forall|i: int| 0 <= i < 6 ==> #[trigger] hint_entry_valid(b, i)
    &&& forall|p: int| hint_end(b, 5) <= p < 55 ==> #[trigger] b[p] == 0
}

/// Entry `i` of the hint vector that packed hints hold: ones at the places
/// listed for it.
pub open spec fn hint_entry(b: Seq<u8>, i: int) -> Seq<int> {
    Seq::new(
        256,
        |j: int|
            if hint_listed(b, hint_start(b, i), hint_end(b, i), j) {
                1int
            } else {
                0int
            },
    )
}

/// The hint vector that packed hints hold.
pub open spec fn hints_decoded(b: Seq<u8>) -> Seq<Seq<int>> {
    Seq::new(6, |i: int| hint_entry(b, i))
}

/// Fewer coefficients hold a prefix of the places that more coefficients
/// hold, and every place is below 256.
pub proof fn lemma_flat_ones_prefix(h: Seq<Seq<int>>, s: nat, t: nat)
    requires
        s <= t,
    ensures
        flat_ones(h, s).len() <= flat_ones(h, t).len() <= t,
        forall|p: int| 0 <= p < flat_ones(h, s).len() ==> flat_ones(h, s)[p] == flat_ones(h, t)[p],
        forall|p: int| 0 <= p < flat_ones(h, t).len() ==> 0 <= #[trigger] flat_ones(h, t)[p] < 256,
    decreases t,
{
    if t > 0 {
        if s < t {
            lemma_flat_ones_prefix(h, s, (t - 1) as nat);
        } else {
            lemma_flat_ones_prefix(h, (t - 1) as nat, (t - 1) as nat);
        }
    }
}

/// Appends to `out` the packed hints `h`, which hold at most `OMEGA` ones.
pub fn pack_hints(h: &Polyveck, out: &mut Vec<u8>)
    requires
        flat_ones(h.ints(), 1536).len() <= OMEGA,
    ensures
        final(out)@ == old(out)@ + hints_encoded(h.ints()),
        final(out)@.len() == old(out)@.len() + 61,
{
    let ghost hs = h.ints();
    let mut list = [0u8; 61];
    let mut k: usize = 0;
    let mut i: usize = 0;
    while i < K
        invariant
            i <= K,
            hs == h.ints(),
            flat_ones(hs, 1536).len() <= 55,
            k <= 55,
            k == flat_ones(hs, (256 * i) as nat).len(),
            forall|p: int| 0 <= p < k ==> list@[p] == flat_ones(hs, (256 * i) as nat)[p],
            forall|p: int| k <= p < 55 ==> list@[p] == 0,
            forall|e: int|
                0 <= e < i ==> #[trigger] list@[55 + e] == flat_ones(
                    hs,
                    (256 * (e + 1)) as nat,
                ).len(),
        decreases K - i,
    {
        let mut j: usize = 0;
        while j < N
            invariant
                i < K,
                j <= N,
                hs == h.ints(),
                flat_ones(hs, 1536).len() <= 55,
                k <= 55,
                k == flat_ones(hs, (256 * i + j) as nat).len(),
                forall|p: int| 0 <= p < k ==> list@[p] == flat_ones(hs, (256 * i + j) as nat)[p],
                forall|p: int| k <= p < 55 ==> list@[p] == 0,
                forall|e: int|
                    0 <= e < i ==> #[trigger] list@[55 + e] == flat_ones(
                        hs,
                        (256 * (e + 1)) as nat,
                    ).len(),
            decreases N - j,
        {
            proof {
                let t = (256 * i + j + 1) as nat;
                assert((t - 1) / 256 == i && (t - 1) % 256 == j);
                assert(hs[i as int][j as int] == h.vec@[i as int].coeffs@[j as int]);
                lemma_flat_ones_prefix(hs, t, 1536);
            }
            if h.vec[i].coeffs[j] != 0 {
                list[k] = j as u8;
                k += 1;
            }
            j += 1;
        }
        assert(256 * i + 256 == 256 * (i + 1));
        list[OMEGA + i] = k as u8;
        i += 1;
    }
    assert forall|p: int| 0 <= p < 61 implies list@[p] == #[trigger] hints_encoded(hs)[p] by {
        if p >= 55 {
            assert(list@[55 + (p - 55)] == flat_ones(hs, (256 * ((p - 55) + 1)) as nat).len());
        }
    }
    assert(list@ =~= hints_encoded(hs));
    out.extend_from_slice(list.as_slice());
}

/// The entry of a hint vector with ones at the places that `b` lists from
/// `lo` to below `hi`; `None` where the places do not rise strictly.
fn unpack_hint_poly(b: &[u8], lo: usize, hi: usize) -> (r: Option<Poly>)
    requires
        lo <= hi <= b@.len(),
    ensures
        match r {
            Some(a) => {
                &&& forall|p: int| lo < p < hi ==> b@[p - 1] < #[trigger] b@[p]
                &&& a.ints() == Seq::new(
                    256,
                    |j: int|
                        if hint_listed(b@, lo as int, hi as int, j) {
                            1int
                        } else {
                            0int
                        },
                )
                &&& a.in_range(0, 1)
            },
            None => exists|p: int| lo < p < hi && b@[p - 1] >= #[trigger] b@[p],
        },
{
    let mut a = Poly::default();
    let mut j: usize = lo;
    while j < hi
        invariant
            lo <= j <= hi <= b@.len(),
            forall|p: int| lo < p < j ==> b@[p - 1] < #[trigger] b@[p],
            forall|x: int|
                0 <= x < 256 ==> #[trigger] a.coeffs@[x] == if hint_listed(
                    b@,
                    lo as int,
                    j as int,
                    x,
                ) {
                    1int
                } else {
                    0int
                },
        decreases hi - j,
    {
        if j > lo && b[j] <= b[j - 1] {
            return None;
        }
        let ghost before = a.coeffs@;
        a.coeffs[b[j] as usize] = 1;
        proof {
            assert forall|x: int| 0 <= x < 256 implies #[trigger] a.coeffs@[x] == if hint_listed(
                b@,
                lo as int,
                j + 1,
                x,
            ) {
                1int
            } else {
                0int
            } by {
                if hint_listed(b@, lo as int, j as int, x) {
                    let p = choose|p: int| lo <= p < j && #[trigger] b@[p] == x;
                    assert(lo <= p < j + 1 && b@[p] == x);
                } else if b@[j as int] == x {
                    assert(lo <= j < j + 1 && b@[j as int] == x);
                } else {
                    if hint_listed(b@, lo as int, j + 1, x) {
                        let p = choose|p: int| lo <= p < j + 1 && #[trigger] b@[p] == x;
                        assert(p < j);
                        assert(false);
                    }
                }
            }
        }
        j += 1;
    }
    assert(a.ints() =~= Seq::new(
        256,
        |j: int|
            if hint_listed(b@, lo as int, hi as int, j) {
                1int
            } else {
                0int
            },
    ));
    Some(a)
}

/// Entry `i` of the hint vector that `b` holds, where the entries before
/// it end at `k`; `None` where the entry is not valid.
fn unpack_hint_entry(b: &[u8], i: usize, k: usize) -> (r: Option<Poly>)
    requires
        b@.len() == 61,
        i < 6,
        k == hint_start(b@, i as int),
        k <= 55,
    ensures
        match r {
            Some(a) => hint_entry_valid(b@, i as int) && a.ints() == hint_entry(b@, i as int)
                && a.in_range(0, 1),
            None => !hint_entry_valid(b@, i as int),
        },
{
    let end: usize = b[OMEGA + i] as usize;
    if end < k || end > OMEGA {
        return None;
    }
    let entry = unpack_hint_poly(b, k, end);
    match entry {
        Some(a) => {
            assert(hint_sorted(b@, i as int));
            assert(a.ints() =~= hint_entry(b@, i as int));
            Some(a)
        },
        None => {
            assert(!hint_sorted(b@, i as int));
            None
        },
    }
}

/// Unpacks hints; fails on an encoding that is not valid.
pub fn unpack_hints(b: &[u8]) -> (r: Option<Polyveck>)
    requires
        b@.len() == 61,
    ensures
        match r {
            Some(h) => hints_valid(b@) && h.ints() == hints_decoded(b@) && h.in_range(0, 1),
            None => !hints_valid(b@),
        },
{
    let mut h = Polyveck::default();
    let mut k: usize = 0;
    let mut i: usize = 0;
    while i < K
        invariant
            i <= K,
            b@.len() == 61,
            k <= 55,
            k == hint_start(b@, i as int),
            forall|e: int| 0 <= e < i ==> #[trigger] hint_entry_valid(b@, e),
            forall|e: int|
                0 <= e < i ==> (#[trigger] h.vec@[e]).ints() == hint_entry(b@, e)
                    && h.vec@[e].in_range(0, 1),
        decreases K - i,
    {
        let entry = unpack_hint_entry(b, i, k);
        match entry {
            Some(a) => {
                h.vec[i] = a;
            },
            None => {
                return None;
            },
        }
        k = b[OMEGA + i] as usize;
        i += 1;
    }
    let mut j: usize = k;
    while j < OMEGA
        invariant
            k <= j <= OMEGA,
            b@.len() == 61,
            k == hint_end(b@, 5),
            forall|p: int| k <= p < j ==> #[trigger] b@[p] == 0,
        decreases OMEGA - j,
    {
        if b[j] != 0 {
            return None;
        }
        j += 1;
    }
    assert(h.ints() =~= hints_decoded(b@));
    Some(h)
}

/// The packed signature: the challenge seed, the response, the hints.
pub open spec fn sig_bytes(c: Seq<u8>, z: Seq<Seq<int>>, h: Seq<Seq<int>>) -> Seq<u8> {
    c + encode_vec(Coding::Z, z, 5) + hints_encoded(h)
}

/// The challenge seed in a packed signature.
pub open spec fn sig_c(sig: Seq<u8>) -> Seq<u8> {
    sig.take(32)
}

/// The response in a packed signature.
pub open spec fn sig_z(sig: Seq<u8>) -> Seq<Seq<int>> {
    decode_vec(Coding::Z, sig.subrange(32, 3232), 5)
}

/// The packed hints in a packed signature.
pub open spec fn sig_hints(sig: Seq<u8>) -> Seq<u8> {
    sig.skip(3232)
}

/// Packs a signature.
pub fn pack_sig(c: &[u8; SEEDBYTES], z: &Polyvecl, h: &Polyveck) -> (sig: [u8; SIGNBYTES])
    requires
        z.in_range(-524287, 524288),
        flat_ones(h.ints(), 1536).len() <= OMEGA,
    ensures
        sig@ == sig_bytes(c@, z.ints(), h.ints()),
{
    let mut out: Vec<u8> = Vec::new();
    out.extend_from_slice(c.as_slice());
    pack_vec(z, Coding::Z, &mut out);
    pack_hints(h, &mut out);
    to_array(&out)
}

/// Unpacks a signature; fails with `Format` if and only if the hints are
/// not validly encoded.
pub fn unpack_sig(sig: &[u8; SIGNBYTES]) -> (r: Result<Signature, SignError>)
    ensures
        match r {
            Ok(s) => {
                &&& hints_valid(sig_hints(sig@))
                &&& s.c@ == sig_c(sig@)
                &&& s.z.ints() == sig_z(sig@)
                &&& s.h.ints() == hints_decoded(sig_hints(sig@))
                &&& s.z.in_range(-524287, 524288)
                &&& s.h.in_range(0, 1)
            },
            Err(e) => e == SignError::Format && !hints_valid(sig_hints(sig@)),
        },
{
    let bytes = sig.as_slice();
    let c = seed_at(bytes, 0);
    assert(c@ =~= sig_c(sig@));
    let z = unpack_vec::<5>(slice_subrange(bytes, 32, 3232), Coding::Z);
    let tail = slice_subrange(bytes, 3232, 3293);
    assert(tail@ =~= sig_hints(sig@));
    match unpack_hints(tail) {
        Some(h) => Ok(Signature { c, z, h }),
        None => Err(SignError::Format),
    }
}



/// Every coefficient of the first six entries of `h` is 0 or 1.
pub open spec fn zero_one(h: Seq<Seq<int>>) -> bool {
    forall|i: int, j: int| 0 <= i < 6 && 0 <= j < 256 ==> 0 <= #[trigger] h[i][j] <= 1
}

/// In a vector of zeros and ones, the number of places of ones is the sum
/// of the coefficients.
pub proof fn lemma_flat_weight(h: Seq<Seq<int>>, i: nat, j: nat)
    requires
        zero_one(h),
        i < 6,
        j <= 256,
    ensures
        flat_ones(h, 256 * i + j).len() == weight_vec(h, i) + weight(h[i as int], j),
    decreases i, j,
{
    if j == 0 {
        if i > 0 {
            lemma_flat_weight(h, (i - 1) as nat, 256);
            assert(256 * (i - 1) + 256 == 256 * i);
        }
    } else {
        lemma_flat_weight(h, i, (j - 1) as nat);
        let t = 256 * i + j;
        assert((t - 1) / 256 == i && (t - 1) % 256 == j - 1);
        assert(0 <= h[i as int][j - 1] <= 1);
    }
}

/// The hint vector of zeros and ones `h` holds as many places of ones as
/// its weight says.
pub proof fn lemma_weight_is_ones(h: Seq<Seq<int>>)
    requires
        zero_one(h),
    ensures
        flat_ones(h, 1536).len() == weight_vec(h, 6),
{
    lemma_flat_weight(h, 5, 256);
}



/// Every one of the 256 coefficients `c` lies in `[lo, hi]`.
pub open spec fn coeffs_in(c: Seq<int>, lo: int, hi: int) -> bool {
    c.len() == 256 && forall|j: int| 0 <= j < 256 ==> lo <= #[trigger] c[j] <= hi
}

/// Every entry of the vector `v` of `m` entries lies in `[lo, hi]`.
pub open spec fn vec_in(v: Seq<Seq<int>>, m: nat, lo: int, hi: int) -> bool {
    v.len() == m && forall|i: int| 0 <= i < m ==> coeffs_in(#[trigger] v[i], lo, hi)
}

impl Coding {
    /// The facts about the sizes of a coding.
    pub proof fn lemma_sizes(self)
        ensures
            pow(self.base(), self.group()) == pow(256, self.group_bytes()),
            self.group() * self.groups() == 256,
            self.group_bytes() * self.groups() == self.size(),
            self.base() > 0,
            self.group() > 0,
            self.group_bytes() > 0,
    {
        lemma_group_sizes();
    }

    /// The digits of coefficients in the range of the coding are digits,
    /// and stand for those coefficients.
    pub proof fn lemma_digits(self, c: Seq<int>)
        requires
            c.len() == 256,
        ensures
            self.digits(c).len() == 256,
            self.digits(self.digits(c)) == c,
            coeffs_in(c, self.decoded_lo(), self.hi()) <==> all_digits(self.digits(c), self.base()),
    {
        assert(self.digits(self.digits(c)) =~= c);
        let d = self.digits(c);
        if coeffs_in(c, self.decoded_lo(), self.hi()) {
            assert forall|j: int| 0 <= j < 256 implies 0 <= #[trigger] d[j] < self.base() by {
                assert(self.decoded_lo() <= c[j] <= self.hi());
            }
        }
        if all_digits(d, self.base()) {
            assert forall|j: int| 0 <= j < 256 implies self.decoded_lo() <= #[trigger] c[j]
                <= self.hi() by {
                assert(0 <= d[j] < self.base());
            }
        }
    }

    /// Unpacking what was packed gives the coefficients back.
    pub proof fn lemma_decode_encode(self, c: Seq<int>)
        requires
            coeffs_in(c, self.decoded_lo(), self.hi()),
        ensures
            self.encode(c).len() == self.size(),
            self.decode(self.encode(c)) == c,
    {
        self.lemma_sizes();
        self.lemma_digits(c);
        let d = self.digits(c);
        let bytes = regroup(d, self.base(), 256, self.group(), self.group_bytes());
        lemma_regroup_len(d, self.base(), 256, self.group(), self.group_bytes(), self.groups());
        lemma_regroup_range(d, self.base(), 256, self.group(), self.group_bytes());
        lemma_ints_bytes(bytes);
        lemma_regroup_round_trip(
            d,
            self.base(),
            256,
            self.group(),
            self.group_bytes(),
            self.groups(),
        );
    }

    /// Packing what was unpacked gives the bytes back.
    pub proof fn lemma_encode_decode(self, b: Seq<u8>)
        requires
            b.len() == self.size(),
        ensures
            coeffs_in(self.decode(b), self.decoded_lo(), self.hi()),
            self.encode(self.decode(b)) == b,
    {
        self.lemma_sizes();
        lemma_bytes_ints(b);
        let d = regroup(as_ints(b), 256, self.base(), self.group_bytes(), self.group());
        lemma_regroup_len(
            as_ints(b),
            256,
            self.base(),
            self.group_bytes(),
            self.group(),
            self.groups(),
        );
        lemma_regroup_range(as_ints(b), 256, self.base(), self.group_bytes(), self.group());
        lemma_regroup_round_trip(
            as_ints(b),
            256,
            self.base(),
            self.group_bytes(),
            self.group(),
            self.groups(),
        );
        self.lemma_digits(d);
        self.lemma_digits(self.digits(d));
    }
}

/// The packed form of `n` entries has `n` times the size of one.
pub proof fn lemma_encode_vec_len(kind: Coding, v: Seq<Seq<int>>, n: nat)
    requires
        forall|i: int| 0 <= i < n ==> coeffs_in(#[trigger] v[i], kind.decoded_lo(), kind.hi()),
    ensures
        encode_vec(kind, v, n).len() == n * kind.size(),
    decreases n,
{
    if n > 0 {
        lemma_encode_vec_len(kind, v, (n - 1) as nat);
        kind.lemma_decode_encode(v[n - 1]);
        assert(n * kind.size() == (n - 1) * kind.size() + kind.size()) by (nonlinear_arith);
    } else {
        assert(0 * kind.size() == 0);
    }
}

/// Entry `i` of a packed vector is the packed form of entry `i`.
pub proof fn lemma_encode_vec_entry(kind: Coding, v: Seq<Seq<int>>, n: nat, i: int)
    requires
        forall|e: int| 0 <= e < n ==> coeffs_in(#[trigger] v[e], kind.decoded_lo(), kind.hi()),
        0 <= i < n,
    ensures
        0 <= i * kind.size() <= (i + 1) * kind.size() <= encode_vec(kind, v, n).len(),
        encode_vec(kind, v, n).subrange(i * kind.size(), (i + 1) * kind.size()) == kind.encode(
            v[i],
        ),
    decreases n,
{
    let size = kind.size();
    lemma_encode_vec_len(kind, v, n);
    lemma_encode_vec_len(kind, v, (n - 1) as nat);
    kind.lemma_decode_encode(v[n - 1]);
    assert(n * size == (n - 1) * size + size) by (nonlinear_arith);
    assert((i + 1) * size == i * size + size) by (nonlinear_arith);
    assert(0 <= i * size) by (nonlinear_arith)
        requires
            0 <= i,
            0 <= size,
    ;
    assert((i + 1) * size <= n * size) by (nonlinear_arith)
        requires
            i + 1 <= n,
            0 <= size,
    ;
    let prev = encode_vec(kind, v, (n - 1) as nat);
    let all = encode_vec(kind, v, n);
    if i == n - 1 {
        assert(all.subrange(i * size, (i + 1) * size) =~= kind.encode(v[i]));
    } else {
        lemma_encode_vec_entry(kind, v, (n - 1) as nat, i);
        assert((i + 1) * size <= (n - 1) * size) by (nonlinear_arith)
            requires
                i + 1 <= n - 1,
                0 <= size,
        ;
        assert(all.subrange(i * size, (i + 1) * size) =~= prev.subrange(
            i * size,
            (i + 1) * size,
        ));
    }
}

/// Unpacking a packed vector gives the vector back.
pub proof fn lemma_decode_encode_vec(kind: Coding, v: Seq<Seq<int>>, m: nat)
    requires
        vec_in(v, m, kind.decoded_lo(), kind.hi()),
    ensures
        encode_vec(kind, v, m).len() == m * kind.size(),
        decode_vec(kind, encode_vec(kind, v, m), m) == v,
{
    lemma_encode_vec_len(kind, v, m);
    let b = encode_vec(kind, v, m);
    assert forall|i: int| 0 <= i < m implies #[trigger] decode_vec(kind, b, m)[i] == v[i] by {
        lemma_encode_vec_entry(kind, v, m, i);
        kind.lemma_decode_encode(v[i]);
    }
    assert(decode_vec(kind, b, m) =~= v);
}

/// Packing the first `n` entries of an unpacked vector gives the first
/// bytes back.
pub proof fn lemma_encode_decode_prefix(kind: Coding, b: Seq<u8>, m: nat, n: nat)
    requires
        b.len() == m * kind.size(),
        n <= m,
    ensures
        0 <= n * kind.size() <= b.len(),
        encode_vec(kind, decode_vec(kind, b, m), n) == b.take((n * kind.size()) as int),
    decreases n,
{
    let size = kind.size();
    assert(0 <= n * size <= m * size) by (nonlinear_arith)
        requires
            0 <= n <= m,
            0 <= size,
    ;
    if n == 0 {
        assert(0 * size == 0);
        assert(encode_vec(kind, decode_vec(kind, b, m), 0) =~= b.take(0));
    } else {
        lemma_encode_decode_prefix(kind, b, m, (n - 1) as nat);
        assert(n * size == (n - 1) * size + size) by (nonlinear_arith);
        let part = b.subrange((n - 1) * size, (n * size) as int);
        assert(decode_vec(kind, b, m)[n - 1] == kind.decode(
            b.subrange((n - 1) * kind.size(), ((n - 1) + 1) * kind.size()),
        ));
        kind.lemma_encode_decode(part);
        assert(b.take((n - 1) * size) + part =~= b.take((n * size) as int));
    }
}

/// Packing an unpacked vector gives the bytes back, and what is unpacked
/// lies in the range of the coding.
pub proof fn lemma_encode_decode_vec(kind: Coding, b: Seq<u8>, m: nat)
    requires
        b.len() == m * kind.size(),
    ensures
        vec_in(decode_vec(kind, b, m), m, kind.decoded_lo(), kind.hi()),
        encode_vec(kind, decode_vec(kind, b, m), m) == b,
{
    lemma_encode_decode_prefix(kind, b, m, m);
    assert(b.take((m * kind.size()) as int) =~= b);
    let size = kind.size();
    assert forall|i: int| 0 <= i < m implies coeffs_in(
        #[trigger] decode_vec(kind, b, m)[i],
        kind.decoded_lo(),
        kind.hi(),
    ) by {
        assert((i + 1) * size == i * size + size) by (nonlinear_arith);
        assert(0 <= i * size) by (nonlinear_arith)
            requires
                0 <= i,
                0 <= size,
        ;
        assert((i + 1) * size <= m * size) by (nonlinear_arith)
            requires
                i + 1 <= m,
                0 <= size,
        ;
        kind.lemma_encode_decode(b.subrange(i * size, (i + 1) * size));
    }
}



/// Whether `x` is among the entries of `f` from `lo` to below `hi`.
pub open spec fn listed(f: Seq<int>, lo: int, hi: int, x: int) -> bool {
    exists|p: int| lo <= p < hi && #[trigger] f[p] == x
}

/// A hint vector: six entries of 256 zeros and ones.
pub open spec fn is_hint_vec(h: Seq<Seq<int>>) -> bool {
    vec_in(h, 6, 0, 1)
}

/// The places that the coefficients of entry `i` up to `j` add to the
/// places of the entries before: they are below `j`, they rise strictly,
/// and they are the places of the nonzero coefficients.
pub proof fn lemma_flat_segment(h: Seq<Seq<int>>, i: nat, j: nat)
    requires
        i < 6,
        j <= 256,
    ensures
        flat_ones(h, 256 * i).len() <= flat_ones(h, 256 * i + j).len(),
        forall|p: int|
            flat_ones(h, 256 * i).len() <= p < flat_ones(h, 256 * i + j).len() ==> 0
                <= #[trigger] flat_ones(h, 256 * i + j)[p] < j,
        forall|p: int|
            flat_ones(h, 256 * i).len() < p < flat_ones(h, 256 * i + j).len()
                ==> flat_ones(h, 256 * i + j)[p - 1] < #[trigger] flat_ones(h, 256 * i + j)[p],
        forall|x: int|
            0 <= x < j ==> (h[i as int][x] != 0 <==> #[trigger] listed(
                flat_ones(h, 256 * i + j),
                flat_ones(h, 256 * i).len() as int,
                flat_ones(h, 256 * i + j).len() as int,
                x,
            )),
    decreases j,
{
    let s = flat_ones(h, 256 * i).len() as int;
    let f = flat_ones(h, 256 * i + j);
    let e = f.len() as int;
    if j > 0 {
        lemma_flat_segment(h, i, (j - 1) as nat);
        let t = 256 * i + j;
        assert((t - 1) / 256 == i && (t - 1) % 256 == j - 1);
        let g = flat_ones(h, (t - 1) as nat);
        let e1 = g.len() as int;
        assert forall|x: int| 0 <= x < j implies (h[i as int][x] != 0 <==> #[trigger] listed(
            f,
            s,
            e,
            x,
        )) by {
            if x < j - 1 {
                if listed(g, s, e1, x) {
                    let p = choose|p: int| s <= p < e1 && #[trigger] g[p] == x;
                    assert(s <= p < e && f[p] == x);
                }
                if listed(f, s, e, x) {
                    let p = choose|p: int| s <= p < e && #[trigger] f[p] == x;
                    assert(s <= p < e1 && g[p] == x);
                }
            } else {
                if h[i as int][x] != 0 {
                    assert(s <= e1 < e && f[e1] == x);
                }
                if listed(f, s, e, x) {
                    let p = choose|p: int| s <= p < e && #[trigger] f[p] == x;
                    if p < e1 {
                        assert(g[p] < j - 1);
                    }
                }
            }
        }
    }
}

/// Unpacking packed hints gives the hint vector back: the packing is
/// valid for a hint vector with at most `OMEGA` ones.
pub proof fn lemma_hints_decode_encode(h: Seq<Seq<int>>)
    requires
        is_hint_vec(h),
        flat_ones(h, 1536).len() <= 55,
    ensures
        hints_encoded(h).len() == 61,
        hints_valid(hints_encoded(h)),
        hints_decoded(hints_encoded(h)) == h,
{
    let b = hints_encoded(h);
    let all = flat_ones(h, 1536);
    assert forall|i: int| 0 <= i < 6 implies hint_start(b, i) == flat_ones(h, (256 * i) as nat).len()
        && hint_end(b, i) == flat_ones(h, (256 * (i + 1)) as nat).len() && #[trigger] hint_entry_valid(
        b,
        i,
    ) && hint_entry(b, i) == h[i] by {
        let lo = (256 * i) as nat;
        let hi = (256 * (i + 1)) as nat;
        lemma_flat_ones_prefix(h, lo, 1536);
        lemma_flat_ones_prefix(h, hi, 1536);
        lemma_flat_ones_prefix(h, lo, hi);
        lemma_flat_segment(h, i as nat, 256);
        let f = flat_ones(h, hi);
        let s = flat_ones(h, lo).len() as int;
        let e = f.len() as int;
        assert(b[55 + i] == e);
        if i > 0 {
            assert(b[55 + (i - 1)] == flat_ones(h, (256 * ((i - 1) + 1)) as nat).len());
        }
        assert(hint_start(b, i) == s);
        assert(hint_end(b, i) == e);
        assert forall|p: int| s <= p < e implies #[trigger] b[p] == f[p] by {
            assert(b[p] == all[p] as u8);
            assert(0 <= f[p] < 256);
        }
        assert(hint_sorted(b, i)) by {
            assert forall|p: int| s < p < e implies b[p - 1] < #[trigger] b[p] by {
                assert(b[p - 1] == f[p - 1]);
                assert(f[p - 1] < f[p]);
            }
        }
        assert(coeffs_in(h[i], 0, 1));
        assert forall|x: int| 0 <= x < 256 implies #[trigger] hint_entry(b, i)[x] == h[i][x] by {
            if hint_listed(b, s, e, x) {
                let p = choose|p: int| s <= p < e && #[trigger] b[p] == x;
                assert(f[p] == x);
                assert(listed(f, s, e, x));
            }
            if listed(f, s, e, x) {
                let p = choose|p: int| s <= p < e && #[trigger] f[p] == x;
                assert(b[p] == x);
                assert(hint_listed(b, s, e, x));
            }
            assert(0 <= h[i][x] <= 1);
        }
        assert(hint_entry(b, i) =~= h[i]);
    }
    assert(hint_end(b, 5) == all.len()) by {
        assert(hint_entry_valid(b, 5));
    }
    assert forall|i: int| 0 <= i < 6 implies #[trigger] hints_decoded(b)[i] == h[i] by {
        assert(hint_entry_valid(b, i));
    }
    assert(hints_decoded(b) =~= h);
}

/// In a valid entry of packed hints, places listed later are larger.
pub proof fn lemma_hint_sorted(b: Seq<u8>, i: int, x: int, y: int)
    requires
        hint_sorted(b, i),
        hint_start(b, i) <= x < y < hint_end(b, i),
    ensures
        b[x] < b[y],
    decreases y - x,
{
    if x + 1 < y {
        lemma_hint_sorted(b, i, x, y - 1);
    }
    assert(b[y - 1] < b[y]);
}

/// The places of the ones of the hint vector that valid packed hints `b`
/// hold, read up to coefficient `j` of entry `i`, are the bytes of `b` up
/// to some place of entry `i`: the bytes of the entry before that place
/// are below `j`, those from that place on are at least `j`.
pub proof fn lemma_decoded_ones(b: Seq<u8>, i: nat, j: nat) -> (m: int)
    requires
        b.len() == 61,
        hints_valid(b),
        i < 6,
        j <= 256,
    ensures
        hint_start(b, i as int) <= m <= hint_end(b, i as int),
        forall|p: int| hint_start(b, i as int) <= p < m ==> #[trigger] b[p] < j,
        forall|p: int| m <= p < hint_end(b, i as int) ==> #[trigger] b[p] >= j,
        flat_ones(hints_decoded(b), 256 * i + j) == as_ints(b.subrange(0, m)),
        j == 256 ==> m == hint_end(b, i as int),
    decreases i, j,
{
    let h = hints_decoded(b);
    let s = hint_start(b, i as int);
    let e = hint_end(b, i as int);
    assert(hint_entry_valid(b, i as int));
    if j == 0 {
        if i == 0 {
            assert(flat_ones(h, 0) =~= as_ints(b.subrange(0, 0)));
            0
        } else {
            let m = lemma_decoded_ones(b, (i - 1) as nat, 256);
            assert(256 * (i - 1) + 256 == 256 * i);
            m
        }
    } else {
        let m = lemma_decoded_ones(b, i, (j - 1) as nat);
        let t = 256 * i + j;
        assert((t - 1) / 256 == i && (t - 1) % 256 == j - 1);
        let x = j - 1;
        assert(h[i as int][x] == hint_entry(b, i as int)[x]);
        let r = if hint_listed(b, s, e, x) {
            let p = choose|p: int| s <= p < e && #[trigger] b[p] == x;
            if p < m {
                assert(b[p] < j - 1);
            }
            if p > m {
                lemma_hint_sorted(b, i as int, m, p);
                assert(b[m] >= j - 1);
            }
            assert(p == m);
            assert forall|q: int| m + 1 <= q < e implies #[trigger] b[q] >= j by {
                lemma_hint_sorted(b, i as int, m, q);
            }
            assert(as_ints(b.subrange(0, m)).push(x) =~= as_ints(b.subrange(0, m + 1)));
            m + 1
        } else {
            assert forall|q: int| m <= q < e implies #[trigger] b[q] >= j by {
                if b[q] == x {
                    assert(hint_listed(b, s, e, x));
                }
            }
            m
        };
        if j == 256 && r < e {
            assert(b[r] >= 256);
        }
        r
    }
}

/// The number of places of ones that the hint vector in valid packed hints
/// holds up to the end of entry `i` is the end of that entry.
proof fn lemma_decoded_count(b: Seq<u8>, i: nat)
    requires
        b.len() == 61,
        hints_valid(b),
        i < 6,
    ensures
        flat_ones(hints_decoded(b), 256 * (i + 1)) == as_ints(
            b.subrange(0, hint_end(b, i as int)),
        ),
        0 <= hint_end(b, i as int) <= 55,
{
    let m = lemma_decoded_ones(b, i, 256);
    assert(256 * i + 256 == 256 * (i + 1));
    assert(hint_entry_valid(b, i as int));
}

/// Packing unpacked hints gives the bytes back, where they are valid.
pub proof fn lemma_hints_encode_decode(b: Seq<u8>)
    requires
        b.len() == 61,
        hints_valid(b),
    ensures
        is_hint_vec(hints_decoded(b)),
        flat_ones(hints_decoded(b), 1536).len() <= 55,
        hints_encoded(hints_decoded(b)) == b,
{
    let h = hints_decoded(b);
    let c = hints_encoded(h);
    lemma_decoded_count(b, 0);
    lemma_decoded_count(b, 1);
    lemma_decoded_count(b, 2);
    lemma_decoded_count(b, 3);
    lemma_decoded_count(b, 4);
    lemma_decoded_count(b, 5);
    let e5 = hint_end(b, 5);
    let all = flat_ones(h, 1536);
    assert(all == as_ints(b.subrange(0, e5)));
    assert(all.len() == e5);
    assert forall|p: int| 0 <= p < 61 implies #[trigger] c[p] == b[p] by {
        if p >= 55 {
            let i = p - 55;
            assert(256 * (p - 54) == 256 * (i + 1));
            assert(flat_ones(h, (256 * (p - 54)) as nat).len() == hint_end(b, i));
        } else if p < e5 {
            assert(all[p] == b[p]);
        } else {
            assert(b[p] == 0);
        }
    }
    assert(c =~= b);
    assert forall|i: int| 0 <= i < 6 implies coeffs_in(#[trigger] h[i], 0, 1) by {
        assert(h[i] == hint_entry(b, i));
    }
}

} // verus!
