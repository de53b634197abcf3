//! The number-theoretic transform of a ring element and its inverse.
//!
//! The transform is the composition of eight layers of butterflies. A layer
//! with stride `len` works on blocks of `2 * len` coefficients and multiplies
//! by one power of the 512th root of unity 1753 per block.
use vstd::prelude::*;
use crate::params::N;
use crate::reduce::montgomery_reduce;
use crate::roots::{
    bit_reversed,
    lemma_table_pair,
    lemma_table_root,
    lemma_table_square,
    mirror,
    root_power,
    zeta_table,
};
use crate::ring::{bounded, canon, lemma_canon_add, lemma_canon_mul, lemma_canon_sub, q, r_inv, residues};

verus! {

/// The powers of the root of unity, in the order in which the layers use
/// them, each multiplied by `2^32` and centered modulo `q`.
pub const ZETAS: [i32; 256] = [
    0, 25847, -2608894, -518909, 237124, -777960, -876248, 466468,
    1826347, 2353451, -359251, -2091905, 3119733, -2884855, 3111497, 2680103,
    2725464, 1024112, -1079900, 3585928, -549488, -1119584, 2619752, -2108549,
    -2118186, -3859737, -1399561, -3277672, 1757237, -19422, 4010497, 280005,
    2706023, 95776, 3077325, 3530437, -1661693, -3592148, -2537516, 3915439,
    -3861115, -3043716, 3574422, -2867647, 3539968, -300467, 2348700, -539299,
    -1699267, -1643818, 3505694, -3821735, 3507263, -2140649, -1600420, 3699596,
    811944, 531354, 954230, 3881043, 3900724, -2556880, 2071892, -2797779,
    -3930395, -1528703, -3677745, -3041255, -1452451, 3475950, 2176455, -1585221,
    -1257611, 1939314, -4083598, -1000202, -3190144, -3157330, -3632928, 126922,
    3412210, -983419, 2147896, 2715295, -2967645, -3693493, -411027, -2477047,
    -671102, -1228525, -22981, -1308169, -381987, 1349076, 1852771, -1430430,
    -3343383, 264944, 508951, 3097992, 44288, -1100098, 904516, 3958618,
    -3724342, -8578, 1653064, -3249728, 2389356, -210977, 759969, -1316856,
    189548, -3553272, 3159746, -1851402, -2409325, -177440, 1315589, 1341330,
    1285669, -1584928, -812732, -1439742, -3019102, -3881060, -3628969, 3839961,
    2091667, 3407706, 2316500, 3817976, -3342478, 2244091, -2446433, -3562462,
    266997, 2434439, -1235728, 3513181, -3520352, -3759364, -1197226, -3193378,
    900702, 1859098, 909542, 819034, 495491, -1613174, -43260, -522500,
    -655327, -3122442, 2031748, 3207046, -3556995, -525098, -768622, -3595838,
    342297, 286988, -2437823, 4108315, 3437287, -3342277, 1735879, 203044,
    2842341, 2691481, -2590150, 1265009, 4055324, 1247620, 2486353, 1595974,
    -3767016, 1250494, 2635921, -3548272, -2994039, 1869119, 1903435, -1050970,
    -1333058, 1237275, -3318210, -1430225, -451100, 1312455, 3306115, -1962642,
    -1279661, 1917081, -2546312, -1374803, 1500165, 777191, 2235880, 3406031,
    -542412, -2831860, -1671176, -1846953, -2584293, -3724270, 594136, -3776993,
    -2013608, 2432395, 2454455, -164721, 1957272, 3369112, 185531, -1207385,
    -3183426, 162844, 1616392, 3014001, 810149, 1652634, -3694233, -1799107,
    -3038916, 3523897, 3866901, 269760, 2213111, -975884, 1717735, 472078,
    -426683, 1723600, -1803090, 1910376, -1667432, -1104333, -260646, -3833893,
    -2939036, -2235985, -420899, -2286327, 183443, -976891, 1612842, -3545687,
    -554416, 3919660, -48306, -1362209, 3937738, 1400424, -846154, 1976782,
];

/// The inverse of 256 modulo `q`.
pub open spec fn inv256() -> int {
    8347681
}

/// `2^32` modulo `q`.
pub open spec fn mont_r() -> int {
    4193792
}

/// The `k`-th root power that the butterflies multiply by, as a canonical
/// residue: 1753 to the power of `k` with its eight bits reversed.
pub open spec fn zeta(k: int) -> int {
    canon(ZETAS[k] as int * r_inv())
}

/// The strides of the eight layers.
pub open spec fn is_layer_len(len: int) -> bool {
    len == 1 || len == 2 || len == 4 || len == 8 || len == 16 || len == 32 || len == 64 || len
        == 128
}

/// One layer of the forward transform with stride `len`: in each block of
/// `2 * len` entries the pair `(x, y)` at distance `len` becomes
/// `(x + z * y, x - z * y)`, where `z` is the root power of the block.
pub open spec fn ntt_layer(a: Seq<int>, len: int) -> Seq<int> {
    Seq::new(
        256,
        |i: int|
            {
                let k = 128int / len + i / (2 * len);
                if i % (2 * len) < len {
                    canon(a[i] + zeta(k) * a[i + len])
                } else {
                    canon(a[i - len] - zeta(k) * a[i])
                }
            },
    )
}

/// One layer of the inverse transform with stride `len`: the pair `(x, y)`
/// becomes `(x + y, (x - y) * -z)`, where `z` is the root power of the
/// mirrored block.
pub open spec fn intt_layer(a: Seq<int>, len: int) -> Seq<int> {
    Seq::new(
        256,
        |i: int|
            {
                let k = 256int / len - 1 - i / (2 * len);
                if i % (2 * len) < len {
                    canon(a[i] + a[i + len])
                } else {
                    canon((a[i - len] - a[i]) * (-zeta(k)))
                }
            },
    )
}

/// The forward transform of a sequence of 256 residues.
#[verifier::opaque]
pub open spec fn ntt_spec(a: Seq<int>) -> Seq<int> {
    ntt_layer(
        ntt_layer(
            ntt_layer(
                ntt_layer(ntt_layer(ntt_layer(ntt_layer(ntt_layer(a, 128), 64), 32), 16), 8),
                4,
            ),
            2,
        ),
        1,
    )
}

/// The eight inverse layers, without the final division by 256.
#[verifier::opaque]
pub open spec fn intt_layers(a: Seq<int>) -> Seq<int> {
    intt_layer(
        intt_layer(
            intt_layer(
                intt_layer(intt_layer(intt_layer(intt_layer(intt_layer(a, 1), 2), 4), 8), 16),
                32,
            ),
            64,
        ),
        128,
    )
}

/// The inverse transform of a sequence of 256 residues.
pub open spec fn intt_spec(a: Seq<int>) -> Seq<int> {
    Seq::new(256, |i: int| canon(inv256() * intt_layers(a)[i]))
}

/// The number of blocks of the layer with stride `len`.
pub open spec fn layer_blocks(len: int) -> int {
    if len == 128 {
        1
    } else if len == 64 {
        2
    } else if len == 32 {
        4
    } else if len == 16 {
        8
    } else if len == 8 {
        16
    } else if len == 4 {
        32
    } else if len == 2 {
        64
    } else {
        128
    }
}

/// The first index of the block that holds index `i`.
pub open spec fn block_start(i: int, len: int) -> int {
    if len == 128 {
        i - i % 256
    } else if len == 64 {
        i - i % 128
    } else if len == 32 {
        i - i % 64
    } else if len == 16 {
        i - i % 32
    } else if len == 8 {
        i - i % 16
    } else if len == 4 {
        i - i % 8
    } else if len == 2 {
        i - i % 4
    } else {
        i - i % 2
    }
}

/// The number of the block that holds index `i`.
pub open spec fn block_index(i: int, len: int) -> int {
    if len == 128 {
        i / 256
    } else if len == 64 {
        i / 128
    } else if len == 32 {
        i / 64
    } else if len == 16 {
        i / 32
    } else if len == 8 {
        i / 16
    } else if len == 4 {
        i / 8
    } else if len == 2 {
        i / 4
    } else {
        i / 2
    }
}

/// For a stride of a layer, the block of an index and its place in the
/// block are what division by `2 * len` gives; and the partner of an index
/// in its butterfly is an index too.
pub proof fn lemma_block(i: int, len: int)
    requires
        is_layer_len(len),
    ensures
        128int / len == layer_blocks(len),
        256int / len == 2 * layer_blocks(len),
        i / (2 * len) == block_index(i, len),
        i % (2 * len) == i - block_start(i, len),
        0 <= i < 256 && i % (2 * len) < len ==> i + len < 256,
        0 <= i < 256 && i % (2 * len) >= len ==> i - len >= 0,
{
    if len == 128 {
        assert(i / (2 * len) == i / 256 && i % (2 * len) == i % 256 && 128int / len == 128int / 128
            && 256int / len == 256int / 128);
    } else if len == 64 {
        assert(i / (2 * len) == i / 128 && i % (2 * len) == i % 128 && 128int / len == 128int / 64
            && 256int / len == 256int / 64);
    } else if len == 32 {
        assert(i / (2 * len) == i / 64 && i % (2 * len) == i % 64 && 128int / len == 128int / 32
            && 256int / len == 256int / 32);
    } else if len == 16 {
        assert(i / (2 * len) == i / 32 && i % (2 * len) == i % 32 && 128int / len == 128int / 16
            && 256int / len == 256int / 16);
    } else if len == 8 {
        assert(i / (2 * len) == i / 16 && i % (2 * len) == i % 16 && 128int / len == 128int / 8
            && 256int / len == 256int / 8);
    } else if len == 4 {
        assert(i / (2 * len) == i / 8 && i % (2 * len) == i % 8 && 128int / len == 128int / 4
            && 256int / len == 256int / 4);
    } else if len == 2 {
        assert(i / (2 * len) == i / 4 && i % (2 * len) == i % 4 && 128int / len == 128int / 2
            && 256int / len == 256int / 2);
    } else if len == 1 {
        assert(i / (2 * len) == i / 2 && i % (2 * len) == i % 2 && 128int / len == 128int / 1
            && 256int / len == 256int / 1);
    }
}

/// Every entry of the table is smaller than `q / 2` in absolute value.
pub proof fn lemma_zetas_bound(k: int)
    requires
        0 <= k < 256,
    ensures
        -4190208 < ZETAS[k] < 4190208,
{
}



/// The residues of `s`, each multiplied by `c`.
pub open spec fn scale(c: int, s: Seq<int>) -> Seq<int> {
    Seq::new(s.len(), |i: int| canon(c * s[i]))
}

proof fn lemma_butterfly(lo: int, hi: int, t: int, zm: int)
    requires
        canon(t) == canon(zm * hi * r_inv()),
    ensures
        canon(lo + t) == canon(canon(lo) + canon(zm * r_inv()) * canon(hi)),
        canon(lo - t) == canon(canon(lo) - canon(zm * r_inv()) * canon(hi)),
{
    let z = canon(zm * r_inv());
    assert(zm * hi * r_inv() == (zm * r_inv()) * hi) by (nonlinear_arith);
    lemma_canon_mul(zm * r_inv(), hi);
    assert(canon(t) == canon(z * canon(hi)));
    lemma_canon_add(lo, t);
    lemma_canon_add(canon(lo), z * canon(hi));
    lemma_canon_sub(lo, t);
    lemma_canon_sub(canon(lo), z * canon(hi));
}

proof fn lemma_inverse_butterfly(lo: int, hi: int, t: int, zm: int)
    requires
        canon(t) == canon((-zm) * (lo - hi) * r_inv()),
    ensures
        canon(t) == canon((canon(lo) - canon(hi)) * (-canon(zm * r_inv()))),
        canon(lo + hi) == canon(canon(lo) + canon(hi)),
{
    let z = canon(zm * r_inv());
    assert((-zm) * (lo - hi) * r_inv() == (hi - lo) * (zm * r_inv())) by (nonlinear_arith);
    lemma_canon_mul(hi - lo, zm * r_inv());
    lemma_canon_sub(hi, lo);
    lemma_canon_mul(canon(hi) - canon(lo), z);
    assert((canon(hi) - canon(lo)) * z == (canon(lo) - canon(hi)) * (-z)) by (nonlinear_arith);
    lemma_canon_add(lo, hi);
}

proof fn lemma_final_scaling(x: int, t: int)
    requires
        canon(t) == canon(41978 * x * r_inv()),
    ensures
        canon(t) == canon(mont_r() * canon(inv256() * canon(x))),
{
    // 41978 * r_inv == mont_r * inv256 (mod q)
    assert(41978 * r_inv() == mont_r() * inv256() - 4136006 * q());
    assert(41978 * x * r_inv() == mont_r() * inv256() * x - (4136006 * x) * q())
        by (nonlinear_arith)
        requires
            41978 * r_inv() == mont_r() * inv256() - 4136006 * q(),
    ;
    vstd::arithmetic::div_mod::lemma_mod_multiples_vanish(
        -(4136006 * x),
        mont_r() * inv256() * x,
        q(),
    );
    assert(mont_r() * inv256() * x == mont_r() * (inv256() * x)) by (nonlinear_arith);
    lemma_canon_mul(mont_r(), inv256() * x);
    lemma_canon_mul(inv256(), x);
    lemma_canon_mul(mont_r(), inv256() * canon(x));
}

/// A marker that names an index, for the quantifiers over the entries of
/// a polynomial.
pub open spec fn at(i: int) -> bool {
    true
}

/// The start of a block of the layer with stride `len`.
spec fn is_block_start(start: int, len: int) -> bool {
    0 <= start && start == block_start(start, len)
}

proof fn lemma_block_step(start: int, len: int)
    requires
        is_layer_len(len),
        is_block_start(start, len),
        start < 256,
    ensures
        start + 2 * len <= 256,
        is_block_start(start + 2 * len, len),
        block_index(start + 2 * len, len) == block_index(start, len) + 1,
        0 <= block_index(start, len) < layer_blocks(len),
        1 <= layer_blocks(len) <= 128,
        is_block_start(0, len),
        block_index(0, len) == 0,
        128int / len == layer_blocks(len),
        256int / len == 2 * layer_blocks(len),
{
    lemma_block(0, len);
}

/// An index of the block that starts at `start` has the number and the
/// start of that block.
proof fn lemma_same_block(start: int, j: int, len: int)
    requires
        is_layer_len(len),
        is_block_start(start, len),
        start <= j < start + 2 * len,
    ensures
        block_index(j, len) == block_index(start, len),
        block_start(j, len) == start,
{
    if len == 128 {
        assert(start % 256 == 0);
        assert(j / 256 == start / 256 && j % 256 == j - start);
    } else if len == 64 {
        assert(start % 128 == 0);
        assert(j / 128 == start / 128 && j % 128 == j - start);
    } else if len == 32 {
        assert(start % 64 == 0);
        assert(j / 64 == start / 64 && j % 64 == j - start);
    } else if len == 16 {
        assert(start % 32 == 0);
        assert(j / 32 == start / 32 && j % 32 == j - start);
    } else if len == 8 {
        assert(start % 16 == 0);
        assert(j / 16 == start / 16 && j % 16 == j - start);
    } else if len == 4 {
        assert(start % 8 == 0);
        assert(j / 8 == start / 8 && j % 8 == j - start);
    } else if len == 2 {
        assert(start % 4 == 0);
        assert(j / 4 == start / 4 && j % 4 == j - start);
    } else if len == 1 {
        assert(start % 2 == 0);
        assert(j / 2 == start / 2 && j % 2 == j - start);
    }
}

proof fn lemma_ntt_layer_pair(a: Seq<int>, len: int, start: int, j: int)
    requires
        is_layer_len(len),
        is_block_start(start, len),
        start + 2 * len <= 256,
        start <= j < start + len,
    ensures
        ntt_layer(a, len)[j] == canon(
            a[j] + zeta(layer_blocks(len) + block_index(start, len)) * a[j + len],
        ),
        ntt_layer(a, len)[j + len] == canon(
            a[j] - zeta(layer_blocks(len) + block_index(start, len)) * a[j + len],
        ),
        intt_layer(a, len)[j] == canon(a[j] + a[j + len]),
        intt_layer(a, len)[j + len] == canon(
            (a[j] - a[j + len]) * (-zeta(
                2 * layer_blocks(len) - 1 - block_index(start, len),
            )),
        ),
{
    lemma_block(j, len);
    lemma_block(j + len, len);
    lemma_same_block(start, j, len);
    lemma_same_block(start, j + len, len);
    let k = layer_blocks(len) + block_index(start, len);
    let ki = 2 * layer_blocks(len) - 1 - block_index(start, len);
    assert(128int / len + j / (2 * len) == k);
    assert(128int / len + (j + len) / (2 * len) == k);
    assert(256int / len - 1 - j / (2 * len) == ki);
    assert(256int / len - 1 - (j + len) / (2 * len) == ki);
    assert(j % (2 * len) < len);
    assert((j + len) % (2 * len) >= len);
}

/// Entry `i` of `a` holds entry `i` of the forward layer of `a0`.
spec fn forward_done(a0: Seq<i32>, a: Seq<i32>, len: int, i: int, b: int) -> bool {
    &&& -(b + q()) < a[i] < b + q()
    &&& canon(a[i] as int) == ntt_layer(residues(a0), len)[i]
}

/// Entry `i` of `a` holds entry `i` of the inverse layer of `a0`.
spec fn inverse_done(a0: Seq<i32>, a: Seq<i32>, len: int, i: int, b: int) -> bool {
    &&& -(2 * b) < a[i] < 2 * b
    &&& canon(a[i] as int) == intt_layer(residues(a0), len)[i]
}

/// The state of entry `i` while a forward layer runs: the entries below
/// `j`, and those from `top` to below `j + len`, are done; the others are
/// untouched.
spec fn forward_state(
    a0: Seq<i32>,
    a: Seq<i32>,
    len: int,
    b: int,
    j: int,
    top: int,
    i: int,
) -> bool {
    if i < j || (top <= i < j + len) {
        forward_done(a0, a, len, i, b)
    } else {
        a[i] == a0[i]
    }
}

/// The state of entry `i` while an inverse layer runs.
spec fn inverse_state(
    a0: Seq<i32>,
    a: Seq<i32>,
    len: int,
    b: int,
    j: int,
    top: int,
    i: int,
) -> bool {
    if i < j || (top <= i < j + len) {
        inverse_done(a0, a, len, i, b)
    } else {
        a[i] == a0[i]
    }
}

fn ntt_layer_exec(a: &mut [i32; N], len: usize, Ghost(b): Ghost<int>)
    requires
        is_layer_len(len as int),
        0 < b <= 8 * q(),
        bounded(old(a)@, b),
    ensures
        bounded(final(a)@, b + q()),
        residues(final(a)@) == ntt_layer(residues(old(a)@), len as int),
{
    let ghost a0 = a@;
    proof {
        lemma_block_step(0, len as int);
    }
    let mut k: usize = 128 / len;
    let mut start: usize = 0;
    while start < N
        invariant
            is_layer_len(len as int),
            0 < b <= 8 * q(),
            bounded(a0, b),
            a0.len() == 256,
            start <= 256,
            is_block_start(start as int, len as int),
            k == layer_blocks(len as int) + block_index(start as int, len as int),
            forall|i: int|
                0 <= i < 256 && #[trigger] at(i) ==> forward_state(
                    a0,
                    a@,
                    len as int,
                    b,
                    start as int,
                    start + len,
                    i,
                ),
        decreases 256 - start,
    {
        proof {
            lemma_block_step(start as int, len as int);
            lemma_zetas_bound(k as int);
        }
        let zeta: i64 = ZETAS[k] as i64;
        let mut j: usize = start;
        while j < start + len
            invariant
                is_layer_len(len as int),
                0 < b <= 8 * q(),
                bounded(a0, b),
                a0.len() == 256,
                start + 2 * len <= 256,
                is_block_start(start as int, len as int),
                k == layer_blocks(len as int) + block_index(start as int, len as int),
                0 <= k < 256,
                start <= j <= start + len,
                zeta == ZETAS[k as int],
                -4190208 < zeta < 4190208,
                forall|i: int|
                    0 <= i < 256 && #[trigger] at(i) ==> forward_state(
                        a0,
                        a@,
                        len as int,
                        b,
                        j as int,
                        start + len,
                        i,
                    ),
            decreases start + len - j,
        {
            assert(at(j as int) && at(j + len));
            let lo: i32 = a[j];
            let hi: i32 = a[j + len];
            assert(-4190208 * (8 * q()) < zeta * hi < 4190208 * (8 * q())) by (nonlinear_arith)
                requires
                    -4190208 < zeta < 4190208,
                    -(8 * q()) < hi < 8 * q(),
            ;
            let t: i32 = montgomery_reduce(zeta * (hi as i64));
            proof {
                lemma_butterfly(lo as int, hi as int, t as int, zeta as int);
                lemma_ntt_layer_pair(residues(a0), len as int, start as int, j as int);
            }
            a[j + len] = lo - t;
            a[j] = lo + t;
            j += 1;
        }
        start = start + 2 * len;
        k += 1;
    }
    assert forall|i: int| 0 <= i < 256 implies -(b + q()) < #[trigger] a@[i] < b + q() by {
        assert(at(i));
    }
    assert forall|i: int| 0 <= i < 256 implies #[trigger] residues(a@)[i] == ntt_layer(
        residues(a0),
        len as int,
    )[i] by {
        assert(at(i));
    }
    assert(residues(a@) =~= ntt_layer(residues(a0), len as int));
}

fn intt_layer_exec(a: &mut [i32; N], len: usize, Ghost(b): Ghost<int>)
    requires
        is_layer_len(len as int),
        q() <= b <= 128 * q(),
        bounded(old(a)@, b),
    ensures
        bounded(final(a)@, 2 * b),
        residues(final(a)@) == intt_layer(residues(old(a)@), len as int),
{
    let ghost a0 = a@;
    proof {
        lemma_block_step(0, len as int);
    }
    let mut k: usize = 256 / len;
    let mut start: usize = 0;
    while start < N
        invariant
            is_layer_len(len as int),
            q() <= b <= 128 * q(),
            bounded(a0, b),
            a0.len() == 256,
            start <= 256,
            is_block_start(start as int, len as int),
            k == 2 * layer_blocks(len as int) - block_index(start as int, len as int),
            forall|i: int|
                0 <= i < 256 && #[trigger] at(i) ==> inverse_state(
                    a0,
                    a@,
                    len as int,
                    b,
                    start as int,
                    start + len,
                    i,
                ),
        decreases 256 - start,
    {
        proof {
            lemma_block_step(start as int, len as int);
        }
        k -= 1;
        proof {
            lemma_zetas_bound(k as int);
        }
        let zeta: i64 = -(ZETAS[k] as i64);
        let mut j: usize = start;
        while j < start + len
            invariant
                is_layer_len(len as int),
                q() <= b <= 128 * q(),
                bounded(a0, b),
                a0.len() == 256,
                start + 2 * len <= 256,
                is_block_start(start as int, len as int),
                k == 2 * layer_blocks(len as int) - 1 - block_index(start as int, len as int),
                0 <= k < 256,
                start <= j <= start + len,
                zeta == -ZETAS[k as int],
                -4190208 < zeta < 4190208,
                forall|i: int|
                    0 <= i < 256 && #[trigger] at(i) ==> inverse_state(
                        a0,
                        a@,
                        len as int,
                        b,
                        j as int,
                        start + len,
                        i,
                    ),
            decreases start + len - j,
        {
            assert(at(j as int) && at(j + len));
            let lo: i32 = a[j];
            let hi: i32 = a[j + len];
            let d: i32 = lo - hi;
            assert(-4190208 * (256 * q()) < zeta * d < 4190208 * (256 * q())) by (nonlinear_arith)
                requires
                    -4190208 < zeta < 4190208,
                    -(256 * q()) < d < 256 * q(),
            ;
            let t: i32 = montgomery_reduce(zeta * (d as i64));
            proof {
                lemma_inverse_butterfly(lo as int, hi as int, t as int, ZETAS[k as int] as int);
                lemma_ntt_layer_pair(residues(a0), len as int, start as int, j as int);
            }
            a[j] = lo + hi;
            a[j + len] = t;
            j += 1;
        }
        start = start + 2 * len;
    }
    assert forall|i: int| 0 <= i < 256 implies -(2 * b) < #[trigger] a@[i] < 2 * b by {
        assert(at(i));
    }
    assert forall|i: int| 0 <= i < 256 implies #[trigger] residues(a@)[i] == intt_layer(
        residues(a0),
        len as int,
    )[i] by {
        assert(at(i));
    }
    assert(residues(a@) =~= intt_layer(residues(a0), len as int));
}

/// The forward transform, in place of a copy: for coefficients smaller than
/// `q` in absolute value the result is smaller than `9 q` and its residues
/// are the transform of the residues of `a`.
pub fn ntt(a: &[i32; N]) -> (r: [i32; N])
    requires
        bounded(a@, q()),
    ensures
        bounded(r@, 9 * q()),
        residues(r@) == ntt_spec(residues(a@)),
{
    let mut r = *a;
    proof {
        reveal(ntt_spec);
    }
    ntt_layer_exec(&mut r, 128, Ghost(q()));
    ntt_layer_exec(&mut r, 64, Ghost(2 * q()));
    ntt_layer_exec(&mut r, 32, Ghost(3 * q()));
    ntt_layer_exec(&mut r, 16, Ghost(4 * q()));
    ntt_layer_exec(&mut r, 8, Ghost(5 * q()));
    ntt_layer_exec(&mut r, 4, Ghost(6 * q()));
    ntt_layer_exec(&mut r, 2, Ghost(7 * q()));
    ntt_layer_exec(&mut r, 1, Ghost(8 * q()));
    r
}

/// The inverse transform, times `2^32`: for coefficients smaller than `q`
/// in absolute value the result is again smaller than `q`, and its residues
/// are `2^32` times the inverse transform of the residues of `a`.
pub fn invntt_tomont(a: &[i32; N]) -> (r: [i32; N])
    requires
        bounded(a@, q()),
    ensures
        bounded(r@, q()),
        residues(r@) == scale(mont_r(), intt_spec(residues(a@))),
{
    let mut r = *a;
    proof {
        reveal(intt_layers);
    }
    intt_layer_exec(&mut r, 1, Ghost(q()));
    intt_layer_exec(&mut r, 2, Ghost(2 * q()));
    intt_layer_exec(&mut r, 4, Ghost(4 * q()));
    intt_layer_exec(&mut r, 8, Ghost(8 * q()));
    intt_layer_exec(&mut r, 16, Ghost(16 * q()));
    intt_layer_exec(&mut r, 32, Ghost(32 * q()));
    intt_layer_exec(&mut r, 64, Ghost(64 * q()));
    intt_layer_exec(&mut r, 128, Ghost(128 * q()));
    let ghost layers = r@;
    assert(residues(layers) == intt_layers(residues(a@)));
    let mut j: usize = 0;
    while j < N
        invariant
            j <= 256,
            bounded(layers, 256 * q()),
            forall|i: int|
                0 <= i < j ==> -q() < #[trigger] r@[i] < q() && canon(r@[i] as int) == canon(
                    mont_r() * canon(inv256() * canon(layers[i] as int)),
                ),
            forall|i: int| j <= i < 256 ==> r@[i] == layers[i],
        decreases 256 - j,
    {
        let x: i32 = r[j];
        assert(-0x8000_0000 * q() < 41978 * x < 0x8000_0000 * q());
        let t: i32 = montgomery_reduce(41978i64 * (x as i64));
        proof {
            lemma_final_scaling(x as int, t as int);
        }
        r[j] = t;
        j += 1;
    }
    assert(residues(r@) =~= scale(mont_r(), intt_spec(residues(a@))));
    r
}



/// The combination `c * a + d * b` of two sequences of 256 residues.
pub open spec fn lin(c: int, a: Seq<int>, d: int, b: Seq<int>) -> Seq<int> {
    Seq::new(256, |i: int| canon(c * a[i] + d * b[i]))
}

proof fn lemma_canon_axpy(x: int, z: int, y: int)
    ensures
        canon(canon(x) + z * canon(y)) == canon(x + z * y),
        canon(canon(x) - z * canon(y)) == canon(x - z * y),
        canon((canon(x) - canon(y)) * z) == canon((x - y) * z),
        canon(canon(x) + canon(y)) == canon(x + y),
{
    lemma_canon_mul(z, y);
    lemma_canon_add(canon(x), z * canon(y));
    lemma_canon_add(x, z * y);
    lemma_canon_sub(canon(x), z * canon(y));
    lemma_canon_sub(x, z * y);
    lemma_canon_sub(x, y);
    lemma_canon_mul(canon(x) - canon(y), z);
    lemma_canon_mul(x - y, z);
    lemma_canon_add(x, y);
}

proof fn lemma_canon_lin(c: int, u: int, d: int, v: int)
    ensures
        canon(c * canon(u) + d * canon(v)) == canon(c * u + d * v),
{
    lemma_canon_mul(c, u);
    lemma_canon_mul(d, v);
    lemma_canon_add(c * canon(u), d * canon(v));
    lemma_canon_add(c * u, d * v);
}

/// The two shapes of a combination of butterflies are the same number.
proof fn lemma_combine(c: int, x: int, u: int, d: int, y: int, v: int, z: int)
    ensures
        (c * x + d * y) + z * (c * u + d * v) == c * (x + z * u) + d * (y + z * v),
        (c * x + d * y) - z * (c * u + d * v) == c * (x - z * u) + d * (y - z * v),
        ((c * x + d * y) - (c * u + d * v)) * z == c * ((x - u) * z) + d * ((y - v) * z),
        (c * x + d * y) + (c * u + d * v) == c * (x + u) + d * (y + v),
{
    assert(z * (c * u + d * v) == z * (c * u) + z * (d * v)) by (nonlinear_arith);
    assert(z * (c * u) == c * (z * u)) by (nonlinear_arith);
    assert(z * (d * v) == d * (z * v)) by (nonlinear_arith);
    assert(c * (x + z * u) == c * x + c * (z * u)) by (nonlinear_arith);
    assert(d * (y + z * v) == d * y + d * (z * v)) by (nonlinear_arith);
    assert(c * (x - z * u) == c * x - c * (z * u)) by (nonlinear_arith);
    assert(d * (y - z * v) == d * y - d * (z * v)) by (nonlinear_arith);
    assert(c * (x + u) == c * x + c * u) by (nonlinear_arith);
    assert(d * (y + v) == d * y + d * v) by (nonlinear_arith);
    let p = c * x + d * y;
    let r = c * u + d * v;
    assert((p - r) * z == p * z - r * z) by (nonlinear_arith);
    assert(p * z == (c * x) * z + (d * y) * z) by (nonlinear_arith)
        requires
            p == c * x + d * y,
    ;
    assert(r * z == (c * u) * z + (d * v) * z) by (nonlinear_arith)
        requires
            r == c * u + d * v,
    ;
    assert((c * x) * z == c * (x * z)) by (nonlinear_arith);
    assert((d * y) * z == d * (y * z)) by (nonlinear_arith);
    assert((c * u) * z == c * (u * z)) by (nonlinear_arith);
    assert((d * v) * z == d * (v * z)) by (nonlinear_arith);
    assert((x - u) * z == x * z - u * z) by (nonlinear_arith);
    assert((y - v) * z == y * z - v * z) by (nonlinear_arith);
    assert(c * ((x - u) * z) == c * (x * z) - c * (u * z)) by (nonlinear_arith)
        requires
            (x - u) * z == x * z - u * z,
    ;
    assert(d * ((y - v) * z) == d * (y * z) - d * (v * z)) by (nonlinear_arith)
        requires
            (y - v) * z == y * z - v * z,
    ;
}

/// A forward layer goes through combinations.
pub proof fn lemma_ntt_layer_linear(c: int, a: Seq<int>, d: int, b: Seq<int>, len: int)
    requires
        is_layer_len(len),
        a.len() == 256,
        b.len() == 256,
    ensures
        ntt_layer(lin(c, a, d, b), len) == lin(c, ntt_layer(a, len), d, ntt_layer(b, len)),
{
    let l = lin(c, a, d, b);
    assert forall|i: int| 0 <= i < 256 implies #[trigger] ntt_layer(l, len)[i] == lin(
        c,
        ntt_layer(a, len),
        d,
        ntt_layer(b, len),
    )[i] by {
        lemma_block(i, len);
        let z = zeta(128int / len + i / (2 * len));
        if i % (2 * len) < len {
            let j = i + len;
            lemma_canon_axpy(c * a[i] + d * b[i], z, c * a[j] + d * b[j]);
            lemma_canon_lin(c, a[i] + z * a[j], d, b[i] + z * b[j]);
            lemma_combine(c, a[i], a[j], d, b[i], b[j], z);
        } else {
            let j = i - len;
            lemma_canon_axpy(c * a[j] + d * b[j], z, c * a[i] + d * b[i]);
            lemma_canon_lin(c, a[j] - z * a[i], d, b[j] - z * b[i]);
            lemma_combine(c, a[j], a[i], d, b[j], b[i], z);
        }
    }
    assert(ntt_layer(l, len) =~= lin(c, ntt_layer(a, len), d, ntt_layer(b, len)));
}

/// An inverse layer goes through combinations.
pub proof fn lemma_intt_layer_linear(c: int, a: Seq<int>, d: int, b: Seq<int>, len: int)
    requires
        is_layer_len(len),
        a.len() == 256,
        b.len() == 256,
    ensures
        intt_layer(lin(c, a, d, b), len) == lin(c, intt_layer(a, len), d, intt_layer(b, len)),
{
    let l = lin(c, a, d, b);
    assert forall|i: int| 0 <= i < 256 implies #[trigger] intt_layer(l, len)[i] == lin(
        c,
        intt_layer(a, len),
        d,
        intt_layer(b, len),
    )[i] by {
        lemma_block(i, len);
        let z = -zeta(256int / len - 1 - i / (2 * len));
        if i % (2 * len) < len {
            let j = i + len;
            lemma_canon_axpy(c * a[i] + d * b[i], 1, c * a[j] + d * b[j]);
            lemma_canon_lin(c, a[i] + a[j], d, b[i] + b[j]);
            lemma_combine(c, a[i], a[j], d, b[i], b[j], z);
        } else {
            let j = i - len;
            lemma_canon_axpy(c * a[j] + d * b[j], z, c * a[i] + d * b[i]);
            lemma_canon_lin(c, (a[j] - a[i]) * z, d, (b[j] - b[i]) * z);
            lemma_combine(c, a[j], a[i], d, b[j], b[i], z);
        }
    }
    assert(intt_layer(l, len) =~= lin(c, intt_layer(a, len), d, intt_layer(b, len)));
}

/// The forward transform goes through combinations.
pub proof fn lemma_ntt_linear(c: int, a: Seq<int>, d: int, b: Seq<int>)
    requires
        a.len() == 256,
        b.len() == 256,
    ensures
        ntt_spec(lin(c, a, d, b)) == lin(c, ntt_spec(a), d, ntt_spec(b)),
{
    reveal(ntt_spec);
    let a1 = ntt_layer(a, 128);
    let b1 = ntt_layer(b, 128);
    lemma_ntt_layer_linear(c, a, d, b, 128);
    let a2 = ntt_layer(a1, 64);
    let b2 = ntt_layer(b1, 64);
    lemma_ntt_layer_linear(c, a1, d, b1, 64);
    let a3 = ntt_layer(a2, 32);
    let b3 = ntt_layer(b2, 32);
    lemma_ntt_layer_linear(c, a2, d, b2, 32);
    let a4 = ntt_layer(a3, 16);
    let b4 = ntt_layer(b3, 16);
    lemma_ntt_layer_linear(c, a3, d, b3, 16);
    let a5 = ntt_layer(a4, 8);
    let b5 = ntt_layer(b4, 8);
    lemma_ntt_layer_linear(c, a4, d, b4, 8);
    let a6 = ntt_layer(a5, 4);
    let b6 = ntt_layer(b5, 4);
    lemma_ntt_layer_linear(c, a5, d, b5, 4);
    let a7 = ntt_layer(a6, 2);
    let b7 = ntt_layer(b6, 2);
    lemma_ntt_layer_linear(c, a6, d, b6, 2);
    lemma_ntt_layer_linear(c, a7, d, b7, 1);
}

/// The inverse layers go through combinations.
pub proof fn lemma_intt_layers_linear(c: int, a: Seq<int>, d: int, b: Seq<int>)
    requires
        a.len() == 256,
        b.len() == 256,
    ensures
        intt_layers(lin(c, a, d, b)) == lin(c, intt_layers(a), d, intt_layers(b)),
{
    reveal(intt_layers);
    let a1 = intt_layer(a, 1);
    let b1 = intt_layer(b, 1);
    lemma_intt_layer_linear(c, a, d, b, 1);
    let a2 = intt_layer(a1, 2);
    let b2 = intt_layer(b1, 2);
    lemma_intt_layer_linear(c, a1, d, b1, 2);
    let a3 = intt_layer(a2, 4);
    let b3 = intt_layer(b2, 4);
    lemma_intt_layer_linear(c, a2, d, b2, 4);
    let a4 = intt_layer(a3, 8);
    let b4 = intt_layer(b3, 8);
    lemma_intt_layer_linear(c, a3, d, b3, 8);
    let a5 = intt_layer(a4, 16);
    let b5 = intt_layer(b4, 16);
    lemma_intt_layer_linear(c, a4, d, b4, 16);
    let a6 = intt_layer(a5, 32);
    let b6 = intt_layer(b5, 32);
    lemma_intt_layer_linear(c, a5, d, b5, 32);
    let a7 = intt_layer(a6, 64);
    let b7 = intt_layer(b6, 64);
    lemma_intt_layer_linear(c, a6, d, b6, 64);
    lemma_intt_layer_linear(c, a7, d, b7, 128);
}

/// The inverse transform goes through combinations.
pub proof fn lemma_intt_linear(c: int, a: Seq<int>, d: int, b: Seq<int>)
    requires
        a.len() == 256,
        b.len() == 256,
    ensures
        intt_spec(lin(c, a, d, b)) == lin(c, intt_spec(a), d, intt_spec(b)),
{
    lemma_intt_layers_linear(c, a, d, b);
    let x = intt_layers(a);
    let y = intt_layers(b);
    assert(x.len() == 256 && y.len() == 256) by {
        reveal(intt_layers);
    }
    assert forall|i: int| 0 <= i < 256 implies #[trigger] intt_spec(lin(c, a, d, b))[i] == lin(
        c,
        intt_spec(a),
        d,
        intt_spec(b),
    )[i] by {
        let xi = x[i];
        let yi = y[i];
        let w = inv256();
        lemma_canon_mul(w, c * xi + d * yi);
        lemma_canon_lin(c, w * xi, d, w * yi);
        assert(w * (c * xi + d * yi) == c * (w * xi) + d * (w * yi)) by (nonlinear_arith);
    }
    assert(intt_spec(lin(c, a, d, b)) =~= lin(c, intt_spec(a), d, intt_spec(b)));
}

/// The inverse transform of a multiple is the multiple of the inverse
/// transform.
pub proof fn lemma_intt_scale(c: int, a: Seq<int>)
    requires
        a.len() == 256,
    ensures
        intt_spec(scale(c, a)) == scale(c, intt_spec(a)),
{
    lemma_intt_linear(c, a, 0, a);
    assert(scale(c, a) =~= lin(c, a, 0, a));
    assert(scale(c, intt_spec(a)) =~= lin(c, intt_spec(a), 0, intt_spec(a)));
}

/// Multiplying by `2^32` undoes dividing by `2^32`.
pub proof fn lemma_mont_cancel(a: Seq<int>)
    requires
        a.len() == 256,
        forall|i: int| 0 <= i < 256 ==> 0 <= #[trigger] a[i] < q(),
    ensures
        scale(mont_r(), scale(r_inv(), a)) == a,
{
    assert forall|i: int| 0 <= i < 256 implies #[trigger] scale(mont_r(), scale(r_inv(), a))[i]
        == a[i] by {
        lemma_canon_mul(mont_r(), r_inv() * a[i]);
        // mont_r * r_inv == 1 + 4136447 * q
        assert(mont_r() * (r_inv() * a[i]) == a[i] + (4136447 * a[i]) * q()) by (nonlinear_arith);
        vstd::arithmetic::div_mod::lemma_mod_multiples_vanish(4136447 * a[i], a[i], q());
    }
    assert(scale(mont_r(), scale(r_inv(), a)) =~= a);
}



proof fn lemma_zeta_table_part_0(k: int)
    requires
        1 <= k < 32,
    ensures
        zeta(k) == zeta_table(k),
{
}

proof fn lemma_zeta_table_part_1(k: int)
    requires
        32 <= k < 64,
    ensures
        zeta(k) == zeta_table(k),
{
}

proof fn lemma_zeta_table_part_2(k: int)
    requires
        64 <= k < 96,
    ensures
        zeta(k) == zeta_table(k),
{
}

proof fn lemma_zeta_table_part_3(k: int)
    requires
        96 <= k < 128,
    ensures
        zeta(k) == zeta_table(k),
{
}

proof fn lemma_zeta_table_part_4(k: int)
    requires
        128 <= k < 160,
    ensures
        zeta(k) == zeta_table(k),
{
}

proof fn lemma_zeta_table_part_5(k: int)
    requires
        160 <= k < 192,
    ensures
        zeta(k) == zeta_table(k),
{
}

proof fn lemma_zeta_table_part_6(k: int)
    requires
        192 <= k < 224,
    ensures
        zeta(k) == zeta_table(k),
{
}

proof fn lemma_zeta_table_part_7(k: int)
    requires
        224 <= k < 256,
    ensures
        zeta(k) == zeta_table(k),
{
}

/// The root power `k` is entry `k` of the table of residues.
pub proof fn lemma_zeta_table(k: int)
    requires
        1 <= k < 256,
    ensures
        zeta(k) == zeta_table(k),
{
    if k < 32 {
        lemma_zeta_table_part_0(k);
    } else if k < 64 {
        lemma_zeta_table_part_1(k);
    } else if k < 96 {
        lemma_zeta_table_part_2(k);
    } else if k < 128 {
        lemma_zeta_table_part_3(k);
    } else if k < 160 {
        lemma_zeta_table_part_4(k);
    } else if k < 192 {
        lemma_zeta_table_part_5(k);
    } else if k < 224 {
        lemma_zeta_table_part_6(k);
    } else if k < 256 {
        lemma_zeta_table_part_7(k);
    }
}

/// A root power times the root power at the mirrored place of its layer
/// is -1.
pub proof fn lemma_zeta_pair(k: int)
    requires
        1 <= k < 256,
    ensures
        canon(zeta(k) * zeta(mirror(k))) == q() - 1,
{
    lemma_table_pair(k);
    lemma_zeta_table(k);
    lemma_zeta_table(mirror(k));
}

/// A multiple of a multiple is a multiple.
pub proof fn lemma_scale_scale(c: int, d: int, a: Seq<int>)
    requires
        a.len() == 256,
    ensures
        scale(c, scale(d, a)) == scale(c * d, a),
{
    assert forall|i: int| 0 <= i < 256 implies #[trigger] scale(c, scale(d, a))[i] == scale(
        c * d,
        a,
    )[i] by {
        lemma_canon_mul(c, d * a[i]);
        assert(c * (d * a[i]) == (c * d) * a[i]) by (nonlinear_arith);
    }
    assert(scale(c, scale(d, a)) =~= scale(c * d, a));
}

/// A forward layer undoes the inverse layer of the same stride, up to a
/// factor of two.
pub proof fn lemma_layer_undo(a: Seq<int>, len: int)
    requires
        is_layer_len(len),
        a.len() == 256,
    ensures
        ntt_layer(intt_layer(a, len), len) == scale(2, a),
{
    let m = intt_layer(a, len);
    assert forall|i: int| 0 <= i < 256 implies #[trigger] ntt_layer(m, len)[i] == scale(2, a)[i] by {
        lemma_block(i, len);
        let blk = block_index(i, len);
        let kf = layer_blocks(len) + blk;
        let ki = 2 * layer_blocks(len) - 1 - blk;
        assert(0 <= blk < layer_blocks(len));
        assert(mirror(kf) == ki);
        lemma_zeta_pair(kf);
        let zf = zeta(kf);
        let zi = zeta(ki);
        if i % (2 * len) < len {
            let j = i + len;
            lemma_block(j, len);
            assert(block_index(j, len) == blk);
            assert(j % (2 * len) >= len);
            lemma_undo_pair(a[i], a[j], zf, zi);
        } else {
            let j = i - len;
            lemma_block(j, len);
            assert(block_index(j, len) == blk);
            assert(j % (2 * len) < len);
            lemma_undo_pair(a[j], a[i], zf, zi);
        }
    }
    assert(ntt_layer(m, len) =~= scale(2, a));
}

/// The butterfly of a forward layer undoes that of the inverse layer,
/// where the root powers multiply to -1.
proof fn lemma_undo_pair(x: int, y: int, zf: int, zi: int)
    requires
        canon(zf * zi) == q() - 1,
    ensures
        canon(canon(x + y) + zf * canon((x - y) * (-zi))) == canon(2 * x),
        canon(canon(x + y) - zf * canon((x - y) * (-zi))) == canon(2 * y),
{
    let d = x - y;
    let w = zf * zi;
    lemma_canon_axpy(x + y, zf, d * (-zi));
    // zf * (d * -zi) == -(d * w)
    assert(zf * (d * (-zi)) == -(d * w)) by (nonlinear_arith)
        requires
            w == zf * zi,
    ;
    lemma_canon_mul(d, w);
    // d * canon(w) == d * q - d
    assert(d * (q() - 1) == d * q() - d) by (nonlinear_arith);
    assert(canon(d * w) == canon(-d)) by {
        vstd::arithmetic::div_mod::lemma_mod_multiples_vanish(d, -d, q());
    }
    lemma_canon_sub(x + y, d * w);
    lemma_canon_sub(x + y, -d);
    lemma_canon_add(x + y, d * w);
    lemma_canon_add(x + y, -d);
}

/// A forward layer applied to a multiple of an inverse layer of the same
/// stride gives twice the multiple.
proof fn lemma_peel(c: int, a: Seq<int>, len: int)
    requires
        is_layer_len(len),
        a.len() == 256,
    ensures
        ntt_layer(scale(c, intt_layer(a, len)), len) == scale(2 * c, a),
{
    let m = intt_layer(a, len);
    lemma_ntt_layer_linear(c, m, 0, m, len);
    assert(scale(c, m) =~= lin(c, m, 0, m));
    let l = ntt_layer(m, len);
    assert(scale(c, l) =~= lin(c, l, 0, l));
    lemma_layer_undo(a, len);
    lemma_scale_scale(c, 2, a);
    assert(c * 2 == 2 * c);
}

/// The forward transform undoes the inverse layers, up to a factor of
/// 256.
pub proof fn lemma_ntt_intt_layers(a: Seq<int>)
    requires
        a.len() == 256,
    ensures
        ntt_spec(intt_layers(a)) == scale(256, a),
{
    reveal(ntt_spec);
    reveal(intt_layers);
    let x1 = intt_layer(a, 1);
    let x2 = intt_layer(x1, 2);
    let x3 = intt_layer(x2, 4);
    let x4 = intt_layer(x3, 8);
    let x5 = intt_layer(x4, 16);
    let x6 = intt_layer(x5, 32);
    let x7 = intt_layer(x6, 64);
    lemma_layer_undo(x7, 128);
    lemma_peel(2, x6, 64);
    lemma_peel(4, x5, 32);
    lemma_peel(8, x4, 16);
    lemma_peel(16, x3, 8);
    lemma_peel(32, x2, 4);
    lemma_peel(64, x1, 2);
    lemma_peel(128, a, 1);
}

/// The forward transform undoes the inverse transform.
pub proof fn lemma_ntt_intt(a: Seq<int>)
    requires
        a.len() == 256,
    ensures
        ntt_spec(intt_spec(a)) == scale(1, a),
{
    let x = intt_layers(a);
    assert(x.len() == 256) by {
        reveal(intt_layers);
    }
    assert(intt_spec(a) =~= scale(inv256(), x));
    lemma_ntt_linear(inv256(), x, 0, x);
    assert(scale(inv256(), x) =~= lin(inv256(), x, 0, x));
    let y = ntt_spec(x);
    assert(y.len() == 256) by {
        reveal(ntt_spec);
    }
    assert(scale(inv256(), y) =~= lin(inv256(), y, 0, y));
    lemma_ntt_intt_layers(a);
    lemma_scale_scale(inv256(), 256, a);
    // inv256 * 256 == 1 + 255 * q
    assert forall|i: int| 0 <= i < 256 implies #[trigger] scale(inv256() * 256, a)[i] == scale(
        1,
        a,
    )[i] by {
        assert((inv256() * 256) * a[i] == a[i] + (255 * a[i]) * q()) by (nonlinear_arith)
            requires
                inv256() * 256 == 1 + 255 * q(),
        ;
        vstd::arithmetic::div_mod::lemma_mod_multiples_vanish(255 * a[i], a[i], q());
    }
    assert(scale(inv256() * 256, a) =~= scale(1, a));
}



/// An inverse layer undoes the forward layer of the same stride, up to a
/// factor of two.
pub proof fn lemma_layer_redo(a: Seq<int>, len: int)
    requires
        is_layer_len(len),
        a.len() == 256,
    ensures
        intt_layer(ntt_layer(a, len), len) == scale(2, a),
{
    let m = ntt_layer(a, len);
    assert forall|i: int| 0 <= i < 256 implies #[trigger] intt_layer(m, len)[i] == scale(2, a)[i] by {
        lemma_block(i, len);
        let blk = block_index(i, len);
        let kf = layer_blocks(len) + blk;
        let ki = 2 * layer_blocks(len) - 1 - blk;
        assert(0 <= blk < layer_blocks(len));
        assert(mirror(kf) == ki);
        lemma_zeta_pair(kf);
        let zf = zeta(kf);
        let zi = zeta(ki);
        if i % (2 * len) < len {
            let j = i + len;
            lemma_block(j, len);
            assert(block_index(j, len) == blk);
            assert(j % (2 * len) >= len);
            lemma_redo_pair(a[i], a[j], zf, zi);
        } else {
            let j = i - len;
            lemma_block(j, len);
            assert(block_index(j, len) == blk);
            assert(j % (2 * len) < len);
            lemma_redo_pair(a[j], a[i], zf, zi);
        }
    }
    assert(intt_layer(m, len) =~= scale(2, a));
}

/// The butterfly of an inverse layer undoes that of the forward layer,
/// where the root powers multiply to -1.
proof fn lemma_redo_pair(x: int, y: int, zf: int, zi: int)
    requires
        canon(zf * zi) == q() - 1,
    ensures
        canon(canon(x + zf * y) + canon(x - zf * y)) == canon(2 * x),
        canon((canon(x + zf * y) - canon(x - zf * y)) * (-zi)) == canon(2 * y),
{
    let u = x + zf * y;
    let v = x - zf * y;
    let w = zf * zi;
    lemma_canon_axpy(u, -zi, v);
    assert(u + v == 2 * x);
    assert(u - v == 2 * (zf * y));
    assert((2 * (zf * y)) * (-zi) == -((2 * y) * w)) by (nonlinear_arith)
        requires
            w == zf * zi,
    ;
    lemma_canon_mul(2 * y, w);
    assert((2 * y) * (q() - 1) == (2 * y) * q() - 2 * y) by (nonlinear_arith);
    assert(canon((2 * y) * w) == canon(-(2 * y))) by {
        vstd::arithmetic::div_mod::lemma_mod_multiples_vanish(2 * y, -(2 * y), q());
    }
    lemma_canon_sub(0, (2 * y) * w);
    lemma_canon_sub(0, -(2 * y));
}

/// An inverse layer applied to a multiple of a forward layer of the same
/// stride gives twice the multiple.
proof fn lemma_unpeel(c: int, a: Seq<int>, len: int)
    requires
        is_layer_len(len),
        a.len() == 256,
    ensures
        intt_layer(scale(c, ntt_layer(a, len)), len) == scale(2 * c, a),
{
    let m = ntt_layer(a, len);
    lemma_intt_layer_linear(c, m, 0, m, len);
    assert(scale(c, m) =~= lin(c, m, 0, m));
    let l = intt_layer(m, len);
    assert(scale(c, l) =~= lin(c, l, 0, l));
    lemma_layer_redo(a, len);
    lemma_scale_scale(c, 2, a);
    assert(c * 2 == 2 * c);
}

/// The inverse layers undo the forward transform, up to a factor of 256.
pub proof fn lemma_intt_layers_ntt(a: Seq<int>)
    requires
        a.len() == 256,
    ensures
        intt_layers(ntt_spec(a)) == scale(256, a),
{
    reveal(ntt_spec);
    reveal(intt_layers);
    let y1 = ntt_layer(a, 128);
    let y2 = ntt_layer(y1, 64);
    let y3 = ntt_layer(y2, 32);
    let y4 = ntt_layer(y3, 16);
    let y5 = ntt_layer(y4, 8);
    let y6 = ntt_layer(y5, 4);
    let y7 = ntt_layer(y6, 2);
    lemma_layer_redo(y7, 1);
    lemma_unpeel(2, y6, 2);
    lemma_unpeel(4, y5, 4);
    lemma_unpeel(8, y4, 8);
    lemma_unpeel(16, y3, 16);
    lemma_unpeel(32, y2, 32);
    lemma_unpeel(64, y1, 64);
    lemma_unpeel(128, a, 128);
}

/// The inverse transform undoes the forward transform.
pub proof fn lemma_intt_ntt(a: Seq<int>)
    requires
        a.len() == 256,
    ensures
        intt_spec(ntt_spec(a)) == scale(1, a),
{
    lemma_intt_layers_ntt(a);
    assert forall|i: int| 0 <= i < 256 implies #[trigger] intt_spec(ntt_spec(a))[i] == scale(1, a)[i] by {
        lemma_canon_mul(inv256(), 256 * a[i]);
        assert(inv256() * (256 * a[i]) == a[i] + (255 * a[i]) * q());
        vstd::arithmetic::div_mod::lemma_mod_multiples_vanish(255 * a[i], a[i], q());
    }
    assert(intt_spec(ntt_spec(a)) =~= scale(1, a));
}

/// Every entry of `a` is a residue in `[0, q)`, and there are 256.
pub open spec fn is_canonical(a: Seq<int>) -> bool {
    a.len() == 256 && forall|i: int| 0 <= i < 256 ==> 0 <= #[trigger] a[i] < q()
}

/// The transforms give 256 residues in `[0, q)`.
pub proof fn lemma_transform_canonical(a: Seq<int>)
    ensures
        is_canonical(ntt_spec(a)),
        is_canonical(intt_spec(a)),
{
    reveal(ntt_spec);
}

/// A sequence of residues in `[0, q)` is once itself.
pub proof fn lemma_scale_one(a: Seq<int>)
    requires
        is_canonical(a),
    ensures
        scale(1, a) == a,
{
    assert(scale(1, a) =~= a);
}



/// The root power whose square the root power `k` is, up to the sign: the
/// root power of the block that the block of `k` is a half of.
pub open spec fn parent_root(k: int) -> int {
    if k == 1 {
        -1
    } else if k % 2 == 0 {
        zeta(k / 2)
    } else {
        -zeta(k / 2)
    }
}

/// The square of a root power is the root power of the block above, up to
/// the sign; the square of the first root power is -1.
pub proof fn lemma_zeta_square(k: int)
    requires
        1 <= k < 256,
    ensures
        canon(zeta(k) * zeta(k)) == canon(parent_root(k)),
{
    lemma_table_square(k);
    lemma_zeta_table(k);
    if k > 1 {
        lemma_zeta_table(k / 2);
    }
}

/// The root powers of the transform are the powers of the root of unity
/// 1753 in bit-reversed order: the root power `k` is 1753 to the power of
/// `k` with its eight bits reversed.
pub proof fn lemma_zeta_is_root_power(k: int)
    requires
        1 <= k < 256,
    ensures
        zeta(k) == root_power(bit_reversed(k) as nat),
{
    lemma_zeta_table(k);
    lemma_table_root(k);
}

} // verus!
