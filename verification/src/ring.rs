//! The coefficient field: residues modulo the prime `Q`, their canonical and
//! centered representatives, and the facts about congruences that the
//! arithmetic layers rest on.
use vstd::prelude::*;
use vstd::arithmetic::div_mod::*;
use vstd::arithmetic::mul::*;

verus! {

/// The modulus as a mathematical integer.
pub open spec fn q() -> int {
    8380417
}

/// The inverse of `2^32` modulo `q`.
pub open spec fn r_inv() -> int {
    8265825
}

/// The canonical representative of `x`, in `[0, q)`.
pub open spec fn canon(x: int) -> int {
    x % q()
}

/// The centered representative of `x`, in `[-(q-1)/2, (q-1)/2]`.
pub open spec fn centered(x: int) -> int {
    if canon(x) > (q() - 1) / 2 {
        canon(x) - q()
    } else {
        canon(x)
    }
}

/// The absolute value of an integer.
pub open spec fn abs(x: int) -> int {
    if x < 0 {
        -x
    } else {
        x
    }
}

/// The coefficients of a machine polynomial as mathematical integers.
pub open spec fn ints(a: Seq<i32>) -> Seq<int> {
    Seq::new(a.len(), |i: int| a[i] as int)
}

/// The canonical residues of the coefficients of a machine polynomial.
pub open spec fn residues(a: Seq<i32>) -> Seq<int> {
    Seq::new(a.len(), |i: int| canon(a[i] as int))
}

/// Every entry of `a` lies strictly between `-b` and `b`.
pub open spec fn bounded(a: Seq<i32>, b: int) -> bool {
    forall|i: int| 0 <= i < a.len() ==> -b < #[trigger] a[i] < b
}

/// Every entry of `a` lies in `[lo, hi]`.
pub open spec fn in_range(a: Seq<i32>, lo: int, hi: int) -> bool {
    forall|i: int| 0 <= i < a.len() ==> lo <= #[trigger] a[i] <= hi
}

/// Two integers with the same canonical representative differ by a multiple
/// of `q`, and conversely.
pub proof fn lemma_canon_eq_iff(x: int, y: int)
    ensures
        canon(x) == canon(y) <==> (x - y) % q() == 0,
{
    lemma_mod_equivalence(x, y, q());
}

pub proof fn lemma_canon_add(x: int, y: int)
    ensures
        canon(x + y) == canon(canon(x) + canon(y)),
        canon(x + y) == canon(canon(x) + y),
        canon(x + y) == canon(x + canon(y)),
{
    lemma_add_mod_noop(x, y, q());
    lemma_add_mod_noop(canon(x), y, q());
    lemma_add_mod_noop(x, canon(y), q());
}

pub proof fn lemma_canon_sub(x: int, y: int)
    ensures
        canon(x - y) == canon(canon(x) - canon(y)),
        canon(x - y) == canon(canon(x) - y),
        canon(x - y) == canon(x - canon(y)),
{
    lemma_sub_mod_noop(x, y, q());
    lemma_sub_mod_noop(canon(x), y, q());
    lemma_sub_mod_noop(x, canon(y), q());
}

pub proof fn lemma_canon_mul(x: int, y: int)
    ensures
        canon(x * y) == canon(canon(x) * canon(y)),
        canon(x * y) == canon(canon(x) * y),
        canon(x * y) == canon(x * canon(y)),
{
    lemma_mul_mod_noop_general(x, y, q());
}

/// A value in `[0, q)` is its own canonical representative.
pub proof fn lemma_canon_small(x: int)
    requires
        0 <= x < q(),
    ensures
        canon(x) == x,
{
}

/// What Montgomery reduction computes: if `r * 2^32` is congruent to `a`,
/// then `r` is congruent to `a * r_inv()`.
pub proof fn lemma_montgomery_residue(r: int, a: int)
    requires
        (r * 0x1_0000_0000 - a) % q() == 0,
    ensures
        canon(r) == canon(a * r_inv()),
{
    let d = r * 0x1_0000_0000 - a;
    let k = d / q();
    assert(d == k * q());
    // 2^32 * r_inv == 1 + 4236238847 * q
    assert(r * 0x1_0000_0000 * r_inv() == r + r * 4236238847 * q());
    assert(d * r_inv() == k * q() * r_inv()) by (nonlinear_arith)
        requires
            d == k * q(),
    ;
    assert(d * r_inv() == r * 0x1_0000_0000 * r_inv() - a * r_inv());
    assert(r - a * r_inv() == (k * r_inv() - r * 4236238847) * q()) by (nonlinear_arith)
        requires
            d * r_inv() == k * q() * r_inv(),
            d * r_inv() == r + r * 4236238847 * q() - a * r_inv(),
    ;
    lemma_mod_multiples_basic(k * r_inv() - r * 4236238847, q());
    lemma_canon_eq_iff(r, a * r_inv());
}



/// `x` and `y` are congruent modulo `q`.
pub open spec fn eqm(x: int, y: int) -> bool {
    canon(x) == canon(y)
}

/// A representative is congruent to what it stands for.
pub proof fn lemma_eqm_canon(x: int)
    ensures
        eqm(canon(x), x),
        eqm(centered(x), x),
        eqm(x, x),
{
    vstd::arithmetic::div_mod::lemma_mod_multiples_vanish(-1, canon(x), q());
}

/// Sums and differences of congruent numbers are congruent.
pub proof fn lemma_eqm_add(x: int, x2: int, y: int, y2: int)
    requires
        eqm(x, x2),
        eqm(y, y2),
    ensures
        eqm(x + y, x2 + y2),
        eqm(x - y, x2 - y2),
{
    lemma_canon_add(x, y);
    lemma_canon_add(x2, y2);
    lemma_canon_sub(x, y);
    lemma_canon_sub(x2, y2);
}

/// Products of congruent numbers are congruent.
pub proof fn lemma_eqm_mul(x: int, x2: int, y: int, y2: int)
    requires
        eqm(x, x2),
        eqm(y, y2),
    ensures
        eqm(x * y, x2 * y2),
{
    lemma_canon_mul(x, y);
    lemma_canon_mul(x2, y2);
}

} // verus!
