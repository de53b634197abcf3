//! Numbers as little-endian digit strings, and the regrouping of digits
//! from one base into another that tight bit packing amounts to: a group of
//! digits in one base and a group of digits in another base stand for the
//! same number.
use vstd::prelude::*;
use vstd::arithmetic::div_mod::{
    lemma_fundamental_div_mod,
    lemma_fundamental_div_mod_converse,
    lemma_multiply_divide_lt,
};
use vstd::arithmetic::mul::lemma_mul_is_commutative;
use vstd::arithmetic::power::{lemma_pow_increases, lemma_pow_positive, pow};

verus! {

/// The number that the digits `d`, lowest first, stand for in `base`.
pub open spec fn le_value(d: Seq<int>, base: int) -> int
    decreases d.len(),
{
    if d.len() == 0 {
        0
    } else {
        d[0] + base * le_value(d.skip(1), base)
    }
}

/// The `n` lowest digits of `v` in `base`, lowest first.
pub open spec fn le_digits(v: int, base: int, n: nat) -> Seq<int>
    decreases n,
{
    if n == 0 {
        Seq::empty()
    } else {
        seq![v % base] + le_digits(v / base, base, (n - 1) as nat)
    }
}

/// Every entry of `d` is a digit in `base`.
pub open spec fn all_digits(d: Seq<int>, base: int) -> bool {
    forall|i: int| 0 <= i < d.len() ==> 0 <= #[trigger] d[i] < base
}

/// The digits `d` in base `from`, taken in groups of `n_in`, each group
/// rewritten as `n_out` digits in base `to`. Digits that do not fill a last
/// group are dropped.
pub open spec fn regroup(d: Seq<int>, from: int, to: int, n_in: nat, n_out: nat) -> Seq<int>
    decreases d.len(),
{
    if n_in == 0 || d.len() < n_in {
        Seq::empty()
    } else {
        le_digits(le_value(d.take(n_in as int), from), to, n_out) + regroup(
            d.skip(n_in as int),
            from,
            to,
            n_in,
            n_out,
        )
    }
}

/// Bytes as digits in base 256.
pub open spec fn as_ints(b: Seq<u8>) -> Seq<int> {
    Seq::new(b.len(), |i: int| b[i] as int)
}

/// Digits in base 256 as bytes.
pub open spec fn as_bytes(d: Seq<int>) -> Seq<u8> {
    Seq::new(d.len(), |i: int| d[i] as u8)
}

pub proof fn lemma_le_digits_len(v: int, base: int, n: nat)
    ensures
        le_digits(v, base, n).len() == n,
    decreases n,
{
    if n > 0 {
        lemma_le_digits_len(v / base, base, (n - 1) as nat);
    }
}

/// The digits of a number are digits.
pub proof fn lemma_le_digits_range(v: int, base: int, n: nat)
    requires
        base > 0,
    ensures
        all_digits(le_digits(v, base, n), base),
    decreases n,
{
    if n > 0 {
        lemma_le_digits_range(v / base, base, (n - 1) as nat);
        lemma_le_digits_len(v / base, base, (n - 1) as nat);
        let rest = le_digits(v / base, base, (n - 1) as nat);
        let all = le_digits(v, base, n);
        assert forall|i: int| 0 <= i < all.len() implies 0 <= #[trigger] all[i] < base by {
            if i > 0 {
                assert(all[i] == rest[i - 1]);
            }
        }
    }
}

/// A string of `n` digits stands for a number below `base^n`.
pub proof fn lemma_le_value_bound(d: Seq<int>, base: int)
    requires
        base > 0,
        all_digits(d, base),
    ensures
        0 <= le_value(d, base) < pow(base, d.len()),
    decreases d.len(),
{
    reveal(pow);
    if d.len() > 0 {
        let rest = d.skip(1);
        lemma_le_value_bound(rest, base);
        let r = le_value(rest, base);
        let p = pow(base, rest.len());
        assert(base * r <= base * (p - 1)) by (nonlinear_arith)
            requires
                base > 0,
                0 <= r <= p - 1,
        ;
        assert(base * r >= 0) by (nonlinear_arith)
            requires
                base > 0,
                0 <= r,
        ;
        assert(base * (p - 1) == base * p - base) by (nonlinear_arith);
        assert(pow(base, d.len()) == base * p);
    }
}

/// The digits of the number that a digit string stands for are that
/// string.
pub proof fn lemma_digits_of_value(d: Seq<int>, base: int)
    requires
        base > 0,
        all_digits(d, base),
    ensures
        le_digits(le_value(d, base), base, d.len()) == d,
    decreases d.len(),
{
    if d.len() > 0 {
        let rest = d.skip(1);
        lemma_digits_of_value(rest, base);
        lemma_le_value_bound(rest, base);
        let r = le_value(rest, base);
        let v = le_value(d, base);
        assert(v == r * base + d[0]) by (nonlinear_arith)
            requires
                v == d[0] + base * r,
        ;
        lemma_fundamental_div_mod_converse(v, base, r, d[0]);
        assert(le_digits(v, base, d.len()) =~= d);
    } else {
        assert(le_digits(le_value(d, base), base, d.len()) =~= d);
    }
}

/// The `n` digits of a number below `base^n` stand for that number.
pub proof fn lemma_value_of_digits(v: int, base: int, n: nat)
    requires
        base > 0,
        0 <= v < pow(base, n),
    ensures
        le_value(le_digits(v, base, n), base) == v,
    decreases n,
{
    reveal(pow);
    if n > 0 {
        let p = pow(base, (n - 1) as nat);
        lemma_pow_positive(base, (n - 1) as nat);
        lemma_multiply_divide_lt(v, base, p);
        assert(0 <= v / base) by (nonlinear_arith)
            requires
                0 <= v,
                base > 0,
        ;
        lemma_value_of_digits(v / base, base, (n - 1) as nat);
        let rest = le_digits(v / base, base, (n - 1) as nat);
        let all = le_digits(v, base, n);
        assert(all.skip(1) =~= rest);
        lemma_fundamental_div_mod(v, base);
    }
}

pub proof fn lemma_regroup_len(d: Seq<int>, from: int, to: int, n_in: nat, n_out: nat, k: nat)
    requires
        n_in > 0,
        d.len() == k * n_in,
    ensures
        regroup(d, from, to, n_in, n_out).len() == k * n_out,
    decreases k,
{
    if k == 0 {
        assert(k * n_in == 0) by (nonlinear_arith)
            requires
                k == 0,
        ;
        assert(k * n_out == 0) by (nonlinear_arith)
            requires
                k == 0,
        ;
    } else {
        assert(k * n_in == (k - 1) * n_in + n_in) by (nonlinear_arith);
        assert(k * n_out == (k - 1) * n_out + n_out) by (nonlinear_arith);
        assert((k - 1) * n_in >= 0) by (nonlinear_arith)
            requires
                k >= 1,
        ;
        lemma_regroup_len(d.skip(n_in as int), from, to, n_in, n_out, (k - 1) as nat);
        lemma_le_digits_len(le_value(d.take(n_in as int), from), to, n_out);
    }
}

/// Regrouped digits are digits of the new base.
pub proof fn lemma_regroup_range(d: Seq<int>, from: int, to: int, n_in: nat, n_out: nat)
    requires
        to > 0,
    ensures
        all_digits(regroup(d, from, to, n_in, n_out), to),
    decreases d.len(),
{
    if n_in == 0 || d.len() < n_in {
    } else {
        let head = le_digits(le_value(d.take(n_in as int), from), to, n_out);
        let tail = regroup(d.skip(n_in as int), from, to, n_in, n_out);
        lemma_le_digits_range(le_value(d.take(n_in as int), from), to, n_out);
        lemma_regroup_range(d.skip(n_in as int), from, to, n_in, n_out);
        let all = head + tail;
        assert forall|i: int| 0 <= i < all.len() implies 0 <= #[trigger] all[i] < to by {
            if i < head.len() {
                assert(all[i] == head[i]);
            } else {
                assert(all[i] == tail[i - head.len()]);
            }
        }
    }
}

/// Regrouping into another base and back gives the digits back, where the
/// groups hold the same numbers: `from^n_in == to^n_out`.
pub proof fn lemma_regroup_round_trip(
    d: Seq<int>,
    from: int,
    to: int,
    n_in: nat,
    n_out: nat,
    k: nat,
)
    requires
        from > 0,
        to > 0,
        n_in > 0,
        n_out > 0,
        pow(from, n_in) == pow(to, n_out),
        all_digits(d, from),
        d.len() == k * n_in,
    ensures
        regroup(regroup(d, from, to, n_in, n_out), to, from, n_out, n_in) == d,
    decreases k,
{
    if k == 0 {
        assert(k * n_in == 0) by (nonlinear_arith)
            requires
                k == 0,
        ;
        assert(regroup(d, from, to, n_in, n_out) =~= Seq::<int>::empty());
        assert(regroup(Seq::<int>::empty(), to, from, n_out, n_in) =~= d);
    } else {
        assert(k * n_in == (k - 1) * n_in + n_in) by (nonlinear_arith);
        assert((k - 1) * n_in >= 0) by (nonlinear_arith)
            requires
                k >= 1,
        ;
        let first = d.take(n_in as int);
        let rest = d.skip(n_in as int);
        let v = le_value(first, from);
        let head = le_digits(v, to, n_out);
        let tail = regroup(rest, from, to, n_in, n_out);
        let mid = head + tail;
        assert(mid == regroup(d, from, to, n_in, n_out));
        lemma_le_digits_len(v, to, n_out);
        assert(mid.take(n_out as int) =~= head);
        assert(mid.skip(n_out as int) =~= tail);
        lemma_le_value_bound(first, from);
        lemma_value_of_digits(v, to, n_out);
        lemma_digits_of_value(first, from);
        lemma_regroup_round_trip(rest, from, to, n_in, n_out, (k - 1) as nat);
        assert(first + rest =~= d);
    }
}

/// Bytes are digits in base 256, and come back from them unchanged.
pub proof fn lemma_bytes_ints(b: Seq<u8>)
    ensures
        all_digits(as_ints(b), 256),
        as_bytes(as_ints(b)) == b,
{
    assert(as_bytes(as_ints(b)) =~= b);
}

/// Digits in base 256 come back unchanged from the bytes that hold them.
pub proof fn lemma_ints_bytes(d: Seq<int>)
    requires
        all_digits(d, 256),
    ensures
        as_ints(as_bytes(d)) == d,
{
    assert(as_ints(as_bytes(d)) =~= d);
}



/// Machine digits as mathematical integers.
pub open spec fn digit_ints(d: Seq<u32>) -> Seq<int> {
    Seq::new(d.len(), |i: int| d[i] as int)
}

/// The largest number that a group may hold: `2^120`.
pub open spec fn group_limit() -> int {
    0x100_0000_0000_0000_0000_0000_0000_0000
}

/// The number that the `n_in` digits of `d` from `pos` on stand for.
pub fn group_value(d: &[u32], pos: usize, from: u32, n_in: usize) -> (v: u128)
    requires
        from > 0,
        pos + n_in <= d@.len(),
        pow(from as int, n_in as nat) <= group_limit(),
        all_digits(digit_ints(d@), from as int),
    ensures
        v == le_value(digit_ints(d@).subrange(pos as int, pos + n_in), from as int),
        v < pow(from as int, n_in as nat),
{
    let ghost group = digit_ints(d@).subrange(pos as int, pos + n_in);
    let total: usize = d.len();
    let mut v: u128 = 0;
    let mut i: usize = n_in;
    assert(group.skip(n_in as int) =~= Seq::<int>::empty());
    while i > 0
        invariant
            from > 0,
            i <= n_in,
            pos + n_in <= d@.len() == total,
            pow(from as int, n_in as nat) <= group_limit(),
            group == digit_ints(d@).subrange(pos as int, pos + n_in),
            all_digits(group, from as int),
            v == le_value(group.skip(i as int), from as int),
        decreases i,
    {
        i -= 1;
        proof {
            let part = group.skip(i as int);
            assert(part.skip(1) =~= group.skip(i + 1));
            assert(part[0] == d@[pos + i] as int);
            lemma_le_value_bound(part, from as int);
            lemma_le_value_bound(part.skip(1), from as int);
            lemma_pow_increases(from as nat, part.len(), n_in as nat);
            assert(from * v >= 0) by (nonlinear_arith)
                requires
                    from > 0,
                    v >= 0,
            ;
            lemma_mul_is_commutative(from as int, v as int);
        }
        v = v * (from as u128) + (d[pos + i] as u128);
    }
    proof {
        assert(group.skip(0) =~= group);
        lemma_le_value_bound(group, from as int);
    }
    v
}

/// Regroups the digits `d` in base `from`, `n_in` at a time, into `n_out`
/// digits in base `to` each.
pub fn regroup_digits(d: &[u32], from: u32, to: u32, n_in: usize, n_out: usize) -> (out: Vec<u32>)
    requires
        from > 0,
        to > 0,
        n_in > 0,
        pow(from as int, n_in as nat) <= group_limit(),
        all_digits(digit_ints(d@), from as int),
    ensures
        digit_ints(out@) == regroup(
            digit_ints(d@),
            from as int,
            to as int,
            n_in as nat,
            n_out as nat,
        ),
{
    let ghost all = digit_ints(d@);
    let mut out: Vec<u32> = Vec::new();
    let mut pos: usize = 0;
    let len: usize = d.len();
    assert(all.skip(0) =~= all);
    while len - pos >= n_in
        invariant
            from > 0,
            to > 0,
            n_in > 0,
            pos <= len == d@.len(),
            all == digit_ints(d@),
            pow(from as int, n_in as nat) <= group_limit(),
            all_digits(all, from as int),
            digit_ints(out@) + regroup(
                all.skip(pos as int),
                from as int,
                to as int,
                n_in as nat,
                n_out as nat,
            ) == regroup(all, from as int, to as int, n_in as nat, n_out as nat),
        decreases len - pos,
    {
        let v0: u128 = group_value(d, pos, from, n_in);
        let ghost before = digit_ints(out@);
        let ghost rest = all.skip(pos as int);
        proof {
            assert(rest.take(n_in as int) =~= all.subrange(pos as int, pos + n_in));
            assert(rest.skip(n_in as int) =~= all.skip(pos + n_in));
        }
        let mut v: u128 = v0;
        let mut j: usize = 0;
        while j < n_out
            invariant
                to > 0,
                j <= n_out,
                digit_ints(out@) + le_digits(v as int, to as int, (n_out - j) as nat) == before
                    + le_digits(v0 as int, to as int, n_out as nat),
            decreases n_out - j,
        {
            let ghost cur = digit_ints(out@);
            let digit: u32 = (v % (to as u128)) as u32;
            out.push(digit);
            proof {
                let tail = le_digits(v as int / to as int, to as int, (n_out - j - 1) as nat);
                assert(digit_ints(out@) =~= cur + seq![v as int % to as int]);
                assert(cur + (seq![v as int % to as int] + tail) =~= (cur + seq![
                    v as int % to as int,
                ]) + tail);
            }
            v = v / (to as u128);
            j += 1;
        }
        proof {
            assert(digit_ints(out@) =~= before + le_digits(v0 as int, to as int, n_out as nat));
            let head = le_digits(v0 as int, to as int, n_out as nat);
            let tail = regroup(
                all.skip(pos + n_in),
                from as int,
                to as int,
                n_in as nat,
                n_out as nat,
            );
            assert((before + head) + tail =~= before + (head + tail));
        }
        pos = pos + n_in;
    }
    proof {
        assert(digit_ints(out@) + Seq::<int>::empty() =~= digit_ints(out@));
    }
    out
}

/// Appends to `out` the bytes that hold the digits `d` in base `from`,
/// `n_in` digits to every `n_out` bytes.
pub fn pack_digits(d: &[u32], from: u32, n_in: usize, n_out: usize, out: &mut Vec<u8>)
    requires
        from > 0,
        n_in > 0,
        pow(from as int, n_in as nat) <= group_limit(),
        all_digits(digit_ints(d@), from as int),
    ensures
        final(out)@ == old(out)@ + as_bytes(
            regroup(digit_ints(d@), from as int, 256, n_in as nat, n_out as nat),
        ),
{
    let bytes = regroup_digits(d, from, 256, n_in, n_out);
    let ghost out0 = out@;
    let ghost packed = as_bytes(digit_ints(bytes@));
    proof {
        lemma_regroup_range(digit_ints(d@), from as int, 256, n_in as nat, n_out as nat);
    }
    let mut i: usize = 0;
    while i < bytes.len()
        invariant
            i <= bytes@.len(),
            packed == as_bytes(digit_ints(bytes@)),
            all_digits(digit_ints(bytes@), 256),
            out@ == out0 + packed.take(i as int),
        decreases bytes@.len() - i,
    {
        assert(0 <= digit_ints(bytes@)[i as int] < 256);
        out.push(bytes[i] as u8);
        assert(out@ =~= out0 + packed.take(i + 1));
        i += 1;
    }
    assert(packed.take(bytes@.len() as int) =~= packed);
}

/// The digits in base `to` that `bytes` hold, `n_out` digits to every
/// `n_in` bytes.
pub fn unpack_digits(bytes: &[u8], to: u32, n_in: usize, n_out: usize) -> (out: Vec<u32>)
    requires
        to > 0,
        0 < n_in <= 15,
    ensures
        digit_ints(out@) == regroup(as_ints(bytes@), 256, to as int, n_in as nat, n_out as nat),
        all_digits(digit_ints(out@), to as int),
{
    let mut d: Vec<u32> = Vec::new();
    let mut i: usize = 0;
    while i < bytes.len()
        invariant
            i <= bytes@.len(),
            d@.len() == i,
            forall|j: int| 0 <= j < i ==> d@[j] == bytes@[j],
        decreases bytes@.len() - i,
    {
        d.push(bytes[i] as u32);
        i += 1;
    }
    proof {
        assert(digit_ints(d@) =~= as_ints(bytes@));
        lemma_pow_256(n_in as nat);
        lemma_regroup_range(as_ints(bytes@), 256, to as int, n_in as nat, n_out as nat);
    }
    regroup_digits(d.as_slice(), 256, to, n_in, n_out)
}

/// Up to fifteen bytes hold a number below the limit of a group.
proof fn lemma_pow_256(n: nat)
    requires
        n <= 15,
    ensures
        pow(256, n) <= group_limit(),
{
    reveal_with_fuel(pow, 17);
}

} // verus!
