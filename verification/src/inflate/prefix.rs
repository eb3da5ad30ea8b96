//! The canonical code of a valid length vector is a prefix code: no code is
//! the beginning of another. So the bits of the stream start at most one
//! code, and the order in which a table is filled does not matter.

use crate::inflate::canonical::{
    canonical_code, code_count, code_matches, codes_fit, first_code, lemma_count_len_increases,
    lemma_kraft_units_compare, lemma_kraft_units_first_code, lemma_resolve_matches,
    lemma_reversed_bits_bound, lemma_reversed_bits_unfold, lengths_valid, resolve, reversed_bits,
    MAX_CODE_BITS,
};
use vstd::arithmetic::div_mod::{
    lemma_div_denominator, lemma_div_is_ordered, lemma_div_multiples_vanish,
    lemma_fundamental_div_mod, lemma_fundamental_div_mod_converse, lemma_mod_mod,
};
use vstd::arithmetic::power2::{
    lemma2_to64, lemma_pow2_adds, lemma_pow2_pos, lemma_pow2_unfold, pow2,
};
use vstd::prelude::*;

verus! {

/// In a valid length vector the codes of every length fit into the numbers
/// of that many bits.
pub proof fn lemma_valid_codes_fit(lengths: Seq<u8>, l: nat)
    requires
        lengths_valid(lengths),
        1 <= l <= MAX_CODE_BITS,
    ensures
        codes_fit(lengths, l),
{
    lemma_kraft_units_first_code(lengths, l);
    lemma_kraft_units_compare(lengths, l, MAX_CODE_BITS as nat);
}

/// Two numbers of `n` bits with the same reversal are the same number.
pub proof fn lemma_reversed_bits_injective(x: nat, y: nat, n: nat)
    requires
        x < pow2(n),
        y < pow2(n),
        reversed_bits(x, n) == reversed_bits(y, n),
    ensures
        x == y,
    decreases n,
{
    lemma2_to64();
    if n > 0 {
        let p = pow2((n - 1) as nat);
        lemma_pow2_unfold(n);
        lemma_reversed_bits_bound(x / 2, (n - 1) as nat);
        lemma_reversed_bits_bound(y / 2, (n - 1) as nat);
        let rx = reversed_bits(x / 2, (n - 1) as nat);
        let ry = reversed_bits(y / 2, (n - 1) as nat);
        lemma_reversed_bits_unfold(x, n);
        lemma_reversed_bits_unfold(y, n);
        assert((x % 2) * p + rx == (y % 2) * p + ry);
        assert(x % 2 == y % 2 && rx == ry) by (nonlinear_arith)
            requires
                (x % 2) * p + rx == (y % 2) * p + ry,
                rx < p,
                ry < p,
                x % 2 <= 1,
                y % 2 <= 1,
        ;
        lemma_reversed_bits_injective(x / 2, y / 2, (n - 1) as nat);
    }
}

/// Reversing `a + b` bits puts the reversed low `b` bits on top and the
/// reversed next `a` bits below them.
pub proof fn lemma_reversed_bits_split(c: nat, a: nat, b: nat)
    ensures
        reversed_bits(c, a + b) == reversed_bits(c / pow2(b), a) + pow2(a) * reversed_bits(c, b),
    decreases b,
{
    lemma2_to64();
    if b == 0 {
        assert(pow2(a) * reversed_bits(c, 0) == 0) by (nonlinear_arith)
            requires
                reversed_bits(c, 0) == 0,
        ;
    } else {
        let b1 = (b - 1) as nat;
        lemma_reversed_bits_split(c / 2, a, b1);
        lemma_pow2_pos(b1);
        lemma_pow2_unfold(b);
        lemma_div_denominator(c as int, 2, pow2(b1) as int);
        assert((c / 2) / pow2(b1) == c / pow2(b));
        lemma_pow2_adds(a, b1);
        let pa = pow2(a);
        let pb1 = pow2(b1);
        let bit = c % 2;
        let r = reversed_bits(c / 2, b1);
        lemma_reversed_bits_unfold(c, a + b);
        lemma_reversed_bits_unfold(c, b);
        assert(reversed_bits(c, a + b) == bit * pow2((a + b - 1) as nat) + reversed_bits(
            c / 2,
            (a + b - 1) as nat,
        ));
        assert(bit * (pa * pb1) + pa * r == pa * (bit * pb1 + r)) by (nonlinear_arith);
    }
}

/// The low `a` bits of a reversal of `a + b` bits are the reversal of the
/// `a` bits above the low `b` ones.
pub proof fn lemma_reversed_bits_low(c: nat, a: nat, b: nat)
    ensures
        reversed_bits(c, a + b) % pow2(a) == reversed_bits(c / pow2(b), a),
{
    lemma_reversed_bits_split(c, a, b);
    lemma_reversed_bits_bound(c / pow2(b), a);
    lemma_pow2_pos(a);
    let low = reversed_bits(c / pow2(b), a);
    let high = reversed_bits(c, b);
    assert(pow2(a) * high == high * pow2(a)) by (nonlinear_arith);
    lemma_pow2_pos(b);
    lemma_fundamental_div_mod_converse(
        reversed_bits(c, a + b) as int,
        pow2(a) as int,
        high as int,
        low as int,
    );
}

/// The first code of a length lies above every shorter code with zeros
/// appended.
pub proof fn lemma_first_code_above_shorter(lengths: Seq<u8>, a: nat, b: nat)
    requires
        a < b,
    ensures
        first_code(lengths, b) >= pow2((b - a) as nat) * (first_code(lengths, a) + code_count(lengths, a)),
    decreases b - a,
{
    lemma2_to64();
    let k = first_code(lengths, a) + code_count(lengths, a);
    if b == a + 1 {
        assert(pow2(1) * k == 2 * k) by (nonlinear_arith)
            requires
                pow2(1) == 2,
        ;
    } else {
        lemma_first_code_above_shorter(lengths, a, (b - 1) as nat);
        lemma_pow2_unfold((b - a) as nat);
        let p = pow2((b - 1 - a) as nat);
        assert(2 * (p * k) == (2 * p) * k) by (nonlinear_arith);
    }
}

/// The low `a` bits of the low `b` bits are the low `a` bits.
proof fn lemma_low_bits_of_low_bits(v: nat, a: nat, b: nat)
    requires
        a <= b,
    ensures
        (v % pow2(b)) % pow2(a) == v % pow2(a),
{
    lemma_pow2_adds(a, (b - a) as nat);
    lemma_pow2_pos(a);
    lemma_pow2_pos((b - a) as nat);
    lemma_mod_mod(v as int, pow2(a) as int, pow2((b - a) as nat) as int);
}

/// No two symbols have codes that the same bits start with.
pub proof fn lemma_codes_prefix_free(lengths: Seq<u8>, s: int, t: int, v: nat)
    requires
        lengths_valid(lengths),
        0 <= s < lengths.len(),
        0 <= t < lengths.len(),
        code_matches(lengths, s, v),
        code_matches(lengths, t, v),
    ensures
        s == t,
{
    let n = lengths.len() as int;
    let ls = lengths[s] as nat;
    let lt = lengths[t] as nat;
    let cs = canonical_code(lengths, s);
    let ct = canonical_code(lengths, t);
    if s != t {
        if ls == lt {
            lemma_valid_codes_fit(lengths, ls);
            lemma_count_len_increases(lengths, ls, s, n);
            lemma_count_len_increases(lengths, ls, t, n);
            lemma_reversed_bits_injective(cs, ct, ls);
            if s < t {
                lemma_count_len_increases(lengths, ls, s, t);
            } else {
                lemma_count_len_increases(lengths, ls, t, s);
            }
        } else if ls < lt {
            lemma_shorter_code_is_no_prefix(lengths, s, t, v);
        } else {
            lemma_shorter_code_is_no_prefix(lengths, t, s, v);
        }
    }
}

/// A longer code, cut to the length of a shorter one, is a larger number
/// than the shorter code.
proof fn lemma_longer_code_is_larger(lengths: Seq<u8>, short: int, long: int)
    requires
        lengths_valid(lengths),
        0 <= short < lengths.len(),
        0 <= long < lengths.len(),
        0 < lengths[short] < lengths[long],
    ensures
        canonical_code(lengths, short) < canonical_code(lengths, long) / pow2(
            (lengths[long] - lengths[short]) as nat,
        ) < pow2(lengths[short] as nat),
{
    let n = lengths.len() as int;
    let a = lengths[short] as nat;
    let b = lengths[long] as nat;
    let gap = (b - a) as nat;
    let cs = canonical_code(lengths, short);
    let cl = canonical_code(lengths, long);
    let p = pow2(gap);
    let k = first_code(lengths, a) + code_count(lengths, a);
    lemma_valid_codes_fit(lengths, a);
    lemma_valid_codes_fit(lengths, b);
    lemma_count_len_increases(lengths, a, short, n);
    lemma_count_len_increases(lengths, b, long, n);
    assert(cs < k);
    lemma_first_code_above_shorter(lengths, a, b);
    lemma_pow2_pos(gap);
    assert(cl >= p * k);
    lemma_div_is_ordered((p * k) as int, cl as int, p as int);
    lemma_div_multiples_vanish(k as int, p as int);
    assert(cl / p >= k);
    lemma_pow2_adds(gap, a);
    lemma_fundamental_div_mod(cl as int, p as int);
    assert(cl < p * pow2(a));
    assert(p * (cl / p) <= cl);
    assert(cl / p < pow2(a)) by (nonlinear_arith)
        requires
            p * (cl / p) < p * pow2(a),
            p > 0,
    ;
}

/// The bits that start the code of `short` do not start the longer code of
/// `long`.
proof fn lemma_shorter_code_is_no_prefix(lengths: Seq<u8>, short: int, long: int, v: nat)
    requires
        lengths_valid(lengths),
        0 <= short < lengths.len(),
        0 <= long < lengths.len(),
        lengths[short] < lengths[long],
        code_matches(lengths, short, v),
    ensures
        !code_matches(lengths, long, v),
{
    let a = lengths[short] as nat;
    let b = lengths[long] as nat;
    let gap = (b - a) as nat;
    let cs = canonical_code(lengths, short);
    let cl = canonical_code(lengths, long);
    lemma_longer_code_is_larger(lengths, short, long);
    if code_matches(lengths, long, v) {
        // Both reversals are the low bits of `v`, so the codes agree on the
        // bits of the shorter one.
        lemma_low_bits_of_low_bits(v, a, b);
        assert(a + gap == b);
        lemma_reversed_bits_low(cl, a, gap);
        assert(reversed_bits(cs, a) == reversed_bits(cl / pow2(gap), a));
        lemma_valid_codes_fit(lengths, a);
        lemma_count_len_increases(lengths, a, short, lengths.len() as int);
        lemma_reversed_bits_injective(cs, cl / pow2(gap), a);
    }
}

/// Resolving finds the one symbol whose code the bits start with.
pub proof fn lemma_resolve_unique(lengths: Seq<u8>, v: nat, s: int)
    requires
        lengths_valid(lengths),
        0 <= s < lengths.len(),
        code_matches(lengths, s, v),
    ensures
        resolve(lengths, v, lengths.len() as int) == Some(s),
{
    lemma_resolve_matches(lengths, v, lengths.len() as int);
    if let Some(t) = resolve(lengths, v, lengths.len() as int) {
        lemma_codes_prefix_free(lengths, s, t, v);
    }
}

} // verus!
