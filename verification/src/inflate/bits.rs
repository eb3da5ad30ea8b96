//! The bit-level reading of a byte sequence: bits are numbered from the least
//! significant bit of the first byte upward, and a field of `n` bits is the
//! number whose least significant bit is the first bit of the field.

use vstd::arithmetic::div_mod::lemma_fundamental_div_mod_converse;
use vstd::arithmetic::power2::{lemma2_to64, lemma_pow2_pos, lemma_pow2_unfold, pow2};
use vstd::prelude::*;

verus! {

/// The number of bits from bit `pos` to the end of `data`.
pub open spec fn bits_left(data: Seq<u8>, pos: nat) -> int {
    8 * data.len() - pos
}

/// Bit `k` of the number `d`, as 0 or 1, bit 0 being the least significant.
pub open spec fn bit_of(d: nat, k: nat) -> nat
    decreases k,
{
    if k == 0 {
        d % 2
    } else {
        bit_of(d / 2, (k - 1) as nat)
    }
}

/// Bit `i` of `data`, as 0 or 1: bit `i % 8` of byte `i / 8`.
pub open spec fn bit_at(data: Seq<u8>, i: nat) -> nat
    recommends
        i < 8 * data.len(),
{
    bit_of(data[(i / 8) as int] as nat, i % 8)
}

/// The value of the `n` bits of `data` that start at bit `pos`, the first
/// bit being the least significant one.
pub open spec fn bits_at(data: Seq<u8>, pos: nat, n: nat) -> nat
    recommends
        pos + n <= 8 * data.len(),
    decreases n,
{
    if n == 0 {
        0
    } else {
        bit_at(data, pos) + 2 * bits_at(data, pos + 1, (n - 1) as nat)
    }
}

/// The first multiple of 8 that is not below `pos`.
pub open spec fn next_byte_boundary(pos: nat) -> nat {
    (((pos + 7) / 8) * 8) as nat
}

/// A bit is 0 or 1.
pub proof fn lemma_bit_of_bound(d: nat, k: nat)
    ensures
        bit_of(d, k) <= 1,
    decreases k,
{
    if k > 0 {
        lemma_bit_of_bound(d / 2, (k - 1) as nat);
    }
}

/// A field of `n` bits is below `2^n`.
pub proof fn lemma_bits_at_bound(data: Seq<u8>, pos: nat, n: nat)
    ensures
        bits_at(data, pos, n) < pow2(n),
    decreases n,
{
    if n == 0 {
        lemma2_to64();
    } else {
        lemma_bit_of_bound(data[(pos / 8) as int] as nat, pos % 8);
        lemma_bits_at_bound(data, pos + 1, (n - 1) as nat);
        lemma_pow2_unfold(n);
    }
}

/// A field of `a + b` bits is its first `a` bits with the following `b`
/// bits placed above them.
pub proof fn lemma_bits_at_split(data: Seq<u8>, pos: nat, a: nat, b: nat)
    ensures
        bits_at(data, pos, a + b) == bits_at(data, pos, a) + pow2(a) * bits_at(data, pos + a, b),
    decreases a,
{
    if a == 0 {
        lemma2_to64();
    } else {
        let rest = bits_at(data, pos + 1, (a - 1) as nat);
        let high = bits_at(data, pos + a, b);
        let half = pow2((a - 1) as nat);
        lemma_bits_at_split(data, pos + 1, (a - 1) as nat, b);
        lemma_pow2_unfold(a);
        assert(bits_at(data, pos + 1, (a + b - 1) as nat) == rest + half * high);
        assert(2 * (half * high) == pow2(a) * high) by (nonlinear_arith)
            requires
                pow2(a) == 2 * half,
        ;
    }
}

/// Dividing a field by `2^a` drops its first `a` bits, and the remainder is
/// those first bits.
pub proof fn lemma_bits_at_div_mod(data: Seq<u8>, pos: nat, a: nat, b: nat)
    ensures
        bits_at(data, pos, a + b) % pow2(a) == bits_at(data, pos, a),
        bits_at(data, pos, a + b) / pow2(a) == bits_at(data, pos + a, b),
{
    lemma_bits_at_split(data, pos, a, b);
    lemma_bits_at_bound(data, pos, a);
    lemma_pow2_pos(a);
    let low = bits_at(data, pos, a);
    let high = bits_at(data, pos + a, b);
    assert(pow2(a) * high == high * pow2(a)) by (nonlinear_arith);
    lemma_fundamental_div_mod_converse(
        bits_at(data, pos, a + b) as int,
        pow2(a) as int,
        high as int,
        low as int,
    );
}

/// The sum of the eight bits of a byte, each at its weight, is the byte.
proof fn lemma_byte_bits(d: u8)
    ensures
        d == bit_of(d as nat, 0) + 2 * (bit_of(d as nat, 1) + 2 * (bit_of(d as nat, 2) + 2 * (bit_of(
            d as nat,
            3,
        ) + 2 * (bit_of(d as nat, 4) + 2 * (bit_of(d as nat, 5) + 2 * (bit_of(d as nat, 6) + 2 * bit_of(
            d as nat,
            7,
        ))))))),
{
    reveal_with_fuel(bit_of, 8);
    let n = d as nat;
    assert(bit_of(n, 0) == (d / 1) % 2);
    assert(bit_of(n, 1) == (d / 2) % 2);
    assert(bit_of(n, 2) == (d / 4) % 2);
    assert(bit_of(n, 3) == (d / 8) % 2);
    assert(bit_of(n, 4) == (d / 16) % 2);
    assert(bit_of(n, 5) == (d / 32) % 2);
    assert(bit_of(n, 6) == (d / 64) % 2);
    assert(bit_of(n, 7) == (d / 128) % 2);
    assert(d == (d / 1) % 2 + 2 * ((d / 2) % 2 + 2 * ((d / 4) % 2 + 2 * ((d / 8) % 2 + 2 * ((d
        / 16) % 2 + 2 * ((d / 32) % 2 + 2 * ((d / 64) % 2 + 2 * ((d / 128) % 2)))))))) by (bit_vector);
}

/// The eight bits that start at a byte boundary are that byte.
pub proof fn lemma_bits_at_byte(data: Seq<u8>, j: nat)
    requires
        j < data.len(),
    ensures
        bits_at(data, 8 * j, 8) == data[j as int],
{
    let d = data[j as int];
    let p = 8 * j;
    lemma_byte_bits(d);
    assert forall|k: nat| k < 8 implies #[trigger] bit_at(data, p + k) == bit_of(d as nat, k) by {
        assert((p + k) / 8 == j);
        assert((p + k) % 8 == k);
    }
    assert(bit_at(data, p) == bit_of(d as nat, 0));
    assert(bit_at(data, p + 1) == bit_of(d as nat, 1));
    assert(bit_at(data, p + 2) == bit_of(d as nat, 2));
    assert(bit_at(data, p + 3) == bit_of(d as nat, 3));
    assert(bit_at(data, p + 4) == bit_of(d as nat, 4));
    assert(bit_at(data, p + 5) == bit_of(d as nat, 5));
    assert(bit_at(data, p + 6) == bit_of(d as nat, 6));
    assert(bit_at(data, p + 7) == bit_of(d as nat, 7));
    reveal_with_fuel(bits_at, 9);
}

/// A field read from `data` is the same field of any sequence that agrees
/// with `data` on the bytes that hold it.
pub proof fn lemma_bits_at_agree(a: Seq<u8>, b: Seq<u8>, pos: nat, n: nat)
    requires
        pos + n <= 8 * a.len(),
        pos + n <= 8 * b.len(),
        forall|j: int| pos / 8 <= j && 8 * j < pos + n ==> a[j] == b[j],
    ensures
        bits_at(a, pos, n) == bits_at(b, pos, n),
    decreases n,
{
    if n > 0 {
        assert(a[(pos / 8) as int] == b[(pos / 8) as int]);
        lemma_bits_at_agree(a, b, pos + 1, (n - 1) as nat);
    }
}

} // verus!
