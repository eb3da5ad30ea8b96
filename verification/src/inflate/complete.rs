//! Complete codes: a code that uses all of its code space decodes every bit
//! pattern, and one that leaves space unused has a pattern that starts no
//! code. So reading a symbol can meet an unassigned table slot exactly when
//! the code lengths are undersubscribed, which among the valid length
//! vectors are those without a code and those with a single code of one bit.

use crate::inflate::canonical::{
    canonical_code, canonical_table, code_count, code_matches, count_len, first_code, kraft_units,
    lemma_count_len_increases, lemma_incomplete_codes, lemma_kraft_units_compare,
    lemma_kraft_units_first_code, lemma_max_length_bounds, lemma_max_length_valid,
    lemma_resolve_matches, lemma_reversed_bits_bound, lemma_reversed_bits_unfold, lengths_valid,
    no_code, resolve, reversed_bits, single_one_bit_code, table_bits, undersubscribed,
    MAX_CODE_BITS,
};
use crate::inflate::prefix::{
    lemma_reversed_bits_injective, lemma_reversed_bits_split, lemma_valid_codes_fit,
};
use vstd::arithmetic::div_mod::{
    lemma_fundamental_div_mod_converse, lemma_mod_breakdown, lemma_small_mod,
};
use vstd::arithmetic::power2::{
    lemma2_to64, lemma_pow2_adds, lemma_pow2_pos, lemma_pow2_unfold, pow2,
};
use vstd::prelude::*;

verus! {

/// Reversing `n` bits looks at the low `n` bits only.
pub proof fn lemma_reversed_bits_of_low_bits(x: nat, n: nat)
    ensures
        reversed_bits(x % pow2(n), n) == reversed_bits(x, n),
    decreases n,
{
    lemma_pow2_pos(n);
    if n > 0 {
        let p = pow2((n - 1) as nat);
        let y = x % pow2(n);
        lemma_pow2_unfold(n);
        lemma_pow2_pos((n - 1) as nat);
        lemma_mod_breakdown(x as int, 2, p as int);
        assert(y == 2 * ((x / 2) % p) + x % 2);
        assert(y % 2 == x % 2);
        assert(y / 2 == (x / 2) % p);
        lemma_reversed_bits_of_low_bits(x / 2, (n - 1) as nat);
    }
}

/// Reversing twice gives the low bits back.
pub proof fn lemma_reversed_bits_twice(x: nat, n: nat)
    ensures
        reversed_bits(reversed_bits(x, n), n) == x % pow2(n),
    decreases n,
{
    lemma2_to64();
    if n > 0 {
        let m = (n - 1) as nat;
        let p = pow2(m);
        let bit = x % 2;
        let r = reversed_bits(x / 2, m);
        let y = reversed_bits(x, n);
        lemma_pow2_unfold(n);
        lemma_pow2_pos(m);
        lemma_reversed_bits_unfold(x, n);
        lemma_reversed_bits_bound(x / 2, m);
        // The top bit of `y` is the low bit of `x`, and below it is `r`.
        assert(bit * p == p * bit) by (nonlinear_arith);
        lemma_fundamental_div_mod_converse(y as int, p as int, bit as int, r as int);
        // Reversing `y` puts that top bit at the bottom.
        lemma_reversed_bits_split(y, 1, m);
        assert(reversed_bits(bit, 1) == bit) by {
            reveal_with_fuel(reversed_bits, 2);
        }
        lemma_reversed_bits_of_low_bits(y, m);
        lemma_reversed_bits_twice(x / 2, m);
        lemma_mod_breakdown(x as int, 2, p as int);
        assert(pow2(1) * reversed_bits(y, m) == 2 * reversed_bits(y, m)) by (nonlinear_arith)
            requires
                pow2(1) == 2,
        ;
    }
}

/// The bits `v` start the code of `s` exactly when their first bits, read
/// as a number with the first bit on top, are the code.
pub proof fn lemma_matches_iff_code_read(lengths: Seq<u8>, s: int, v: nat)
    requires
        lengths_valid(lengths),
        0 <= s < lengths.len(),
        lengths[s] > 0,
    ensures
        code_matches(lengths, s, v) <==> reversed_bits(v, lengths[s] as nat) == canonical_code(lengths, s),
{
    let len = lengths[s] as nat;
    let code = canonical_code(lengths, s);
    lemma_valid_codes_fit(lengths, len);
    lemma_count_len_increases(lengths, len, s, lengths.len() as int);
    assert(code < pow2(len));
    lemma_small_mod(code, pow2(len));
    lemma_reversed_bits_twice(code, len);
    lemma_reversed_bits_twice(v, len);
    lemma_reversed_bits_of_low_bits(v, len);
}

/// The symbol of length `l` that has `rank` symbols of that length before
/// it, among the first `k` symbols.
pub proof fn lemma_symbol_with_rank(lengths: Seq<u8>, l: nat, k: int, rank: nat) -> (s: int)
    requires
        0 <= k <= lengths.len(),
        rank < count_len(lengths, l, k),
    ensures
        0 <= s < k,
        lengths[s] == l,
        count_len(lengths, l, s) == rank,
    decreases k,
{
    if lengths[k - 1] == l && count_len(lengths, l, k - 1) == rank {
        k - 1
    } else {
        lemma_symbol_with_rank(lengths, l, k - 1, rank)
    }
}

/// One more bit read doubles the number read so far, at least.
proof fn lemma_code_read_grows(v: nat, l: nat)
    requires
        l >= 1,
    ensures
        reversed_bits(v, l) >= 2 * reversed_bits(v, (l - 1) as nat),
{
    lemma2_to64();
    lemma_pow2_pos((l - 1) as nat);
    lemma_reversed_bits_split(v, 1, (l - 1) as nat);
    assert(1 + (l - 1) as nat == l);
    let r = reversed_bits(v, (l - 1) as nat);
    assert(pow2(1) * r == 2 * r) by (nonlinear_arith)
        requires
            pow2(1) == 2,
    ;
}

/// Bits that start no code of `l` bits or fewer read, after `l` bits, as a
/// number above all codes of `l` bits.
pub proof fn lemma_unmatched_bits_read_high(lengths: Seq<u8>, v: nat, l: nat)
    requires
        lengths_valid(lengths),
        l <= MAX_CODE_BITS,
        forall|s: int| 0 <= s < lengths.len() ==> !code_matches(lengths, s, v),
    ensures
        reversed_bits(v, l) >= first_code(lengths, l) + code_count(lengths, l),
    decreases l,
{
    if l > 0 {
        let n = lengths.len() as int;
        let read = reversed_bits(v, l);
        lemma_unmatched_bits_read_high(lengths, v, (l - 1) as nat);
        lemma_code_read_grows(v, l);
        assert(read >= first_code(lengths, l));
        if read < first_code(lengths, l) + code_count(lengths, l) {
            let rank = (read - first_code(lengths, l)) as nat;
            let s = lemma_symbol_with_rank(lengths, l, n, rank);
            assert(canonical_code(lengths, s) == read);
            lemma_matches_iff_code_read(lengths, s, v);
            assert(code_matches(lengths, s, v));
        }
    }
}

/// Reversing a number of `n` ones gives it back.
proof fn lemma_reversed_ones(n: nat)
    ensures
        reversed_bits((pow2(n) - 1) as nat, n) == pow2(n) - 1,
    decreases n,
{
    lemma2_to64();
    if n > 0 {
        lemma_pow2_unfold(n);
        lemma_pow2_pos((n - 1) as nat);
        lemma_reversed_ones((n - 1) as nat);
        let x = (pow2(n) - 1) as nat;
        assert(x % 2 == 1);
        assert(x / 2 == pow2((n - 1) as nat) - 1);
    }
}

/// The low `l` bits of `m` ones are `l` ones.
proof fn lemma_low_bits_of_ones(m: nat, l: nat)
    requires
        l <= m,
    ensures
        (pow2(m) - 1) % (pow2(l) as int) == pow2(l) - 1,
{
    let high = pow2((m - l) as nat);
    let low = pow2(l);
    lemma_pow2_adds((m - l) as nat, l);
    lemma_pow2_pos((m - l) as nat);
    lemma_pow2_pos(l);
    assert(pow2(m) - 1 == (high - 1) * low + (low - 1)) by (nonlinear_arith)
        requires
            pow2(m) == high * low,
    ;
    lemma_fundamental_div_mod_converse(pow2(m) - 1, low as int, high - 1, low - 1);
}

/// The Kraft sum of a valid length vector in units of the table width.
proof fn lemma_kraft_units_at_table_bits(lengths: Seq<u8>)
    requires
        lengths_valid(lengths),
    ensures
        1 <= table_bits(lengths) <= MAX_CODE_BITS,
        undersubscribed(lengths) <==> kraft_units(lengths, table_bits(lengths), lengths.len() as int) < pow2(
            table_bits(lengths),
        ),
        kraft_units(lengths, table_bits(lengths), lengths.len() as int) <= pow2(table_bits(lengths)),
        kraft_units(lengths, table_bits(lengths), lengths.len() as int) == first_code(
            lengths,
            table_bits(lengths),
        ) + code_count(lengths, table_bits(lengths)),
{
    let n = lengths.len() as int;
    let m = table_bits(lengths);
    let top = MAX_CODE_BITS as nat;
    lemma_max_length_valid(lengths, n);
    assert forall|i: int| 0 <= i < lengths.len() implies lengths[i] <= m by {
        lemma_max_length_bounds(lengths, n, i);
    }
    lemma_kraft_units_first_code(lengths, m);
    lemma_kraft_units_compare(lengths, m, top);
}

/// The completeness law: the table of a valid length vector has a code in
/// every slot exactly when the lengths are not undersubscribed, that is,
/// when their Kraft sum is 1.
pub proof fn lemma_complete_iff_every_slot_assigned(lengths: Seq<u8>)
    requires
        lengths_valid(lengths),
    ensures
        !undersubscribed(lengths) <==> (forall|v: int|
            0 <= v < canonical_table(lengths).slots.len() ==> (#[trigger] canonical_table(lengths).slots[v])
                is Some),
{
    let n = lengths.len() as int;
    let m = table_bits(lengths);
    let t = canonical_table(lengths);
    lemma_kraft_units_at_table_bits(lengths);
    lemma_pow2_pos(m);
    if !undersubscribed(lengths) {
        assert forall|v: int| 0 <= v < t.slots.len() implies (#[trigger] t.slots[v]) is Some by {
            lemma_resolve_matches(lengths, v as nat, n);
            if resolve(lengths, v as nat, n) is None {
                lemma_unmatched_bits_read_high(lengths, v as nat, m);
                lemma_reversed_bits_bound(v as nat, m);
            }
        }
    } else {
        let ones = (pow2(m) - 1) as nat;
        lemma_unassigned_slot(lengths);
        assert(t.slots[ones as int] is None);
    }
}

/// A table with an unassigned slot is one bit wide: it is the table of no
/// code at all, or of a single code of one bit.
pub proof fn lemma_unassigned_slot_means_one_bit_table(lengths: Seq<u8>, v: int)
    requires
        lengths_valid(lengths),
        0 <= v < canonical_table(lengths).slots.len(),
        canonical_table(lengths).slots[v] is None,
    ensures
        no_code(lengths) || single_one_bit_code(lengths),
        canonical_table(lengths).max_bits == 1,
{
    lemma_complete_iff_every_slot_assigned(lengths);
    lemma_incomplete_codes(lengths);
}

/// The slot for the bits that are all ones is unassigned in the table of
/// undersubscribed lengths.
pub proof fn lemma_unassigned_slot(lengths: Seq<u8>)
    requires
        lengths_valid(lengths),
        undersubscribed(lengths),
    ensures
        canonical_table(lengths).slots[pow2(table_bits(lengths)) - 1] is None,
{
    let n = lengths.len() as int;
    let m = table_bits(lengths);
    let ones = (pow2(m) - 1) as nat;
    lemma_kraft_units_at_table_bits(lengths);
    lemma_pow2_pos(m);
    lemma_resolve_matches(lengths, ones, n);
    if let Some(s) = resolve(lengths, ones, n) {
        let len = lengths[s] as nat;
        let code = canonical_code(lengths, s);
        lemma_max_length_bounds(lengths, n, s);
        lemma_pow2_pos(len);
        // The code of `s` is all ones.
        lemma_low_bits_of_ones(m, len);
        lemma_reversed_ones(len);
        lemma_valid_codes_fit(lengths, len);
        lemma_count_len_increases(lengths, len, s, n);
        lemma_reversed_bits_injective(code, (pow2(len) - 1) as nat, len);
        // So the codes of its length fill the numbers of that length, and
        // nothing is left for the table width.
        lemma_kraft_units_first_code(lengths, len);
        lemma_kraft_units_compare(lengths, len, m);
    }
}

} // verus!
