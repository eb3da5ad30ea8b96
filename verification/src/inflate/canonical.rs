//! Canonical Huffman codes: the prefix code that a vector of code lengths
//! determines, and the lookup table that decodes it.
//!
//! Symbols are the indices of the length vector; length 0 means that the
//! symbol has no code. Codes of one length are consecutive numbers handed out
//! in symbol order, and the first code of each length follows from the number
//! of shorter codes. On the wire a code travels most significant bit first,
//! so a reader that delivers bits least significant first sees it reversed.

use vstd::arithmetic::power2::{
    lemma2_to64, lemma_pow2_adds, lemma_pow2_pos, lemma_pow2_strictly_increases, lemma_pow2_unfold,
    pow2,
};
use vstd::prelude::*;

verus! {

/// The longest code that the format allows.
pub const MAX_CODE_BITS: usize = 15;

/// The largest number of symbols that a table can tell apart.
pub const MAX_SYMBOLS: usize = 65536;

/// How many of the first `k` symbols have a code of length `l`.
pub open spec fn count_len(lengths: Seq<u8>, l: nat, k: int) -> nat
    recommends
        0 <= k <= lengths.len(),
    decreases k,
{
    if k <= 0 {
        0
    } else {
        count_len(lengths, l, k - 1) + if lengths[k - 1] == l {
            1nat
        } else {
            0nat
        }
    }
}

/// The number of codes of length `l`; no code has length 0.
pub open spec fn code_count(lengths: Seq<u8>, l: nat) -> nat {
    if l == 0 {
        0
    } else {
        count_len(lengths, l, lengths.len() as int)
    }
}

/// The smallest code of length `l`: one step of the canonical recurrence for
/// each length up to `l`.
pub open spec fn first_code(lengths: Seq<u8>, l: nat) -> nat
    decreases l,
{
    if l == 0 {
        0
    } else {
        2 * (first_code(lengths, (l - 1) as nat) + code_count(lengths, (l - 1) as nat))
    }
}

/// The code of symbol `s`, most significant bit first: the first code of its
/// length, plus the number of earlier symbols of the same length.
pub open spec fn canonical_code(lengths: Seq<u8>, s: int) -> nat
    recommends
        0 <= s < lengths.len(),
        lengths[s] > 0,
{
    first_code(lengths, lengths[s] as nat) + count_len(lengths, lengths[s] as nat, s)
}

/// The low `n` bits of `c` in reverse order.
pub open spec fn reversed_bits(c: nat, n: nat) -> nat
    decreases n,
{
    if n == 0 {
        0
    } else if c % 2 == 1 {
        pow2((n - 1) as nat) + reversed_bits(c / 2, (n - 1) as nat)
    } else {
        reversed_bits(c / 2, (n - 1) as nat)
    }
}

/// What a code of length `len` takes of the code space of `l`-bit words.
pub open spec fn code_weight(len: nat, l: nat) -> nat {
    if 0 < len <= l {
        pow2((l - len) as nat)
    } else {
        0
    }
}

/// The Kraft sum of the codes of length at most `l` among the first `k`
/// symbols, in units of `2^-l`.
pub open spec fn kraft_units(lengths: Seq<u8>, l: nat, k: int) -> nat
    recommends
        0 <= k <= lengths.len(),
    decreases k,
{
    if k <= 0 {
        0
    } else {
        kraft_units(lengths, l, k - 1) + code_weight(lengths[k - 1] as nat, l)
    }
}

/// The codes of length `l` fit into the numbers of `l` bits.
pub open spec fn codes_fit(lengths: Seq<u8>, l: nat) -> bool {
    first_code(lengths, l) + code_count(lengths, l) <= pow2(l)
}

/// The lengths ask for more code space than there is: their Kraft sum
/// exceeds 1.
pub open spec fn oversubscribed(lengths: Seq<u8>) -> bool {
    kraft_units(lengths, MAX_CODE_BITS as nat, lengths.len() as int) > pow2(MAX_CODE_BITS as nat)
}

/// The lengths leave code space unused: their Kraft sum is below 1.
pub open spec fn undersubscribed(lengths: Seq<u8>) -> bool {
    kraft_units(lengths, MAX_CODE_BITS as nat, lengths.len() as int) < pow2(MAX_CODE_BITS as nat)
}

/// The longest length among the first `k` symbols.
pub open spec fn max_length(lengths: Seq<u8>, k: int) -> nat
    recommends
        0 <= k <= lengths.len(),
    decreases k,
{
    if k <= 0 {
        0
    } else if lengths[k - 1] > max_length(lengths, k - 1) {
        lengths[k - 1] as nat
    } else {
        max_length(lengths, k - 1)
    }
}

/// The width of the lookup table for `lengths`: the longest code length, or
/// 1 when no symbol has a code.
pub open spec fn table_bits(lengths: Seq<u8>) -> nat {
    if max_length(lengths, lengths.len() as int) == 0 {
        1
    } else {
        max_length(lengths, lengths.len() as int)
    }
}

/// No symbol has a code.
pub open spec fn no_code(lengths: Seq<u8>) -> bool {
    forall|i: int| 0 <= i < lengths.len() ==> lengths[i] == 0
}

/// One symbol has a code of one bit, and no other symbol has a code.
pub open spec fn single_one_bit_code(lengths: Seq<u8>) -> bool {
    exists|s: int|
        0 <= s < lengths.len() && #[trigger] lengths[s] == 1 && forall|i: int|
            0 <= i < lengths.len() && i != s ==> lengths[i] == 0
}

/// The length vectors from which a table is built: at most `MAX_SYMBOLS`
/// symbols, no code longer than `MAX_CODE_BITS`, and a Kraft sum of 1.
///
/// A sum above 1 is never valid. A sum below 1 is valid in two cases only:
/// - no symbol has a code: such a table is one bit wide and decodes
///   nothing, which a block without any match has as its distance code;
/// - one symbol has a code of one bit: an alphabet of which one symbol
///   occurs gets that code, as the format sends at least one bit for a
///   symbol.
pub open spec fn lengths_valid(lengths: Seq<u8>) -> bool {
    &&& lengths.len() <= MAX_SYMBOLS
    &&& forall|i: int| 0 <= i < lengths.len() ==> lengths[i] <= MAX_CODE_BITS
    &&& !oversubscribed(lengths)
    &&& undersubscribed(lengths) ==> no_code(lengths) || single_one_bit_code(lengths)
}

/// Symbol `s` has a code, and the first bits of `v`, least significant bit
/// first, are that code as it appears on the wire.
pub open spec fn code_matches(lengths: Seq<u8>, s: int, v: nat) -> bool
    recommends
        0 <= s < lengths.len(),
{
    &&& lengths[s] > 0
    &&& v % pow2(lengths[s] as nat) == reversed_bits(canonical_code(lengths, s), lengths[s] as nat)
}

/// The last of the first `k` symbols whose code the bits of `v` start with.
pub open spec fn resolve(lengths: Seq<u8>, v: nat, k: int) -> Option<int>
    recommends
        0 <= k <= lengths.len(),
    decreases k,
{
    if k <= 0 {
        None
    } else if code_matches(lengths, k - 1, v) {
        Some(k - 1)
    } else {
        resolve(lengths, v, k - 1)
    }
}

/// One decoded code: the symbol and the number of bits that its code takes.
pub struct Code {
    pub symbol: nat,
    pub length: nat,
}

/// A lookup table of `2^max_bits` slots, indexed by the next `max_bits` bits
/// of the stream. A slot holds the code that those bits start with, or
/// nothing where no code is assigned.
pub struct HuffmanView {
    pub max_bits: nat,
    pub slots: Seq<Option<Code>>,
}

impl HuffmanView {
    /// The table has the size that its width asks for, and every code in it
    /// is at least one bit and at most `max_bits` bits long.
    pub open spec fn wf(self) -> bool {
        &&& 1 <= self.max_bits <= MAX_CODE_BITS
        &&& self.slots.len() == pow2(self.max_bits)
        &&& forall|v: int|
            0 <= v < self.slots.len() ==> (#[trigger] self.slots[v] matches Some(c) ==> 1 <= c.length
                <= self.max_bits && c.symbol < MAX_SYMBOLS)
    }
}

/// The table slot for a symbol that was found, or for none.
pub open spec fn slot_of(lengths: Seq<u8>, found: Option<int>) -> Option<Code> {
    match found {
        Some(s) => Some(Code { symbol: s as nat, length: lengths[s] as nat }),
        None => None,
    }
}

/// The slot for the bits `v` in the table of `lengths`.
pub open spec fn canonical_slot(lengths: Seq<u8>, v: nat) -> Option<Code> {
    slot_of(lengths, resolve(lengths, v, lengths.len() as int))
}

/// The lookup table of the canonical code of `lengths`.
pub open spec fn canonical_table(lengths: Seq<u8>) -> HuffmanView {
    HuffmanView {
        max_bits: table_bits(lengths),
        slots: Seq::new(pow2(table_bits(lengths)), |v: int| canonical_slot(lengths, v as nat)),
    }
}

/// No more than `k` of the first `k` symbols have a given length.
pub proof fn lemma_count_len_bound(lengths: Seq<u8>, l: nat, k: int)
    requires
        0 <= k,
    ensures
        count_len(lengths, l, k) <= k,
    decreases k,
{
    if k > 0 {
        lemma_count_len_bound(lengths, l, k - 1);
    }
}

/// The count of a length grows with the number of symbols looked at, and
/// strictly so across a symbol of that length.
pub proof fn lemma_count_len_increases(lengths: Seq<u8>, l: nat, a: int, b: int)
    requires
        0 <= a <= b,
    ensures
        count_len(lengths, l, a) <= count_len(lengths, l, b),
        a < b && lengths[a] == l ==> count_len(lengths, l, a) < count_len(lengths, l, b),
    decreases b - a,
{
    if a < b {
        if a + 1 < b {
            lemma_count_len_increases(lengths, l, a, b - 1);
        }
        if a + 1 == b {
            assert(count_len(lengths, l, b) == count_len(lengths, l, a) + if lengths[a] == l {
                1nat
            } else {
                0nat
            });
        }
    }
}

/// No symbol has a length above the longest one.
pub proof fn lemma_max_length_bounds(lengths: Seq<u8>, k: int, i: int)
    requires
        0 <= i < k,
    ensures
        lengths[i] <= max_length(lengths, k),
    decreases k,
{
    if i < k - 1 {
        lemma_max_length_bounds(lengths, k - 1, i);
    }
}

/// A length that exceeds the longest one occurs nowhere.
pub proof fn lemma_count_len_absent(lengths: Seq<u8>, l: nat, k: int)
    requires
        0 <= k,
        forall|i: int| 0 <= i < k ==> lengths[i] != l,
    ensures
        count_len(lengths, l, k) == 0,
    decreases k,
{
    if k > 0 {
        lemma_count_len_absent(lengths, l, k - 1);
    }
}

/// With one more bit of width every code weighs twice as much, and the codes
/// of the new length come in with weight 1.
pub proof fn lemma_kraft_units_step(lengths: Seq<u8>, l: nat, k: int)
    requires
        l >= 1,
        0 <= k,
    ensures
        kraft_units(lengths, l, k) == 2 * kraft_units(lengths, (l - 1) as nat, k) + count_len(
            lengths,
            l,
            k,
        ),
    decreases k,
{
    if k > 0 {
        lemma_kraft_units_step(lengths, l, k - 1);
        let len = lengths[k - 1] as nat;
        lemma2_to64();
        if 0 < len < l {
            lemma_pow2_unfold((l - len) as nat);
        }
    }
}

/// At width 0 there is no code to weigh.
pub proof fn lemma_kraft_units_zero(lengths: Seq<u8>, k: int)
    ensures
        kraft_units(lengths, 0, k) == 0,
    decreases k,
{
    if k > 0 {
        lemma_kraft_units_zero(lengths, k - 1);
    }
}

/// The codes of length `l` are the numbers from `first_code` on, so the
/// first number after them is the Kraft sum in units of `2^-l`.
pub proof fn lemma_kraft_units_first_code(lengths: Seq<u8>, l: nat)
    requires
        l >= 1,
    ensures
        kraft_units(lengths, l, lengths.len() as int) == first_code(lengths, l) + code_count(
            lengths,
            l,
        ),
    decreases l,
{
    let n = lengths.len() as int;
    lemma_kraft_units_step(lengths, l, n);
    if l == 1 {
        lemma_kraft_units_zero(lengths, n);
        assert(first_code(lengths, 0) == 0);
    } else {
        lemma_kraft_units_first_code(lengths, (l - 1) as nat);
    }
}

/// Widening the units from `a` to `b` bits at least scales the sum by
/// `2^(b - a)`; it scales it by exactly that when no code is longer than `a`.
pub proof fn lemma_kraft_units_widen(lengths: Seq<u8>, a: nat, b: nat)
    requires
        a <= b,
    ensures
        kraft_units(lengths, b, lengths.len() as int) >= pow2((b - a) as nat) * kraft_units(
            lengths,
            a,
            lengths.len() as int,
        ),
        (forall|i: int| 0 <= i < lengths.len() ==> lengths[i] <= a) ==> kraft_units(
            lengths,
            b,
            lengths.len() as int,
        ) == pow2((b - a) as nat) * kraft_units(lengths, a, lengths.len() as int),
    decreases b - a,
{
    let n = lengths.len() as int;
    lemma2_to64();
    if a < b {
        lemma_kraft_units_widen(lengths, a, (b - 1) as nat);
        lemma_kraft_units_step(lengths, b, n);
        lemma_pow2_unfold((b - a) as nat);
        let p = pow2((b - 1 - a) as nat);
        let ua = kraft_units(lengths, a, n);
        assert(2 * (p * ua) == (2 * p) * ua) by (nonlinear_arith);
        if forall|i: int| 0 <= i < lengths.len() ==> lengths[i] <= a {
            lemma_count_len_absent(lengths, b, n);
        }
    } else {
        assert(pow2(0) * kraft_units(lengths, a, n) == kraft_units(lengths, a, n)) by (nonlinear_arith)
            requires
                pow2(0) == 1,
        ;
    }
}

/// How the Kraft sum compares with 1 does not depend on the width of the
/// units in which it is taken, as long as that width holds every code; and
/// a sum that has reached or passed 1 at some width stays there at every
/// greater width.
pub proof fn lemma_kraft_units_compare(lengths: Seq<u8>, a: nat, b: nat)
    requires
        a <= b,
    ensures
        kraft_units(lengths, a, lengths.len() as int) > pow2(a) ==> kraft_units(
            lengths,
            b,
            lengths.len() as int,
        ) > pow2(b),
        kraft_units(lengths, a, lengths.len() as int) >= pow2(a) ==> kraft_units(
            lengths,
            b,
            lengths.len() as int,
        ) >= pow2(b),
        (forall|i: int| 0 <= i < lengths.len() ==> lengths[i] <= a) ==> {
            &&& (kraft_units(lengths, a, lengths.len() as int) < pow2(a)) == (kraft_units(
                lengths,
                b,
                lengths.len() as int,
            ) < pow2(b))
            &&& (kraft_units(lengths, a, lengths.len() as int) > pow2(a)) == (kraft_units(
                lengths,
                b,
                lengths.len() as int,
            ) > pow2(b))
        },
{
    let n = lengths.len() as int;
    let p = pow2((b - a) as nat);
    let u = kraft_units(lengths, a, n);
    let q = pow2(a);
    lemma_kraft_units_widen(lengths, a, b);
    lemma_pow2_adds((b - a) as nat, a);
    lemma_pow2_pos((b - a) as nat);
    assert((u < q) == (p * u < p * q) && (u > q) == (p * u > p * q)) by (nonlinear_arith)
        requires
            p > 0,
    ;
}

/// The longest length is the length of some symbol.
pub proof fn lemma_max_length_attained(lengths: Seq<u8>, k: int) -> (s: int)
    requires
        0 <= k <= lengths.len(),
        max_length(lengths, k) > 0,
    ensures
        0 <= s < k,
        lengths[s] == max_length(lengths, k),
    decreases k,
{
    if lengths[k - 1] > max_length(lengths, k - 1) {
        k - 1
    } else {
        lemma_max_length_attained(lengths, k - 1)
    }
}

/// Among lengths that are not oversubscribed, those that are undersubscribed
/// and have no code of more than one bit are the vector without a code and
/// the vectors with a single code of one bit; a vector with a longer code is
/// neither.
pub proof fn lemma_incomplete_codes(lengths: Seq<u8>)
    requires
        !oversubscribed(lengths),
        forall|i: int| 0 <= i < lengths.len() ==> lengths[i] <= MAX_CODE_BITS,
    ensures
        max_length(lengths, lengths.len() as int) >= 2 ==> !no_code(lengths) && !single_one_bit_code(
            lengths,
        ),
        max_length(lengths, lengths.len() as int) <= 1 && undersubscribed(lengths) ==> no_code(lengths)
            || single_one_bit_code(lengths),
{
    let n = lengths.len() as int;
    let longest = max_length(lengths, n);
    assert forall|i: int| 0 <= i < n implies lengths[i] <= longest by {
        lemma_max_length_bounds(lengths, n, i);
    }
    if longest >= 1 {
        let s = lemma_max_length_attained(lengths, n);
        if longest == 1 && undersubscribed(lengths) {
            lemma2_to64();
            lemma_kraft_units_compare(lengths, 1, MAX_CODE_BITS as nat);
            lemma_kraft_units_first_code(lengths, 1);
            assert(first_code(lengths, 1) == 0) by {
                reveal_with_fuel(first_code, 2);
            }
            assert(count_len(lengths, 1, n) <= 1);
            assert forall|i: int| 0 <= i < n && i != s implies lengths[i] == 0 by {
                if lengths[i] == 1 {
                    if i < s {
                        lemma_count_len_increases(lengths, 1, i, s);
                        lemma_count_len_increases(lengths, 1, s, n);
                    } else {
                        lemma_count_len_increases(lengths, 1, s, i);
                        lemma_count_len_increases(lengths, 1, i, n);
                    }
                }
            }
        }
    }
}

/// A run of symbols of one length adds the weight of that length once for
/// each of them.
pub proof fn lemma_kraft_units_run(lengths: Seq<u8>, l: nat, a: int, b: int, len: nat)
    requires
        0 <= a <= b,
        forall|i: int| a <= i < b ==> lengths[i] == len,
    ensures
        kraft_units(lengths, l, b) == kraft_units(lengths, l, a) + (b - a) * code_weight(len, l),
    decreases b - a,
{
    if a < b {
        lemma_kraft_units_run(lengths, l, a, b - 1, len);
        let w = code_weight(len, l);
        assert((b - 1 - a) * w + w == (b - a) * w) by (nonlinear_arith);
    } else {
        assert((b - a) * code_weight(len, l) == 0) by (nonlinear_arith)
            requires
                b - a == 0,
        ;
    }
}

/// A run of symbols of one length leaves the longest length at the larger
/// of what it was and that length.
pub proof fn lemma_max_length_run(lengths: Seq<u8>, a: int, b: int, len: nat)
    requires
        0 <= a < b,
        forall|i: int| a <= i < b ==> lengths[i] == len,
    ensures
        max_length(lengths, b) == if len > max_length(lengths, a) {
            len
        } else {
            max_length(lengths, a)
        },
    decreases b - a,
{
    if a + 1 < b {
        lemma_max_length_run(lengths, a, b - 1, len);
    }
}

/// The lowest bit goes to the top, and the rest is reversed below it.
pub proof fn lemma_reversed_bits_unfold(c: nat, n: nat)
    requires
        n > 0,
    ensures
        reversed_bits(c, n) == (c % 2) * pow2((n - 1) as nat) + reversed_bits(c / 2, (n - 1) as nat),
{
    let p = pow2((n - 1) as nat);
    let bit = c % 2;
    assert(bit * p == if bit == 1 { p } else { 0 }) by (nonlinear_arith)
        requires
            bit == 0 || bit == 1,
    ;
}

/// A reversed field of `n` bits is below `2^n`.
pub proof fn lemma_reversed_bits_bound(c: nat, n: nat)
    ensures
        reversed_bits(c, n) < pow2(n),
    decreases n,
{
    lemma2_to64();
    if n > 0 {
        lemma_reversed_bits_bound(c / 2, (n - 1) as nat);
        lemma_pow2_unfold(n);
    }
}

/// What resolving finds is one of the symbols looked at, and its code
/// matches.
pub proof fn lemma_resolve_matches(lengths: Seq<u8>, v: nat, k: int)
    ensures
        resolve(lengths, v, k) matches Some(s) ==> 0 <= s < k && code_matches(lengths, s, v),
        resolve(lengths, v, k) is None ==> forall|s: int| 0 <= s < k ==> !code_matches(lengths, s, v),
    decreases k,
{
    if k > 0 {
        lemma_resolve_matches(lengths, v, k - 1);
    }
}

/// The table of a valid length vector is well formed.
pub proof fn lemma_canonical_table_wf(lengths: Seq<u8>)
    requires
        lengths_valid(lengths),
    ensures
        canonical_table(lengths).wf(),
{
    let n = lengths.len() as int;
    let t = canonical_table(lengths);
    lemma_max_length_valid(lengths, n);
    assert forall|v: int| 0 <= v < t.slots.len() implies (#[trigger] t.slots[v] matches Some(c) ==> 1
        <= c.length <= t.max_bits && c.symbol < MAX_SYMBOLS) by {
        lemma_resolve_matches(lengths, v as nat, n);
        if let Some(s) = resolve(lengths, v as nat, n) {
            lemma_max_length_bounds(lengths, n, s);
        }
    }
}

/// The longest length is the length of some symbol, so it obeys every bound
/// that all lengths obey.
pub proof fn lemma_max_length_valid(lengths: Seq<u8>, k: int)
    requires
        0 <= k <= lengths.len(),
        forall|i: int| 0 <= i < lengths.len() ==> lengths[i] <= MAX_CODE_BITS,
    ensures
        max_length(lengths, k) <= MAX_CODE_BITS,
    decreases k,
{
    if k > 0 {
        lemma_max_length_valid(lengths, k - 1);
    }
}

/// Reverses the low `len` bits of `v`.
pub fn reverse_bits(v: u32, len: usize) -> (r: u32)
    requires
        len <= 32,
    ensures
        r == reversed_bits(v as nat, len as nat),
{
    let mut r: u32 = 0;
    let mut rest: u32 = v;
    let mut i: usize = 0;
    proof {
        lemma2_to64();
        assert(r * pow2(len as nat) == 0) by (nonlinear_arith)
            requires
                r == 0,
        ;
    }
    while i < len
        invariant
            i <= len <= 32,
            r < pow2(i as nat),
            r * pow2((len - i) as nat) + reversed_bits(rest as nat, (len - i) as nat) == reversed_bits(
                v as nat,
                len as nat,
            ),
        decreases len - i,
    {
        proof {
            let p = pow2((len - i - 1) as nat);
            lemma_reversed_bits_unfold(rest as nat, (len - i) as nat);
            lemma_pow2_unfold((len - i) as nat);
            lemma_pow2_unfold((i + 1) as nat);
            lemma2_to64();
            if i + 1 < 32 {
                lemma_pow2_strictly_increases((i + 1) as nat, 32);
            }
            assert(r * (2 * p) + (rest % 2) * p == (2 * r + rest % 2) * p) by (nonlinear_arith);
            assert(((r << 1) | (rest & 1)) == r * 2 + rest % 2) by (bit_vector)
                requires
                    r < 0x8000_0000u32,
            ;
            assert(rest >> 1 == rest / 2) by (bit_vector);
        }
        r = (r << 1) | (rest & 1);
        rest = rest >> 1;
        i = i + 1;
    }
    proof {
        lemma2_to64();
        assert(r * pow2(0) == r) by (nonlinear_arith)
            requires
                pow2(0) == 1,
        ;
    }
    r
}

} // verus!
