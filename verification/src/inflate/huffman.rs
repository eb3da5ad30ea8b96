//! Huffman decode tables: built from code lengths, read with one lookup.

use crate::inflate::bitreader::BitReader;
use crate::inflate::bits::{bits_at, bits_left, lemma_bits_at_bound};
use crate::inflate::canonical::{
    canonical_code, canonical_slot, canonical_table, code_count, code_matches, codes_fit, count_len,
    first_code, kraft_units, lemma_canonical_table_wf, lemma_count_len_bound,
    lemma_count_len_increases, lemma_incomplete_codes, lemma_kraft_units_compare,
    lemma_kraft_units_first_code, lemma_kraft_units_run, lemma_max_length_bounds,
    lemma_max_length_run, lemma_reversed_bits_bound, lengths_valid, max_length, no_code,
    oversubscribed, resolve, reverse_bits, single_one_bit_code, slot_of, table_bits,
    undersubscribed, Code, HuffmanView, MAX_CODE_BITS, MAX_SYMBOLS,
};
use crate::inflate::InflateError;
use vstd::arithmetic::div_mod::{
    lemma_mod_add_multiples_vanish, lemma_mod_decreases, lemma_mod_equivalence, lemma_small_mod,
};
use vstd::arithmetic::power2::{
    lemma2_to64, lemma_pow2_pos, lemma_pow2_strictly_increases, lemma_pow2_unfold, pow2,
};
use vstd::bits::lemma_usize_shl_is_mul;
use vstd::prelude::*;

verus! {

/// The value of a table slot to which no code is assigned.
const EMPTY_SLOT: u32 = 0xFFFF_FFFF;

/// A table slot holds the symbol in its upper bits and the code length in
/// its low eight bits, or `EMPTY_SLOT`.
pub closed spec fn slot_view(e: u32) -> Option<Code> {
    if e == EMPTY_SLOT {
        None
    } else {
        Some(Code { symbol: (e / 256) as nat, length: (e % 256) as nat })
    }
}

/// A decode table for one prefix code.
///
/// `table` has `2^max_bits` slots; the slot at the next `max_bits` bits of
/// the stream tells which code those bits start with.
pub struct HuffmanTable {
    max_bits: usize,
    table: Vec<u32>,
}

impl View for HuffmanTable {
    type V = HuffmanView;

    closed spec fn view(&self) -> HuffmanView {
        HuffmanView {
            max_bits: self.max_bits as nat,
            slots: Seq::new(self.table@.len(), |v: int| slot_view(self.table@[v])),
        }
    }
}

/// What reading one symbol at bit `pos` of `data` gives: the symbol and the
/// position after its code, or the reason why there is none.
///
/// The table is looked up at the next `max_bits` bits, so that many bits must
/// remain even where the code itself is shorter.
pub open spec fn decode_symbol(t: HuffmanView, data: Seq<u8>, pos: nat) -> Result<
    (nat, nat),
    InflateError,
> {
    if bits_left(data, pos) < t.max_bits {
        Err(InflateError::InputTooShort)
    } else {
        match t.slots[bits_at(data, pos, t.max_bits) as int] {
            Some(c) => Ok((c.symbol, pos + c.length)),
            None => Err(InflateError::BadHuffmanCode),
        }
    }
}

/// The code lengths of the fixed literal/length code.
pub open spec fn fixed_litlen_lengths() -> Seq<u8> {
    Seq::new(
        288,
        |i: int|
            if i < 144 {
                8u8
            } else if i < 256 {
                9u8
            } else if i < 280 {
                7u8
            } else {
                8u8
            },
    )
}

/// The code lengths of the fixed distance code.
pub open spec fn fixed_dist_lengths() -> Seq<u8> {
    Seq::new(32, |i: int| 5u8)
}

/// `2^n` as a machine number.
fn power_of_two(n: usize) -> (r: usize)
    requires
        n <= MAX_CODE_BITS,
    ensures
        r == pow2(n as nat),
        1 <= r <= 32768,
{
    proof {
        lemma2_to64();
        if n < 15 {
            lemma_pow2_strictly_increases(n as nat, 15);
        }
        lemma_pow2_pos(n as nat);
        lemma_usize_shl_is_mul(1, n);
    }
    1usize << n
}

/// A vector of `n` copies of `value`.
fn filled(n: usize, value: u32) -> (v: Vec<u32>)
    ensures
        v@.len() == n,
        forall|i: int| 0 <= i < n ==> v@[i] == value,
{
    let mut v: Vec<u32> = Vec::new();
    let mut i: usize = 0;
    while i < n
        invariant
            i <= n,
            v@.len() == i,
            forall|j: int| 0 <= j < i ==> v@[j] == value,
        decreases n - i,
    {
        v.push(value);
        i = i + 1;
    }
    v
}

/// Counts the codes of each length and finds the longest length; fails on a
/// length above `MAX_CODE_BITS`.
fn count_lengths(lengths: &[u8]) -> (r: Option<(Vec<u32>, usize)>)
    requires
        lengths@.len() <= MAX_SYMBOLS,
    ensures
        match r {
            Some((counts, longest)) => {
                &&& forall|i: int| 0 <= i < lengths@.len() ==> lengths@[i] <= MAX_CODE_BITS
                &&& counts@.len() == MAX_CODE_BITS + 1
                &&& forall|l: int|
                    0 <= l <= MAX_CODE_BITS ==> counts@[l] == code_count(lengths@, l as nat)
                &&& longest == max_length(lengths@, lengths@.len() as int)
                &&& longest <= MAX_CODE_BITS
            },
            None => exists|i: int| 0 <= i < lengths@.len() && lengths@[i] > MAX_CODE_BITS,
        },
{
    let mut counts = filled(MAX_CODE_BITS + 1, 0);
    let mut longest: usize = 0;
    let mut i: usize = 0;
    while i < lengths.len()
        invariant
            i <= lengths@.len() <= MAX_SYMBOLS,
            counts@.len() == MAX_CODE_BITS + 1,
            counts@[0] == 0,
            forall|l: int| 1 <= l <= MAX_CODE_BITS ==> counts@[l] == count_len(lengths@, l as nat, i as int),
            forall|j: int| 0 <= j < i ==> lengths@[j] <= MAX_CODE_BITS,
            longest == max_length(lengths@, i as int),
            longest <= MAX_CODE_BITS,
        decreases lengths@.len() - i,
    {
        let l = lengths[i] as usize;
        if l > MAX_CODE_BITS {
            return None;
        }
        if l > 0 {
            proof {
                lemma_count_len_bound(lengths@, l as nat, i as int);
            }
            let c = counts[l];
            counts.set(l, c + 1);
        }
        if l > longest {
            longest = l;
        }
        i = i + 1;
    }
    Some((counts, longest))
}

/// Runs the canonical recurrence up to `bits`: the first code of each
/// length. Fails where the codes of some length do not fit into the numbers
/// of that many bits.
fn first_codes(counts: &Vec<u32>, bits: usize, Ghost(lengths): Ghost<Seq<u8>>) -> (r: Option<Vec<u32>>)
    requires
        1 <= bits <= MAX_CODE_BITS,
        lengths.len() <= MAX_SYMBOLS,
        counts@.len() == MAX_CODE_BITS + 1,
        forall|l: int| 0 <= l <= MAX_CODE_BITS ==> counts@[l] == code_count(lengths, l as nat),
    ensures
        match r {
            Some(next) => {
                &&& next@.len() == MAX_CODE_BITS + 1
                &&& forall|l: int| 1 <= l <= bits ==> #[trigger] next@[l] == first_code(lengths, l as nat)
                &&& forall|l: nat| 1 <= l <= bits ==> #[trigger] codes_fit(lengths, l)
            },
            None => exists|l: nat| 1 <= l <= bits && !#[trigger] codes_fit(lengths, l),
        },
{
    let mut next = filled(MAX_CODE_BITS + 1, 0);
    let mut code: u32 = 0;
    let mut limit: u32 = 1;
    let mut l: usize = 1;
    proof {
        lemma2_to64();
    }
    while l <= bits
        invariant
            1 <= l <= bits + 1,
            bits <= MAX_CODE_BITS,
            lengths.len() <= MAX_SYMBOLS,
            counts@.len() == MAX_CODE_BITS + 1,
            forall|k: int| 0 <= k <= MAX_CODE_BITS ==> counts@[k] == code_count(lengths, k as nat),
            next@.len() == MAX_CODE_BITS + 1,
            code == first_code(lengths, (l - 1) as nat),
            limit == pow2((l - 1) as nat),
            limit <= 32768,
            code + counts@[l - 1] <= limit,
            forall|k: int| 1 <= k < l ==> #[trigger] next@[k] == first_code(lengths, k as nat),
            forall|k: nat| 1 <= k < l ==> #[trigger] codes_fit(lengths, k),
        decreases bits + 1 - l,
    {
        proof {
            lemma_pow2_unfold(l as nat);
            lemma2_to64();
            if l < 15 {
                lemma_pow2_strictly_increases(l as nat, 15);
            }
        }
        code = (code + counts[l - 1]) * 2;
        limit = limit * 2;
        if counts[l] > limit - code {
            assert(!codes_fit(lengths, l as nat));
            return None;
        }
        assert(codes_fit(lengths, l as nat));
        next.set(l, code);
        l = l + 1;
    }
    Some(next)
}

/// Two numbers in a window of `m` with the same remainder are one number.
proof fn lemma_same_residue(a: int, b: int, m: int)
    requires
        0 < m,
        a <= b < a + m,
        a % m == b % m,
    ensures
        a == b,
{
    lemma_mod_equivalence(b, a, m);
    lemma_small_mod((b - a) as nat, m as nat);
}

/// The low bits of `v`, of which there are `step` values, are `rev`.
spec fn low_bits_are(v: int, step: int, rev: int) -> bool {
    v % step == rev
}

/// Writes `entry` into every slot of `table` whose index has the low bits
/// `rev`, where `step` is the number of values of those bits.
fn fill_slots(table: &mut Vec<u32>, rev: usize, step: usize, entry: u32)
    requires
        0 < step <= 32768,
        rev < step,
        old(table)@.len() <= 32768,
    ensures
        final(table)@.len() == old(table)@.len(),
        forall|v: int|
            0 <= v < old(table)@.len() ==> #[trigger] final(table)@[v] == if v % (step as int) == rev {
                entry
            } else {
                old(table)@[v]
            },
{
    let size = table.len();
    let mut idx: usize = rev;
    proof {
        lemma_small_mod(rev as nat, step as nat);
        assert forall|v: int| 0 <= v < size && #[trigger] low_bits_are(v, step as int, rev as int) implies v
            >= idx by {
            lemma_mod_decreases(v as nat, step as nat);
        }
    }
    while idx < size
        invariant
            0 < step <= 32768,
            rev < step,
            size == old(table)@.len(),
            size <= 32768,
            table@.len() == size,
            idx % step == rev,
            forall|v: int|
                0 <= v < size ==> #[trigger] table@[v] == if low_bits_are(v, step as int, rev as int) && v
                    < idx {
                    entry
                } else {
                    old(table)@[v]
                },
        decreases size + step - idx,
    {
        proof {
            lemma_mod_add_multiples_vanish(idx as int, step as int);
            assert forall|v: int|
                0 <= v < size && #[trigger] low_bits_are(v, step as int, rev as int) && v < idx
                    + step implies v <= idx by {
                if v > idx {
                    lemma_same_residue(idx as int, v, step as int);
                }
            }
        }
        table.set(idx, entry);
        idx = idx + step;
    }
    proof {
        assert forall|v: int| 0 <= v < size implies #[trigger] table@[v] == if v % (step as int) == rev {
            entry
        } else {
            old(table)@[v]
        } by {
            assert(low_bits_are(v, step as int, rev as int) == (v % (step as int) == rev));
        }
    }
}

/// The codes of a valid length vector are below `2^length`.
proof fn lemma_canonical_code_bound(lengths: Seq<u8>, s: int)
    requires
        0 <= s < lengths.len(),
        lengths[s] > 0,
        codes_fit(lengths, lengths[s] as nat),
    ensures
        canonical_code(lengths, s) < pow2(lengths[s] as nat),
{
    lemma_count_len_increases(lengths, lengths[s] as nat, s, lengths.len() as int);
}

/// Fills the table of `2^bits` slots, symbol by symbol.
fn fill_table(lengths: &[u8], bits: usize, first: Vec<u32>) -> (table: Vec<u32>)
    requires
        lengths@.len() <= MAX_SYMBOLS,
        1 <= bits <= MAX_CODE_BITS,
        bits == table_bits(lengths@),
        first@.len() == MAX_CODE_BITS + 1,
        forall|l: int| 1 <= l <= bits ==> #[trigger] first@[l] == first_code(lengths@, l as nat),
        forall|l: nat| 1 <= l <= bits ==> #[trigger] codes_fit(lengths@, l),
    ensures
        table@.len() == pow2(bits as nat),
        forall|v: int|
            0 <= v < table@.len() ==> slot_view(#[trigger] table@[v]) == canonical_slot(lengths@, v as nat),
{
    let size = power_of_two(bits);
    let mut table = filled(size, EMPTY_SLOT);
    let mut next = first;
    let mut sym: usize = 0;
    while sym < lengths.len()
        invariant
            sym <= lengths@.len() <= MAX_SYMBOLS,
            1 <= bits <= MAX_CODE_BITS,
            bits == table_bits(lengths@),
            size == pow2(bits as nat),
            size <= 32768,
            table@.len() == size,
            next@.len() == MAX_CODE_BITS + 1,
            forall|l: nat| 1 <= l <= bits ==> #[trigger] codes_fit(lengths@, l),
            forall|l: int|
                1 <= l <= bits ==> #[trigger] next@[l] == first_code(lengths@, l as nat) + count_len(
                    lengths@,
                    l as nat,
                    sym as int,
                ),
            forall|v: int|
                0 <= v < size ==> slot_view(#[trigger] table@[v]) == slot_of(
                    lengths@,
                    resolve(lengths@, v as nat, sym as int),
                ),
        decreases lengths@.len() - sym,
    {
        let len = lengths[sym] as usize;
        if len > 0 {
            proof {
                lemma_max_length_bounds(lengths@, lengths@.len() as int, sym as int);
                assert(codes_fit(lengths@, len as nat));
                lemma_canonical_code_bound(lengths@, sym as int);
                lemma_reversed_bits_bound(canonical_code(lengths@, sym as int), len as nat);
                lemma2_to64();
                if len < 15 {
                    lemma_pow2_strictly_increases(len as nat, 15);
                }
            }
            let code = next[len];
            next.set(len, code + 1);
            let rev = reverse_bits(code, len) as usize;
            let step = power_of_two(len);
            let entry: u32 = ((sym as u32) << 8) | (len as u32);
            proof {
                let s = sym as u32;
                let l = len as u32;
                assert(((s << 8) | l) == s * 256 + l) by (bit_vector)
                    requires
                        s < 0x1_0000u32,
                        l < 16u32,
                ;
            }
            let ghost before = table@;
            fill_slots(&mut table, rev, step, entry);
            proof {
                assert(slot_view(entry) == Some(Code { symbol: sym as nat, length: len as nat }));
                assert forall|v: int| 0 <= v < size implies slot_view(#[trigger] table@[v]) == slot_of(
                    lengths@,
                    resolve(lengths@, v as nat, sym + 1),
                ) by {
                    let found = resolve(lengths@, v as nat, sym as int);
                    assert(slot_view(before[v]) == slot_of(lengths@, found));
                    assert(code_matches(lengths@, sym as int, v as nat) == (v % (step as int) == rev));
                }
            }
        }
        sym = sym + 1;
    }
    table
}

/// The fixed literal/length code is valid and nine bits wide.
pub proof fn lemma_fixed_litlen_valid()
    ensures
        lengths_valid(fixed_litlen_lengths()),
        table_bits(fixed_litlen_lengths()) == 9,
{
    let f = fixed_litlen_lengths();
    lemma2_to64();
    lemma_kraft_units_run(f, 15, 0, 144, 8);
    lemma_kraft_units_run(f, 15, 144, 256, 9);
    lemma_kraft_units_run(f, 15, 256, 280, 7);
    lemma_kraft_units_run(f, 15, 280, 288, 8);
    assert(kraft_units(f, 15, 0) == 0);
    lemma_max_length_run(f, 0, 144, 8);
    lemma_max_length_run(f, 144, 256, 9);
    lemma_max_length_run(f, 256, 280, 7);
    lemma_max_length_run(f, 280, 288, 8);
    assert(max_length(f, 0) == 0);
}

/// The fixed distance code is valid and five bits wide.
pub proof fn lemma_fixed_dist_valid()
    ensures
        lengths_valid(fixed_dist_lengths()),
        table_bits(fixed_dist_lengths()) == 5,
{
    let f = fixed_dist_lengths();
    lemma2_to64();
    lemma_kraft_units_run(f, 15, 0, 32, 5);
    assert(kraft_units(f, 15, 0) == 0);
    lemma_max_length_run(f, 0, 32, 5);
    assert(max_length(f, 0) == 0);
}

impl HuffmanTable {
    /// Builds the decode table of the canonical code with the given code
    /// lengths, one for each symbol; length 0 gives the symbol no code.
    ///
    /// The table is as wide as the longest code, and one bit wide when no
    /// symbol has a code. Fails with `BadHuffmanCode` on more than
    /// `MAX_SYMBOLS` symbols, on a length above `MAX_CODE_BITS`, on lengths
    /// that are oversubscribed, and on lengths that are undersubscribed.
    ///
    /// Two undersubscribed vectors are accepted all the same, as streams of
    /// compliant encoders hold them: the vector without any code, which is
    /// the distance code of a block without a match, and a vector with a
    /// single code of one bit, which is the code of an alphabet of which one
    /// symbol occurs. The slots that no code reaches stay unassigned.
    pub fn from_lengths(lengths: &[u8]) -> (r: Result<HuffmanTable, InflateError>)
        ensures
            match r {
                Ok(t) => lengths_valid(lengths@) && t@ == canonical_table(lengths@) && t@.wf(),
                Err(e) => e == InflateError::BadHuffmanCode && !lengths_valid(lengths@),
            },
            oversubscribed(lengths@) ==> r is Err,
            undersubscribed(lengths@) && !no_code(lengths@) && !single_one_bit_code(lengths@) ==> r is Err,
            (exists|i: int| 0 <= i < lengths@.len() && lengths@[i] > MAX_CODE_BITS) ==> r is Err,
    {
        if lengths.len() > MAX_SYMBOLS {
            return Err(InflateError::BadHuffmanCode);
        }
        let (counts, longest) = match count_lengths(lengths) {
            Some(found) => found,
            None => {
                return Err(InflateError::BadHuffmanCode);
            },
        };
        let bits: usize = if longest == 0 {
            1
        } else {
            longest
        };
        proof {
            assert forall|i: int| 0 <= i < lengths@.len() implies lengths@[i] <= bits by {
                lemma_max_length_bounds(lengths@, lengths@.len() as int, i);
            }
            lemma_kraft_units_compare(lengths@, bits as nat, MAX_CODE_BITS as nat);
        }
        let first = match first_codes(&counts, bits, Ghost(lengths@)) {
            Some(first) => first,
            None => {
                proof {
                    let l = choose|l: nat| 1 <= l <= bits && !#[trigger] codes_fit(lengths@, l);
                    lemma_kraft_units_first_code(lengths@, l);
                    lemma_kraft_units_compare(lengths@, l, MAX_CODE_BITS as nat);
                }
                return Err(InflateError::BadHuffmanCode);
            },
        };
        proof {
            assert(codes_fit(lengths@, bits as nat));
            assert(first@[bits as int] == first_code(lengths@, bits as nat));
            assert(counts@[bits as int] == code_count(lengths@, bits as nat));
            lemma2_to64();
            if bits < 15 {
                lemma_pow2_strictly_increases(bits as nat, 15);
            }
            lemma_kraft_units_first_code(lengths@, bits as nat);
            lemma_incomplete_codes(lengths@);
        }
        // Codes of more than one bit must use all numbers of the table width.
        let used: usize = (first[bits] + counts[bits]) as usize;
        if longest > 1 && used < power_of_two(bits) {
            return Err(InflateError::BadHuffmanCode);
        }
        let table = fill_table(lengths, bits, first);
        let t = HuffmanTable { max_bits: bits, table };
        proof {
            assert(t@.slots =~= canonical_table(lengths@).slots);
            lemma_canonical_table_wf(lengths@);
        }
        Ok(t)
    }

    /// Reads one symbol: looks the next `max_bits` bits up in the table and
    /// moves past the code that they start with.
    ///
    /// Fails with `InputTooShort` when fewer than `max_bits` bits remain, and
    /// with `BadHuffmanCode` when the bits start no code; the reader then
    /// stays where it was.
    pub fn read_symbol(&self, br: &mut BitReader) -> (r: Result<u16, InflateError>)
        requires
            self@.wf(),
            old(br).wf(),
        ensures
            final(br).wf(),
            final(br)@.data == old(br)@.data,
            match decode_symbol(self@, old(br)@.data, old(br)@.pos) {
                Ok((symbol, pos)) => r == Ok::<u16, InflateError>(symbol as u16) && symbol <= u16::MAX
                    && final(br)@.pos == pos,
                Err(e) => r == Err::<u16, InflateError>(e) && final(br)@.pos == old(br)@.pos,
            },
    {
        let v = match br.peek_bits(self.max_bits) {
            Some(v) => v,
            None => {
                return Err(InflateError::InputTooShort);
            },
        };
        proof {
            lemma_bits_at_bound(br@.data, br@.pos, self.max_bits as nat);
        }
        let e = self.table[v as usize];
        assert(self@.slots[v as int] == slot_view(e));
        if e == EMPTY_SLOT {
            return Err(InflateError::BadHuffmanCode);
        }
        proof {
            assert(e & 0xff == e % 256) by (bit_vector);
            assert(e >> 8 == e / 256) by (bit_vector);
        }
        let len = (e & 0xff) as usize;
        let symbol = (e >> 8) as u16;
        let _ = br.read_bits(len);
        Ok(symbol)
    }

    /// The width of the table in bits: the length of the longest code.
    pub fn max_bits(&self) -> (r: usize)
        ensures
            r == self@.max_bits,
    {
        self.max_bits
    }
}

/// A vector that holds `lengths` and then `n` times `value`.
fn push_run(lengths: &mut Vec<u8>, n: usize, value: u8)
    ensures
        final(lengths)@ == old(lengths)@ + Seq::new(n as nat, |i: int| value),
{
    let mut i: usize = 0;
    while i < n
        invariant
            i <= n,
            lengths@ == old(lengths)@ + Seq::new(i as nat, |j: int| value),
        decreases n - i,
    {
        lengths.push(value);
        i = i + 1;
        assert(lengths@ =~= old(lengths)@ + Seq::new(i as nat, |j: int| value));
    }
}

/// The table of the fixed literal/length code: 288 symbols, of which 0 to
/// 143 have 8 bits, 144 to 255 have 9, 256 to 279 have 7 and 280 to 287
/// have 8.
pub fn build_fixed_litlen_table() -> (t: HuffmanTable)
    ensures
        t@ == canonical_table(fixed_litlen_lengths()),
        t@.wf(),
        t@.max_bits == 9,
{
    let mut lengths: Vec<u8> = Vec::new();
    push_run(&mut lengths, 144, 8);
    push_run(&mut lengths, 112, 9);
    push_run(&mut lengths, 24, 7);
    push_run(&mut lengths, 8, 8);
    proof {
        assert(lengths@ =~= fixed_litlen_lengths());
        lemma_fixed_litlen_valid();
    }
    match HuffmanTable::from_lengths(lengths.as_slice()) {
        Ok(t) => t,
        Err(_) => vstd::pervasive::unreached(),
    }
}

/// The table of the fixed distance code: 32 symbols of 5 bits each.
pub fn build_fixed_dist_table() -> (t: HuffmanTable)
    ensures
        t@ == canonical_table(fixed_dist_lengths()),
        t@.wf(),
        t@.max_bits == 5,
{
    let mut lengths: Vec<u8> = Vec::new();
    push_run(&mut lengths, 32, 5);
    proof {
        assert(lengths@ =~= fixed_dist_lengths());
        lemma_fixed_dist_valid();
    }
    match HuffmanTable::from_lengths(lengths.as_slice()) {
        Ok(t) => t,
        Err(_) => vstd::pervasive::unreached(),
    }
}

} // verus!
