//! What holds of the decoder as a whole.

use crate::inflate::bits::{bits_at, bits_left, lemma_bits_at_bound, lemma_bits_at_div_mod};
use crate::inflate::canonical::{
    canonical_code, canonical_table, code_matches, lemma_max_length_bounds, lemma_resolve_matches,
    lengths_valid, reversed_bits, table_bits, Code,
};
use crate::inflate::format::copy_match;
use crate::inflate::huffman::decode_symbol;
use crate::inflate::prefix::lemma_resolve_unique;
use crate::inflate::{header_checksum_ok, inflated, result_is, InflateError};
use vstd::arithmetic::power2::pow2;
use vstd::prelude::*;

verus! {

/// Decoding is determined by the input: any two results that a decoder may
/// give for the same input are both errors, and then the same error, or
/// both outputs, and then the same bytes.
pub proof fn lemma_inflate_deterministic(
    input: Seq<u8>,
    first: Result<Vec<u8>, InflateError>,
    second: Result<Vec<u8>, InflateError>,
)
    requires
        result_is(first, inflated(input)),
        result_is(second, inflated(input)),
    ensures
        first matches Ok(a) ==> second matches Ok(b) && a@ == b@,
        first matches Err(e) ==> second matches Err(f) && e == f,
{
}

/// Every header whose two bytes fail the checksum is refused with
/// `InvalidHeader`, whatever else the bytes say and whatever follows them.
pub proof fn lemma_bad_checksum_rejected(input: Seq<u8>)
    requires
        input.len() >= 2,
        !header_checksum_ok(input[0], input[1]),
    ensures
        inflated(input) == Err::<Seq<u8>, InflateError>(InflateError::InvalidHeader),
{
}

/// The bit-reversal law of the table: the slot for the bits `v` holds
/// symbol `s` exactly when the low bits of `v`, as many as the code of `s`
/// is long, are that code reversed.
pub proof fn lemma_slot_holds_reversed_code(lengths: Seq<u8>, s: int, v: nat)
    requires
        lengths_valid(lengths),
        0 <= s < lengths.len(),
        lengths[s] > 0,
        v < pow2(table_bits(lengths)),
    ensures
        canonical_table(lengths).slots[v as int] == Some(
            Code { symbol: s as nat, length: lengths[s] as nat },
        ) <==> v % pow2(lengths[s] as nat) == reversed_bits(canonical_code(lengths, s), lengths[s] as nat),
{
    let n = lengths.len() as int;
    lemma_resolve_matches(lengths, v, n);
    if code_matches(lengths, s, v) {
        lemma_resolve_unique(lengths, v, s);
    }
}

/// The bit-reversal law of decoding: where enough bits are left for a
/// lookup, symbol `s` is read exactly when the next bits of the stream, as
/// many as the code of `s` is long, are that code reversed; the reader then
/// moves past those bits and no further.
pub proof fn lemma_symbol_read_from_reversed_code(lengths: Seq<u8>, s: int, data: Seq<u8>, pos: nat)
    requires
        lengths_valid(lengths),
        0 <= s < lengths.len(),
        lengths[s] > 0,
        bits_left(data, pos) >= table_bits(lengths),
    ensures
        decode_symbol(canonical_table(lengths), data, pos) == Ok::<(nat, nat), InflateError>(
            (s as nat, pos + lengths[s] as nat),
        ) <==> bits_at(data, pos, lengths[s] as nat) == reversed_bits(
            canonical_code(lengths, s),
            lengths[s] as nat,
        ),
{
    let n = lengths.len() as int;
    let width = table_bits(lengths);
    let len = lengths[s] as nat;
    let v = bits_at(data, pos, width);
    lemma_bits_at_bound(data, pos, width);
    lemma_max_length_bounds(lengths, n, s);
    assert(len + (width - len) as nat == width);
    lemma_bits_at_div_mod(data, pos, len, (width - len) as nat);
    lemma_slot_holds_reversed_code(lengths, s, v);
    lemma_resolve_matches(lengths, v, n);
}

/// What a back-reference appends: the output grows by `length` bytes, what
/// was there stays, and every new byte equals the byte `distance` places
/// before it, which may itself be new.
pub proof fn lemma_copy_match_bytes(out: Seq<u8>, distance: nat, length: nat)
    requires
        1 <= distance <= out.len(),
    ensures
        copy_match(out, distance, length).len() == out.len() + length,
        forall|i: int| 0 <= i < out.len() ==> copy_match(out, distance, length)[i] == out[i],
        forall|i: int|
            out.len() <= i < out.len() + length ==> #[trigger] copy_match(out, distance, length)[i]
                == copy_match(out, distance, length)[i - distance],
    decreases length,
{
    if length > 0 {
        let next = out.push(out[out.len() - distance]);
        lemma_copy_match_bytes(next, distance, (length - 1) as nat);
        let r = copy_match(out, distance, length);
        assert forall|i: int| 0 <= i < out.len() implies r[i] == out[i] by {
            assert(next[i] == out[i]);
        }
        assert forall|i: int| out.len() <= i < out.len() + length implies #[trigger] r[i] == r[i
            - distance] by {
            if i == out.len() {
                assert(r[i] == next[i]);
                assert(r[i - distance] == next[i - distance]);
            }
        }
    }
}

/// A back-reference at distance 1 repeats the last byte of the output
/// `length` times.
pub proof fn lemma_copy_match_run(out: Seq<u8>, length: nat)
    requires
        out.len() >= 1,
    ensures
        copy_match(out, 1, length) == out + Seq::new(length, |i: int| out.last()),
    decreases length,
{
    if length > 0 {
        let next = out.push(out.last());
        lemma_copy_match_run(next, (length - 1) as nat);
        assert(next + Seq::new((length - 1) as nat, |i: int| next.last()) =~= out + Seq::new(
            length,
            |i: int| out.last(),
        ));
    } else {
        assert(out =~= out + Seq::new(0, |i: int| out.last()));
    }
}

} // verus!
