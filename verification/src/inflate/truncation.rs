//! Decoding a stream that was cut short: every part of the decoder gives on
//! a prefix of the data what it gives on the whole, or `InputTooShort`. So a
//! truncated stream never decodes to something else than the whole stream
//! does, and a stream that is cut inside its blocks is always refused.

use crate::inflate::bits::{bits_at, bits_left, lemma_bits_at_agree, next_byte_boundary};
use crate::inflate::canonical::{canonical_table, HuffmanView};
use crate::inflate::format::{
    code_length_code_lengths, code_length_step, decode_block, decode_blocks, decode_code_lengths,
    decode_dynamic_tables, decode_match, decode_stored, decode_symbols, dist_extra_bits,
    lemma_code_length_step_grows, lemma_decode_block_advances, lemma_decode_blocks_advances,
    lemma_decode_dynamic_tables_advances, lemma_decode_match_in_range, lemma_decode_symbol_advances,
    lemma_fixed_tables_wf, length_extra_bits, END_OF_BLOCK, LAST_LENGTH_SYMBOL,
};
use crate::inflate::huffman::{decode_symbol, fixed_dist_lengths, fixed_litlen_lengths};
use crate::inflate::{bytes_decoded, inflated, InflateError};
use vstd::prelude::*;

verus! {

/// `short` is the beginning of `full`.
pub open spec fn is_prefix(short: Seq<u8>, full: Seq<u8>) -> bool {
    &&& short.len() <= full.len()
    &&& forall|i: int| 0 <= i < short.len() ==> short[i] == full[i]
}

/// The result on a prefix is the result on the whole, or `InputTooShort`.
pub open spec fn cut_short<T>(short: Result<T, InflateError>, full: Result<T, InflateError>) -> bool {
    short == full || short == Err::<T, InflateError>(InflateError::InputTooShort)
}

/// A field that lies within a prefix has the same value in the whole.
pub proof fn lemma_bits_at_prefix(short: Seq<u8>, full: Seq<u8>, pos: nat, n: nat)
    requires
        is_prefix(short, full),
        n <= bits_left(short, pos),
    ensures
        bits_at(short, pos, n) == bits_at(full, pos, n),
{
    lemma_bits_at_agree(short, full, pos, n);
}

/// Reading a symbol from a prefix.
pub proof fn lemma_decode_symbol_prefix(t: HuffmanView, short: Seq<u8>, full: Seq<u8>, pos: nat)
    requires
        is_prefix(short, full),
    ensures
        cut_short(decode_symbol(t, short, pos), decode_symbol(t, full, pos)),
{
    if bits_left(short, pos) >= t.max_bits {
        lemma_bits_at_prefix(short, full, pos, t.max_bits);
    }
}

/// Decoding a match from a prefix.
pub proof fn lemma_decode_match_prefix(
    dist: HuffmanView,
    short: Seq<u8>,
    full: Seq<u8>,
    pos: nat,
    out: Seq<u8>,
    sym: nat,
)
    requires
        is_prefix(short, full),
    ensures
        cut_short(decode_match(dist, short, pos, out, sym), decode_match(dist, full, pos, out, sym)),
{
    let length_bits = length_extra_bits(sym);
    if bits_left(short, pos) >= length_bits {
        lemma_bits_at_prefix(short, full, pos, length_bits);
        lemma_decode_symbol_prefix(dist, short, full, pos + length_bits);
        if let Ok((d, after)) = decode_symbol(dist, short, pos + length_bits) {
            if bits_left(short, after) >= dist_extra_bits(d) {
                lemma_bits_at_prefix(short, full, after, dist_extra_bits(d));
            }
        }
    }
}

/// Decoding the symbols of a block from a prefix.
pub proof fn lemma_decode_symbols_prefix(
    lit: HuffmanView,
    dist: HuffmanView,
    short: Seq<u8>,
    full: Seq<u8>,
    pos: nat,
    out: Seq<u8>,
)
    requires
        is_prefix(short, full),
        lit.wf(),
        dist.wf(),
    ensures
        cut_short(decode_symbols(lit, dist, short, pos, out), decode_symbols(lit, dist, full, pos, out)),
    decreases bits_left(short, pos),
{
    lemma_decode_symbol_prefix(lit, short, full, pos);
    lemma_decode_symbol_advances(lit, short, pos);
    if let Ok((sym, after)) = decode_symbol(lit, short, pos) {
        if sym < END_OF_BLOCK {
            lemma_decode_symbols_prefix(lit, dist, short, full, after, out.push(sym as u8));
        } else if sym > END_OF_BLOCK && sym <= LAST_LENGTH_SYMBOL {
            lemma_decode_match_prefix(dist, short, full, after, out, sym);
            lemma_decode_match_in_range(dist, short, after, out, sym);
            if let Ok(d) = decode_match(dist, short, after, out, sym) {
                lemma_decode_symbols_prefix(lit, dist, short, full, d.pos, d.out);
            }
        }
    }
}

/// Decoding a stored block from a prefix.
pub proof fn lemma_decode_stored_prefix(short: Seq<u8>, full: Seq<u8>, pos: nat, out: Seq<u8>)
    requires
        is_prefix(short, full),
    ensures
        cut_short(decode_stored(short, pos, out), decode_stored(full, pos, out)),
{
    let start = next_byte_boundary(pos);
    let first = (start / 8) as int;
    if bits_left(short, start) >= 32 {
        let len = short[first] + 256 * short[first + 1];
        if bits_left(short, start + 32) >= 8 * len {
            assert(short.subrange(first + 4, first + 4 + len) =~= full.subrange(first + 4, first + 4 + len));
        }
    }
}

/// The lengths of the code-length code, read from a prefix that holds them.
pub proof fn lemma_code_length_code_lengths_prefix(short: Seq<u8>, full: Seq<u8>, pos: nat, count: nat)
    requires
        is_prefix(short, full),
        3 * count <= bits_left(short, pos),
    ensures
        code_length_code_lengths(short, pos, count) == code_length_code_lengths(full, pos, count),
    decreases count,
{
    if count > 0 {
        lemma_code_length_code_lengths_prefix(short, full, pos, (count - 1) as nat);
        lemma_bits_at_prefix(short, full, pos + 3 * (count - 1) as nat, 3);
    }
}

/// One step of reading code lengths from a prefix.
pub proof fn lemma_code_length_step_prefix(
    short: Seq<u8>,
    full: Seq<u8>,
    pos: nat,
    lens: Seq<u8>,
    total: nat,
    sym: nat,
)
    requires
        is_prefix(short, full),
    ensures
        cut_short(
            code_length_step(short, pos, lens, total, sym),
            code_length_step(full, pos, lens, total, sym),
        ),
{
    if sym == 16 && bits_left(short, pos) >= 2 {
        lemma_bits_at_prefix(short, full, pos, 2);
    }
    if sym == 17 && bits_left(short, pos) >= 3 {
        lemma_bits_at_prefix(short, full, pos, 3);
    }
    if sym == 18 && bits_left(short, pos) >= 7 {
        lemma_bits_at_prefix(short, full, pos, 7);
    }
}

/// Reading the code lengths of a dynamic block from a prefix.
pub proof fn lemma_decode_code_lengths_prefix(
    cl: HuffmanView,
    short: Seq<u8>,
    full: Seq<u8>,
    pos: nat,
    lens: Seq<u8>,
    total: nat,
)
    requires
        is_prefix(short, full),
    ensures
        cut_short(
            decode_code_lengths(cl, short, pos, lens, total),
            decode_code_lengths(cl, full, pos, lens, total),
        ),
    decreases total - lens.len(),
{
    if lens.len() < total {
        lemma_decode_symbol_prefix(cl, short, full, pos);
        if let Ok((sym, after)) = decode_symbol(cl, short, pos) {
            lemma_code_length_step_prefix(short, full, after, lens, total, sym);
            lemma_code_length_step_grows(short, after, lens, total, sym);
            if let Ok((next, more)) = code_length_step(short, after, lens, total, sym) {
                lemma_decode_code_lengths_prefix(cl, short, full, next, more, total);
            }
        }
    }
}

/// Reading the header of a dynamic block from a prefix.
pub proof fn lemma_decode_dynamic_tables_prefix(short: Seq<u8>, full: Seq<u8>, pos: nat)
    requires
        is_prefix(short, full),
    ensures
        cut_short(decode_dynamic_tables(short, pos), decode_dynamic_tables(full, pos)),
{
    if bits_left(short, pos) >= 14 {
        lemma_bits_at_prefix(short, full, pos, 5);
        lemma_bits_at_prefix(short, full, pos + 5, 5);
        lemma_bits_at_prefix(short, full, pos + 10, 4);
        let hlit = bits_at(short, pos, 5) + 257;
        let hdist = bits_at(short, pos + 5, 5) + 1;
        let hclen = bits_at(short, pos + 10, 4) + 4;
        if bits_left(short, pos + 14) >= 3 * hclen {
            lemma_code_length_code_lengths_prefix(short, full, pos + 14, hclen);
            let cl_lengths = code_length_code_lengths(short, pos + 14, hclen);
            lemma_decode_code_lengths_prefix(
                canonical_table(cl_lengths),
                short,
                full,
                pos + 14 + 3 * hclen,
                Seq::empty(),
                hlit + hdist,
            );
        }
    }
}

/// Decoding the body of a block from a prefix.
pub proof fn lemma_decode_block_prefix(short: Seq<u8>, full: Seq<u8>, pos: nat, out: Seq<u8>, btype: nat)
    requires
        is_prefix(short, full),
    ensures
        cut_short(decode_block(short, pos, out, btype), decode_block(full, pos, out, btype)),
{
    if btype == 0 {
        lemma_decode_stored_prefix(short, full, pos, out);
    } else if btype == 1 {
        lemma_fixed_tables_wf();
        lemma_decode_symbols_prefix(
            canonical_table(fixed_litlen_lengths()),
            canonical_table(fixed_dist_lengths()),
            short,
            full,
            pos,
            out,
        );
    } else if btype == 2 {
        lemma_decode_dynamic_tables_prefix(short, full, pos);
        lemma_decode_dynamic_tables_advances(short, pos);
        if let Ok(tables) = decode_dynamic_tables(short, pos) {
            lemma_decode_symbols_prefix(tables.lit, tables.dist, short, full, tables.pos, out);
        }
    }
}

/// Decoding the blocks of a stream from a prefix.
pub proof fn lemma_decode_blocks_prefix(short: Seq<u8>, full: Seq<u8>, pos: nat, out: Seq<u8>)
    requires
        is_prefix(short, full),
    ensures
        cut_short(decode_blocks(short, pos, out), decode_blocks(full, pos, out)),
    decreases bits_left(short, pos),
{
    if bits_left(short, pos) >= 3 {
        lemma_bits_at_prefix(short, full, pos, 1);
        lemma_bits_at_prefix(short, full, pos + 1, 2);
        let btype = bits_at(short, pos + 1, 2);
        lemma_decode_block_prefix(short, full, pos + 3, out, btype);
        lemma_decode_block_advances(short, pos + 3, out, btype);
        if let Ok(d) = decode_block(short, pos + 3, out, btype) {
            if bits_at(short, pos, 1) == 0 {
                lemma_decode_blocks_prefix(short, full, d.pos, d.out);
            }
        }
    }
}

/// The truncation law: a zlib stream of which only the first `keep` bytes
/// are there decodes to what the whole stream decodes to, or fails with
/// `InputTooShort`. It never gives a shorter or another output, and no other
/// error than the whole stream gives.
///
/// The first case is there because the decoder does not look at what
/// follows the final block: bytes cut from there are not missed.
pub proof fn lemma_truncation(input: Seq<u8>, keep: nat)
    requires
        keep <= input.len(),
    ensures
        cut_short(inflated(input.take(keep as int)), inflated(input)),
{
    let short = input.take(keep as int);
    if keep >= 2 {
        let short_body = short.subrange(2, short.len() as int);
        let full_body = input.subrange(2, input.len() as int);
        assert(is_prefix(short_body, full_body));
        lemma_decode_blocks_prefix(short_body, full_body, 0, Seq::empty());
    }
}

/// A stream that decodes has at least the bytes that hold its blocks.
pub proof fn lemma_bytes_decoded_in_range(input: Seq<u8>)
    requires
        inflated(input) is Ok,
    ensures
        3 <= bytes_decoded(input) <= input.len(),
{
    lemma_decode_blocks_advances(input.subrange(2, input.len() as int), 0, Seq::empty());
}

/// Truncation detection: a stream that decodes, cut anywhere before the end
/// of its final block, is refused with `InputTooShort`.
pub proof fn lemma_cut_blocks_are_too_short(input: Seq<u8>, keep: nat)
    requires
        inflated(input) is Ok,
        keep < bytes_decoded(input),
    ensures
        inflated(input.take(keep as int)) == Err::<Seq<u8>, InflateError>(InflateError::InputTooShort),
{
    lemma_bytes_decoded_in_range(input);
    let short = input.take(keep as int);
    if keep >= 2 {
        let short_body = short.subrange(2, short.len() as int);
        let full_body = input.subrange(2, input.len() as int);
        assert(is_prefix(short_body, full_body));
        lemma_decode_blocks_prefix(short_body, full_body, 0, Seq::empty());
        lemma_decode_blocks_advances(short_body, 0, Seq::empty());
    }
}

/// A stream that decodes still decodes to the same output after any bytes
/// are appended to it.
pub proof fn lemma_extension(input: Seq<u8>, more: Seq<u8>)
    requires
        inflated(input) is Ok,
    ensures
        inflated(input + more) == inflated(input),
{
    let whole = input + more;
    assert(whole.take(input.len() as int) =~= input);
    lemma_truncation(whole, input.len());
}

} // verus!
