//! The output is append-only: every step of decoding leaves the bytes that
//! were decoded before it in place.

use crate::inflate::bits::{bits_at, bits_left};
use crate::inflate::canonical::{canonical_table, HuffmanView};
use crate::inflate::format::{
    decode_block, decode_blocks, decode_dynamic_tables, decode_match, decode_symbols, dist_base,
    dist_extra_bits, lemma_decode_block_advances, lemma_decode_dynamic_tables_advances,
    lemma_decode_match_in_range, lemma_decode_symbol_advances, lemma_fixed_tables_wf, length_base,
    length_extra_bits, END_OF_BLOCK, LAST_LENGTH_SYMBOL,
};
use crate::inflate::huffman::{decode_symbol, fixed_dist_lengths, fixed_litlen_lengths};
use crate::inflate::laws::lemma_copy_match_bytes;
use crate::inflate::truncation::is_prefix;
use vstd::prelude::*;

verus! {

/// A match appends to the output.
pub proof fn lemma_decode_match_appends(dist: HuffmanView, data: Seq<u8>, pos: nat, out: Seq<u8>, sym: nat)
    ensures
        decode_match(dist, data, pos, out, sym) matches Ok(d) ==> is_prefix(out, d.out),
{
    let length_bits = length_extra_bits(sym);
    let length = length_base(sym) + bits_at(data, pos, length_bits);
    if let Ok((d, after)) = decode_symbol(dist, data, pos + length_bits) {
        let distance = dist_base(d) + bits_at(data, after, dist_extra_bits(d));
        if 1 <= distance <= out.len() {
            lemma_copy_match_bytes(out, distance, length);
        }
    }
}

/// The symbols of a block append to the output.
pub proof fn lemma_decode_symbols_appends(
    lit: HuffmanView,
    dist: HuffmanView,
    data: Seq<u8>,
    pos: nat,
    out: Seq<u8>,
)
    requires
        lit.wf(),
        dist.wf(),
    ensures
        decode_symbols(lit, dist, data, pos, out) matches Ok(d) ==> is_prefix(out, d.out),
    decreases bits_left(data, pos),
{
    lemma_decode_symbol_advances(lit, data, pos);
    if let Ok((sym, after)) = decode_symbol(lit, data, pos) {
        if sym < END_OF_BLOCK {
            lemma_decode_symbols_appends(lit, dist, data, after, out.push(sym as u8));
        } else if sym > END_OF_BLOCK && sym <= LAST_LENGTH_SYMBOL {
            lemma_decode_match_appends(dist, data, after, out, sym);
            lemma_decode_match_in_range(dist, data, after, out, sym);
            if let Ok(d) = decode_match(dist, data, after, out, sym) {
                lemma_decode_symbols_appends(lit, dist, data, d.pos, d.out);
            }
        }
    }
}

/// A block appends to the output.
pub proof fn lemma_decode_block_appends(data: Seq<u8>, pos: nat, out: Seq<u8>, btype: nat)
    ensures
        decode_block(data, pos, out, btype) matches Ok(d) ==> is_prefix(out, d.out),
{
    if btype == 1 {
        lemma_fixed_tables_wf();
        lemma_decode_symbols_appends(
            canonical_table(fixed_litlen_lengths()),
            canonical_table(fixed_dist_lengths()),
            data,
            pos,
            out,
        );
    } else if btype == 2 {
        lemma_decode_dynamic_tables_advances(data, pos);
        if let Ok(tables) = decode_dynamic_tables(data, pos) {
            lemma_decode_symbols_appends(tables.lit, tables.dist, data, tables.pos, out);
        }
    }
}

/// The blocks of a stream append to the output: what was decoded before
/// them is the beginning of the result.
pub proof fn lemma_decode_blocks_appends(data: Seq<u8>, pos: nat, out: Seq<u8>)
    requires
        pos <= 8 * data.len(),
    ensures
        decode_blocks(data, pos, out) matches Ok(d) ==> is_prefix(out, d.out),
    decreases bits_left(data, pos),
{
    if bits_left(data, pos) >= 3 {
        let btype = bits_at(data, pos + 1, 2);
        lemma_decode_block_appends(data, pos + 3, out, btype);
        lemma_decode_block_advances(data, pos + 3, out, btype);
        if let Ok(d) = decode_block(data, pos + 3, out, btype) {
            if bits_at(data, pos, 1) == 0 {
                lemma_decode_blocks_appends(data, d.pos, d.out);
            }
        }
    }
}

} // verus!
