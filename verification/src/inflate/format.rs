//! What a DEFLATE stream means: the output that a sequence of blocks stands
//! for, as functions of the bytes and a bit position.
//!
//! Every function here either gives the decoded state, or the first
//! violation that a decoder meets when it reads the stream front to back.

use crate::inflate::bits::{bits_at, bits_left, lemma_bits_at_bound, next_byte_boundary};
use crate::inflate::canonical::{
    canonical_table, lemma_canonical_table_wf, lengths_valid, HuffmanView,
};
use crate::inflate::huffman::{decode_symbol, fixed_dist_lengths, fixed_litlen_lengths};
use crate::inflate::InflateError;
use vstd::prelude::*;

verus! {

/// How far decoding has come: the position of the next unread bit and the
/// output so far.
pub struct Decoded {
    pub pos: nat,
    pub out: Seq<u8>,
}

/// The first literal/length symbol that stands for a match length.
pub const FIRST_LENGTH_SYMBOL: u16 = 257;

/// The last literal/length symbol that stands for a match length.
pub const LAST_LENGTH_SYMBOL: u16 = 285;

/// The symbol that ends a block.
pub const END_OF_BLOCK: u16 = 256;

/// The last distance symbol that stands for a distance.
pub const LAST_DISTANCE_SYMBOL: u16 = 29;

/// The smallest match length of each length symbol, from 257 on.
pub open spec fn length_bases() -> Seq<nat> {
    seq![
        3, 4, 5, 6, 7, 8, 9, 10, 11, 13, 15, 17, 19, 23, 27, 31, 35, 43, 51, 59, 67, 83, 99, 115, 131,
        163, 195, 227, 258,
    ]
}

/// The number of extra bits of each length symbol, from 257 on.
pub open spec fn length_extras() -> Seq<nat> {
    seq![0, 0, 0, 0, 0, 0, 0, 0, 1, 1, 1, 1, 2, 2, 2, 2, 3, 3, 3, 3, 4, 4, 4, 4, 5, 5, 5, 5, 0]
}

/// The smallest distance of each distance symbol.
pub open spec fn dist_bases() -> Seq<nat> {
    seq![
        1, 2, 3, 4, 5, 7, 9, 13, 17, 25, 33, 49, 65, 97, 129, 193, 257, 385, 513, 769, 1025, 1537, 2049,
        3073, 4097, 6145, 8193, 12289, 16385, 24577,
    ]
}

/// The number of extra bits of each distance symbol.
pub open spec fn dist_extras() -> Seq<nat> {
    seq![
        0, 0, 0, 0, 1, 1, 2, 2, 3, 3, 4, 4, 5, 5, 6, 6, 7, 7, 8, 8, 9, 9, 10, 10, 11, 11, 12, 12, 13,
        13,
    ]
}

/// The smallest match length of length symbol `sym`.
pub open spec fn length_base(sym: nat) -> nat
    recommends
        FIRST_LENGTH_SYMBOL <= sym <= LAST_LENGTH_SYMBOL,
{
    length_bases()[sym - FIRST_LENGTH_SYMBOL]
}

/// The number of extra bits that follow length symbol `sym`.
pub open spec fn length_extra_bits(sym: nat) -> nat
    recommends
        FIRST_LENGTH_SYMBOL <= sym <= LAST_LENGTH_SYMBOL,
{
    length_extras()[sym - FIRST_LENGTH_SYMBOL]
}

/// The smallest distance of distance symbol `sym`.
pub open spec fn dist_base(sym: nat) -> nat
    recommends
        sym <= LAST_DISTANCE_SYMBOL,
{
    dist_bases()[sym as int]
}

/// The number of extra bits that follow distance symbol `sym`.
pub open spec fn dist_extra_bits(sym: nat) -> nat
    recommends
        sym <= LAST_DISTANCE_SYMBOL,
{
    dist_extras()[sym as int]
}

/// The output after a back-reference: `length` bytes are appended one by
/// one, each a copy of the byte `distance` places before the end at that
/// moment, so that a copy may run into the bytes it has just written.
pub open spec fn copy_match(out: Seq<u8>, distance: nat, length: nat) -> Seq<u8>
    recommends
        1 <= distance <= out.len(),
    decreases length,
{
    if length == 0 {
        out
    } else {
        copy_match(out.push(out[out.len() - distance]), distance, (length - 1) as nat)
    }
}

/// What follows length symbol `sym` at bit `pos`: the extra bits of the
/// length, a distance symbol with its extra bits, and the copy.
pub open spec fn decode_match(dist: HuffmanView, data: Seq<u8>, pos: nat, out: Seq<u8>, sym: nat) -> Result<
    Decoded,
    InflateError,
>
    recommends
        FIRST_LENGTH_SYMBOL <= sym <= LAST_LENGTH_SYMBOL,
{
    let length_bits = length_extra_bits(sym);
    if bits_left(data, pos) < length_bits {
        Err(InflateError::InputTooShort)
    } else {
        let length = length_base(sym) + bits_at(data, pos, length_bits);
        match decode_symbol(dist, data, pos + length_bits) {
            Err(e) => Err(e),
            Ok((d, after)) => {
                if d > LAST_DISTANCE_SYMBOL {
                    Err(InflateError::BadHuffmanCode)
                } else if bits_left(data, after) < dist_extra_bits(d) {
                    Err(InflateError::InputTooShort)
                } else {
                    let distance = dist_base(d) + bits_at(data, after, dist_extra_bits(d));
                    if distance == 0 || distance > out.len() {
                        Err(InflateError::BadBlockData)
                    } else {
                        Ok(
                            Decoded {
                                pos: after + dist_extra_bits(d),
                                out: copy_match(out, distance, length),
                            },
                        )
                    }
                }
            },
        }
    }
}

/// The symbols of a compressed block from bit `pos` on, up to and including
/// the end-of-block symbol: literals are appended, length symbols start a
/// match, and any other symbol is an error.
pub open spec fn decode_symbols(
    lit: HuffmanView,
    dist: HuffmanView,
    data: Seq<u8>,
    pos: nat,
    out: Seq<u8>,
) -> Result<Decoded, InflateError>
    decreases bits_left(data, pos),
    when lit.wf()
    via decode_symbols_decreases
{
    match decode_symbol(lit, data, pos) {
        Err(e) => Err(e),
        Ok((sym, after)) => {
            if sym < END_OF_BLOCK {
                decode_symbols(lit, dist, data, after, out.push(sym as u8))
            } else if sym == END_OF_BLOCK {
                Ok(Decoded { pos: after, out })
            } else if sym <= LAST_LENGTH_SYMBOL {
                match decode_match(dist, data, after, out, sym) {
                    Err(e) => Err(e),
                    Ok(d) => decode_symbols(lit, dist, data, d.pos, d.out),
                }
            } else {
                Err(InflateError::BadHuffmanCode)
            }
        },
    }
}

/// A symbol that a well-formed table decodes takes at least one bit and no
/// more than the bits that are left.
pub proof fn lemma_decode_symbol_advances(t: HuffmanView, data: Seq<u8>, pos: nat)
    requires
        t.wf(),
    ensures
        decode_symbol(t, data, pos) matches Ok((sym, after)) ==> pos < after <= pos + t.max_bits && after
            <= 8 * data.len() && sym < crate::inflate::canonical::MAX_SYMBOLS,
{
    lemma_bits_at_bound(data, pos, t.max_bits);
}

/// A match never moves backwards.
pub proof fn lemma_decode_match_advances(dist: HuffmanView, data: Seq<u8>, pos: nat, out: Seq<u8>, sym: nat)
    ensures
        decode_match(dist, data, pos, out, sym) matches Ok(d) ==> pos <= d.pos,
{
}

#[via_fn]
proof fn decode_symbols_decreases(
    lit: HuffmanView,
    dist: HuffmanView,
    data: Seq<u8>,
    pos: nat,
    out: Seq<u8>,
) {
    lemma_decode_symbol_advances(lit, data, pos);
    if let Ok((sym, after)) = decode_symbol(lit, data, pos) {
        lemma_decode_match_advances(dist, data, after, out, sym);
    }
}

/// A stored block whose header ends at bit `pos`: after the next byte
/// boundary come LEN and NLEN, two bytes each with the low byte first, and
/// then LEN bytes that are the output. NLEN must be the complement of LEN.
pub open spec fn decode_stored(data: Seq<u8>, pos: nat, out: Seq<u8>) -> Result<Decoded, InflateError> {
    let start = next_byte_boundary(pos);
    let first = (start / 8) as int;
    if bits_left(data, start) < 32 {
        Err(InflateError::InputTooShort)
    } else {
        let len = data[first] + 256 * data[first + 1];
        let nlen = data[first + 2] + 256 * data[first + 3];
        if len + nlen != 0xFFFF {
            Err(InflateError::BadBlockData)
        } else if bits_left(data, start + 32) < 8 * len {
            Err(InflateError::InputTooShort)
        } else {
            Ok(
                Decoded {
                    pos: (start + 32 + 8 * len) as nat,
                    out: out + data.subrange(first + 4, first + 4 + len),
                },
            )
        }
    }
}

/// The order in which a dynamic block sends the lengths of its code-length
/// code.
pub open spec fn code_length_order() -> Seq<int> {
    seq![16, 17, 18, 0, 8, 7, 9, 6, 10, 5, 11, 4, 12, 3, 13, 2, 14, 1, 15]
}

/// The lengths of the code-length code after `count` of them were read from
/// bit `pos` on, three bits each; those not sent are 0.
pub open spec fn code_length_code_lengths(data: Seq<u8>, pos: nat, count: nat) -> Seq<u8>
    recommends
        count <= 19,
    decreases count,
{
    if count == 0 {
        Seq::new(19, |i: int| 0u8)
    } else {
        code_length_code_lengths(data, pos, (count - 1) as nat).update(
            code_length_order()[count - 1],
            bits_at(data, pos + 3 * (count - 1) as nat, 3) as u8,
        )
    }
}

/// `count` times `value`.
pub open spec fn run_of(value: u8, count: nat) -> Seq<u8> {
    Seq::new(count, |i: int| value)
}

/// Appends a run to the code lengths read so far, unless it would give more
/// than `total` lengths.
pub open spec fn append_run(lens: Seq<u8>, value: u8, count: nat, total: nat) -> Result<
    Seq<u8>,
    InflateError,
> {
    if lens.len() + count > total {
        Err(InflateError::BadHuffmanCode)
    } else {
        Ok(lens + run_of(value, count))
    }
}

/// One step of reading code lengths: what the code-length symbol `sym`,
/// whose code ends at bit `pos`, adds to `lens`.
///
/// Symbols 0 to 15 are a length; 16 repeats the last length 3 to 6 times, 17
/// gives 3 to 10 zeros and 18 gives 11 to 138 zeros, the count following in
/// 2, 3 and 7 extra bits.
pub open spec fn code_length_step(data: Seq<u8>, pos: nat, lens: Seq<u8>, total: nat, sym: nat) -> Result<
    (nat, Seq<u8>),
    InflateError,
> {
    if sym <= 15 {
        Ok((pos, lens.push(sym as u8)))
    } else if sym == 16 {
        if bits_left(data, pos) < 2 {
            Err(InflateError::InputTooShort)
        } else if lens.len() == 0 {
            Err(InflateError::BadHuffmanCode)
        } else {
            match append_run(lens, lens.last(), 3 + bits_at(data, pos, 2), total) {
                Ok(more) => Ok((pos + 2, more)),
                Err(e) => Err(e),
            }
        }
    } else if sym == 17 {
        if bits_left(data, pos) < 3 {
            Err(InflateError::InputTooShort)
        } else {
            match append_run(lens, 0, 3 + bits_at(data, pos, 3), total) {
                Ok(more) => Ok((pos + 3, more)),
                Err(e) => Err(e),
            }
        }
    } else if sym == 18 {
        if bits_left(data, pos) < 7 {
            Err(InflateError::InputTooShort)
        } else {
            match append_run(lens, 0, 11 + bits_at(data, pos, 7), total) {
                Ok(more) => Ok((pos + 7, more)),
                Err(e) => Err(e),
            }
        }
    } else {
        Err(InflateError::BadHuffmanCode)
    }
}

/// The `total` code lengths of a dynamic block, read with the code-length
/// code `cl` from bit `pos` on, `lens` being those read so far. Gives the
/// position after them and the lengths.
pub open spec fn decode_code_lengths(
    cl: HuffmanView,
    data: Seq<u8>,
    pos: nat,
    lens: Seq<u8>,
    total: nat,
) -> Result<(nat, Seq<u8>), InflateError>
    decreases total - lens.len(),
    via decode_code_lengths_decreases
{
    if lens.len() >= total {
        Ok((pos, lens))
    } else {
        match decode_symbol(cl, data, pos) {
            Err(e) => Err(e),
            Ok((sym, after)) => match code_length_step(data, after, lens, total, sym) {
                Err(e) => Err(e),
                Ok((next, more)) => decode_code_lengths(cl, data, next, more, total),
            },
        }
    }
}

/// Every step adds at least one length, never more than are asked for, and
/// does not move backwards.
pub proof fn lemma_code_length_step_grows(data: Seq<u8>, pos: nat, lens: Seq<u8>, total: nat, sym: nat)
    requires
        lens.len() < total,
    ensures
        code_length_step(data, pos, lens, total, sym) matches Ok((next, more)) ==> lens.len() < more.len()
            <= total && pos <= next <= pos + 7 && (pos <= 8 * data.len() ==> next <= 8 * data.len()),
{
}

#[via_fn]
proof fn decode_code_lengths_decreases(cl: HuffmanView, data: Seq<u8>, pos: nat, lens: Seq<u8>, total: nat) {
    if lens.len() < total {
        if let Ok((sym, after)) = decode_symbol(cl, data, pos) {
            lemma_code_length_step_grows(data, after, lens, total, sym);
        }
    }
}

/// The two tables of a compressed block and the position of its first
/// symbol.
pub struct BlockTables {
    pub lit: HuffmanView,
    pub dist: HuffmanView,
    pub pos: nat,
}

/// The header of a dynamic block at bit `pos`: the counts HLIT, HDIST and
/// HCLEN, the lengths of the code-length code, and with that code the
/// lengths of the literal/length code followed by those of the distance
/// code.
pub open spec fn decode_dynamic_tables(data: Seq<u8>, pos: nat) -> Result<BlockTables, InflateError> {
    if bits_left(data, pos) < 14 {
        Err(InflateError::InputTooShort)
    } else {
        let hlit = bits_at(data, pos, 5) + 257;
        let hdist = bits_at(data, pos + 5, 5) + 1;
        let hclen = bits_at(data, pos + 10, 4) + 4;
        let cl_lengths = code_length_code_lengths(data, pos + 14, hclen);
        if bits_left(data, pos + 14) < 3 * hclen {
            Err(InflateError::InputTooShort)
        } else if !lengths_valid(cl_lengths) {
            Err(InflateError::BadHuffmanCode)
        } else {
            match decode_code_lengths(
                canonical_table(cl_lengths),
                data,
                pos + 14 + 3 * hclen,
                Seq::empty(),
                hlit + hdist,
            ) {
                Err(e) => Err(e),
                Ok((after, lens)) => {
                    let lit_lengths = lens.subrange(0, hlit as int);
                    let dist_lengths = lens.subrange(hlit as int, (hlit + hdist) as int);
                    if !lengths_valid(lit_lengths) || !lengths_valid(dist_lengths) {
                        Err(InflateError::BadHuffmanCode)
                    } else {
                        Ok(
                            BlockTables {
                                lit: canonical_table(lit_lengths),
                                dist: canonical_table(dist_lengths),
                                pos: after,
                            },
                        )
                    }
                },
            }
        }
    }
}

/// The body of a block of type `btype` whose three header bits end at bit
/// `pos`: 0 is stored, 1 uses the fixed codes, 2 brings its own codes, and 3
/// is reserved.
pub open spec fn decode_block(data: Seq<u8>, pos: nat, out: Seq<u8>, btype: nat) -> Result<
    Decoded,
    InflateError,
> {
    if btype == 0 {
        decode_stored(data, pos, out)
    } else if btype == 1 {
        decode_symbols(
            canonical_table(fixed_litlen_lengths()),
            canonical_table(fixed_dist_lengths()),
            data,
            pos,
            out,
        )
    } else if btype == 2 {
        match decode_dynamic_tables(data, pos) {
            Err(e) => Err(e),
            Ok(tables) => decode_symbols(tables.lit, tables.dist, data, tables.pos, out),
        }
    } else {
        Err(InflateError::Unsupported)
    }
}

/// The blocks from bit `pos` on, up to and including the first block whose
/// BFINAL bit is set: the output, and the position after that block.
/// Whatever follows that block is not looked at.
pub open spec fn decode_blocks(data: Seq<u8>, pos: nat, out: Seq<u8>) -> Result<Decoded, InflateError>
    decreases bits_left(data, pos),
    via decode_blocks_decreases
{
    if bits_left(data, pos) < 3 {
        Err(InflateError::InputTooShort)
    } else {
        match decode_block(data, pos + 3, out, bits_at(data, pos + 1, 2)) {
            Err(e) => Err(e),
            Ok(d) => {
                if bits_at(data, pos, 1) != 0 {
                    Ok(d)
                } else {
                    decode_blocks(data, d.pos, d.out)
                }
            },
        }
    }
}

/// The output of a decoded state, or the error in its place.
pub open spec fn output_of(r: Result<Decoded, InflateError>) -> Result<Seq<u8>, InflateError> {
    match r {
        Ok(d) => Ok(d.out),
        Err(e) => Err(e),
    }
}

/// The symbols of a block end at or after the bit where they start, and
/// within the data.
pub proof fn lemma_decode_symbols_advances(
    lit: HuffmanView,
    dist: HuffmanView,
    data: Seq<u8>,
    pos: nat,
    out: Seq<u8>,
)
    requires
        lit.wf(),
        dist.wf(),
        pos <= 8 * data.len(),
    ensures
        decode_symbols(lit, dist, data, pos, out) matches Ok(d) ==> pos < d.pos <= 8 * data.len(),
    decreases bits_left(data, pos),
{
    lemma_decode_symbol_advances(lit, data, pos);
    if let Ok((sym, after)) = decode_symbol(lit, data, pos) {
        if sym < END_OF_BLOCK {
            lemma_decode_symbols_advances(lit, dist, data, after, out.push(sym as u8));
        } else if sym > END_OF_BLOCK && sym <= LAST_LENGTH_SYMBOL {
            lemma_decode_match_in_range(dist, data, after, out, sym);
            if let Ok(d) = decode_match(dist, data, after, out, sym) {
                lemma_decode_symbols_advances(lit, dist, data, d.pos, d.out);
            }
        }
    }
}

/// A match ends within the data.
pub proof fn lemma_decode_match_in_range(dist: HuffmanView, data: Seq<u8>, pos: nat, out: Seq<u8>, sym: nat)
    requires
        dist.wf(),
    ensures
        decode_match(dist, data, pos, out, sym) matches Ok(d) ==> pos <= d.pos <= 8 * data.len(),
{
    lemma_decode_symbol_advances(dist, data, pos + length_extra_bits(sym));
}

/// The code lengths of a dynamic block end at or after the bit where they
/// start, and there are exactly as many as were asked for.
pub proof fn lemma_decode_code_lengths_advances(
    cl: HuffmanView,
    data: Seq<u8>,
    pos: nat,
    lens: Seq<u8>,
    total: nat,
)
    requires
        cl.wf(),
        lens.len() <= total,
    ensures
        decode_code_lengths(cl, data, pos, lens, total) matches Ok((after, all)) ==> pos <= after && (pos
            <= 8 * data.len() ==> after <= 8 * data.len()) && all.len() == total,
    decreases total - lens.len(),
{
    if lens.len() < total {
        lemma_decode_symbol_advances(cl, data, pos);
        if let Ok((sym, after)) = decode_symbol(cl, data, pos) {
            lemma_code_length_step_grows(data, after, lens, total, sym);
            if let Ok((next, more)) = code_length_step(data, after, lens, total, sym) {
                lemma_decode_code_lengths_advances(cl, data, next, more, total);
            }
        }
    }
}

/// The tables of a dynamic block are well formed, and its first symbol
/// stands after its header.
pub proof fn lemma_decode_dynamic_tables_advances(data: Seq<u8>, pos: nat)
    ensures
        decode_dynamic_tables(data, pos) matches Ok(tables) ==> tables.lit.wf() && tables.dist.wf() && pos
            < tables.pos <= 8 * data.len(),
{
    if bits_left(data, pos) >= 14 {
        let hlit = bits_at(data, pos, 5) + 257;
        let hdist = bits_at(data, pos + 5, 5) + 1;
        let hclen = bits_at(data, pos + 10, 4) + 4;
        let cl_lengths = code_length_code_lengths(data, pos + 14, hclen);
        if bits_left(data, pos + 14) >= 3 * hclen && lengths_valid(cl_lengths) {
            lemma_canonical_table_wf(cl_lengths);
            lemma_decode_code_lengths_advances(
                canonical_table(cl_lengths),
                data,
                pos + 14 + 3 * hclen,
                Seq::empty(),
                hlit + hdist,
            );
            if let Ok((after, lens)) = decode_code_lengths(
                canonical_table(cl_lengths),
                data,
                pos + 14 + 3 * hclen,
                Seq::empty(),
                hlit + hdist,
            ) {
                let lit_lengths = lens.subrange(0, hlit as int);
                let dist_lengths = lens.subrange(hlit as int, (hlit + hdist) as int);
                if lengths_valid(lit_lengths) && lengths_valid(dist_lengths) {
                    lemma_canonical_table_wf(lit_lengths);
                    lemma_canonical_table_wf(dist_lengths);
                }
            }
        }
    }
}

/// The tables of the two fixed codes are well formed.
pub proof fn lemma_fixed_tables_wf()
    ensures
        canonical_table(fixed_litlen_lengths()).wf(),
        canonical_table(fixed_dist_lengths()).wf(),
{
    crate::inflate::huffman::lemma_fixed_litlen_valid();
    crate::inflate::huffman::lemma_fixed_dist_valid();
    lemma_canonical_table_wf(fixed_litlen_lengths());
    lemma_canonical_table_wf(fixed_dist_lengths());
}

/// The body of a block ends at or after the bit where it starts, and within
/// the data.
pub proof fn lemma_decode_block_advances(data: Seq<u8>, pos: nat, out: Seq<u8>, btype: nat)
    requires
        pos <= 8 * data.len(),
    ensures
        decode_block(data, pos, out, btype) matches Ok(d) ==> pos <= d.pos <= 8 * data.len(),
{
    if btype == 0 {
        assert(next_byte_boundary(pos) >= pos);
    } else if btype == 1 {
        lemma_fixed_tables_wf();
        lemma_decode_symbols_advances(
            canonical_table(fixed_litlen_lengths()),
            canonical_table(fixed_dist_lengths()),
            data,
            pos,
            out,
        );
    } else if btype == 2 {
        lemma_decode_dynamic_tables_advances(data, pos);
        if let Ok(tables) = decode_dynamic_tables(data, pos) {
            lemma_decode_symbols_advances(tables.lit, tables.dist, data, tables.pos, out);
        }
    }
}

/// The blocks of a stream end after the bit where they start, and within
/// the data.
pub proof fn lemma_decode_blocks_advances(data: Seq<u8>, pos: nat, out: Seq<u8>)
    requires
        pos <= 8 * data.len(),
    ensures
        decode_blocks(data, pos, out) matches Ok(d) ==> pos + 3 <= d.pos <= 8 * data.len(),
    decreases bits_left(data, pos),
{
    if bits_left(data, pos) >= 3 {
        let btype = bits_at(data, pos + 1, 2);
        lemma_decode_block_advances(data, pos + 3, out, btype);
        if let Ok(d) = decode_block(data, pos + 3, out, btype) {
            if bits_at(data, pos, 1) == 0 {
                lemma_decode_blocks_advances(data, d.pos, d.out);
            }
        }
    }
}

#[via_fn]
proof fn decode_blocks_decreases(data: Seq<u8>, pos: nat, out: Seq<u8>) {
    if bits_left(data, pos) >= 3 {
        lemma_decode_block_advances(data, pos + 3, out, bits_at(data, pos + 1, 2));
    }
}

} // verus!
