//! The block decoders: stored, fixed and dynamic blocks, and the symbol loop
//! that the two compressed kinds share.

use crate::inflate::bitreader::BitReader;
use crate::inflate::bits::{bits_left, lemma_bits_at_bound, next_byte_boundary};
use crate::inflate::format::{
    append_run, code_length_code_lengths, code_length_order, code_length_step, copy_match,
    decode_block, decode_blocks, decode_code_lengths, decode_dynamic_tables, decode_match,
    decode_stored, decode_symbols, dist_base, dist_extra_bits, lemma_code_length_step_grows,
    lemma_decode_block_advances, lemma_decode_match_in_range, lemma_decode_symbol_advances,
    length_base, length_extra_bits, output_of, run_of, END_OF_BLOCK, FIRST_LENGTH_SYMBOL,
    LAST_DISTANCE_SYMBOL, LAST_LENGTH_SYMBOL,
};
use crate::inflate::huffman::{build_fixed_dist_table, build_fixed_litlen_table, HuffmanTable};
use crate::inflate::{result_is, InflateError};
use vstd::arithmetic::power2::{lemma2_to64, lemma_pow2_strictly_increases};
use vstd::prelude::*;

verus! {

/// The smallest match length and the number of extra bits of a length
/// symbol.
fn length_code(sym: u16) -> (r: (usize, usize))
    requires
        FIRST_LENGTH_SYMBOL <= sym <= LAST_LENGTH_SYMBOL,
    ensures
        r.0 == length_base(sym as nat),
        r.1 == length_extra_bits(sym as nat),
        r.0 <= 258,
        r.1 <= 5,
{
    match sym {
        257 => (3, 0),
        258 => (4, 0),
        259 => (5, 0),
        260 => (6, 0),
        261 => (7, 0),
        262 => (8, 0),
        263 => (9, 0),
        264 => (10, 0),
        265 => (11, 1),
        266 => (13, 1),
        267 => (15, 1),
        268 => (17, 1),
        269 => (19, 2),
        270 => (23, 2),
        271 => (27, 2),
        272 => (31, 2),
        273 => (35, 3),
        274 => (43, 3),
        275 => (51, 3),
        276 => (59, 3),
        277 => (67, 4),
        278 => (83, 4),
        279 => (99, 4),
        280 => (115, 4),
        281 => (131, 5),
        282 => (163, 5),
        283 => (195, 5),
        284 => (227, 5),
        _ => (258, 0),
    }
}

/// The smallest distance and the number of extra bits of a distance symbol.
fn distance_code(sym: u16) -> (r: (usize, usize))
    requires
        sym <= LAST_DISTANCE_SYMBOL,
    ensures
        r.0 == dist_base(sym as nat),
        r.1 == dist_extra_bits(sym as nat),
        1 <= r.0 <= 24577,
        r.1 <= 13,
{
    match sym {
        0 => (1, 0),
        1 => (2, 0),
        2 => (3, 0),
        3 => (4, 0),
        4 => (5, 1),
        5 => (7, 1),
        6 => (9, 2),
        7 => (13, 2),
        8 => (17, 3),
        9 => (25, 3),
        10 => (33, 4),
        11 => (49, 4),
        12 => (65, 5),
        13 => (97, 5),
        14 => (129, 6),
        15 => (193, 6),
        16 => (257, 7),
        17 => (385, 7),
        18 => (513, 8),
        19 => (769, 8),
        20 => (1025, 9),
        21 => (1537, 9),
        22 => (2049, 10),
        23 => (3073, 10),
        24 => (4097, 11),
        25 => (6145, 11),
        26 => (8193, 12),
        27 => (12289, 12),
        28 => (16385, 13),
        _ => (24577, 13),
    }
}

/// The place in the code-length alphabet of the `i`-th length that a dynamic
/// block sends.
fn code_length_position(i: usize) -> (r: usize)
    requires
        i < 19,
    ensures
        r == code_length_order()[i as int],
        r < 19,
{
    match i {
        0 => 16,
        1 => 17,
        2 => 18,
        3 => 0,
        4 => 8,
        5 => 7,
        6 => 9,
        7 => 6,
        8 => 10,
        9 => 5,
        10 => 11,
        11 => 4,
        12 => 12,
        13 => 3,
        14 => 13,
        15 => 2,
        16 => 14,
        17 => 1,
        _ => 15,
    }
}

/// Appends `length` bytes to `out`, each a copy of the byte `distance`
/// places before the end.
fn copy_from_output(out: &mut Vec<u8>, distance: usize, length: usize)
    requires
        1 <= distance <= old(out)@.len(),
    ensures
        final(out)@ == copy_match(old(out)@, distance as nat, length as nat),
{
    let mut i: usize = 0;
    while i < length
        invariant
            i <= length,
            1 <= distance <= out@.len(),
            copy_match(out@, distance as nat, (length - i) as nat) == copy_match(
                old(out)@,
                distance as nat,
                length as nat,
            ),
        decreases length - i,
    {
        let b = out[out.len() - distance];
        out.push(b);
        i = i + 1;
    }
}

/// Decodes what follows a length symbol and makes the copy.
fn inflate_match(br: &mut BitReader, dist: &HuffmanTable, out: &mut Vec<u8>, sym: u16) -> (r: Result<
    (),
    InflateError,
>)
    requires
        old(br).wf(),
        dist@.wf(),
        FIRST_LENGTH_SYMBOL <= sym <= LAST_LENGTH_SYMBOL,
    ensures
        final(br).wf(),
        final(br)@.data == old(br)@.data,
        match decode_match(dist@, old(br)@.data, old(br)@.pos, old(out)@, sym as nat) {
            Ok(d) => r is Ok && final(br)@.pos == d.pos && final(out)@ == d.out,
            Err(e) => r == Err::<(), InflateError>(e),
        },
{
    let (base_len, extra_bits) = length_code(sym);
    let extra = match br.read_bits(extra_bits) {
        Some(v) => v as usize,
        None => {
            return Err(InflateError::InputTooShort);
        },
    };
    proof {
        lemma_bits_at_bound(old(br)@.data, old(br)@.pos, extra_bits as nat);
        lemma2_to64();
        if extra_bits < 5 {
            lemma_pow2_strictly_increases(extra_bits as nat, 5);
        }
    }
    let length = base_len + extra;
    let dist_sym = match dist.read_symbol(br) {
        Ok(s) => s,
        Err(e) => {
            return Err(e);
        },
    };
    if dist_sym > LAST_DISTANCE_SYMBOL {
        return Err(InflateError::BadHuffmanCode);
    }
    let (base_dist, dist_bits) = distance_code(dist_sym);
    let ghost after = br@.pos;
    let dist_extra = match br.read_bits(dist_bits) {
        Some(v) => v as usize,
        None => {
            return Err(InflateError::InputTooShort);
        },
    };
    proof {
        lemma_bits_at_bound(old(br)@.data, after, dist_bits as nat);
        if dist_bits < 13 {
            lemma_pow2_strictly_increases(dist_bits as nat, 13);
        }
    }
    let distance = base_dist + dist_extra;
    if distance == 0 || distance > out.len() {
        return Err(InflateError::BadBlockData);
    }
    copy_from_output(out, distance, length);
    Ok(())
}

/// Decodes the symbols of a compressed block up to its end-of-block symbol.
fn inflate_symbols(br: &mut BitReader, lit: &HuffmanTable, dist: &HuffmanTable, out: &mut Vec<u8>) -> (r:
    Result<(), InflateError>)
    requires
        old(br).wf(),
        lit@.wf(),
        dist@.wf(),
    ensures
        final(br).wf(),
        final(br)@.data == old(br)@.data,
        match decode_symbols(lit@, dist@, old(br)@.data, old(br)@.pos, old(out)@) {
            Ok(d) => r is Ok && final(br)@.pos == d.pos && final(out)@ == d.out,
            Err(e) => r == Err::<(), InflateError>(e),
        },
{
    let ghost goal = decode_symbols(lit@, dist@, br@.data, br@.pos, out@);
    loop
        invariant
            br.wf(),
            br@.data == old(br)@.data,
            lit@.wf(),
            dist@.wf(),
            decode_symbols(lit@, dist@, br@.data, br@.pos, out@) == goal,
            goal == decode_symbols(lit@, dist@, old(br)@.data, old(br)@.pos, old(out)@),
        decreases bits_left(br@.data, br@.pos),
    {
        proof {
            br.lemma_pos_in_range();
            lemma_decode_symbol_advances(lit@, br@.data, br@.pos);
        }
        let ghost before = br@.pos;
        let sym = match lit.read_symbol(br) {
            Ok(s) => s,
            Err(e) => {
                return Err(e);
            },
        };
        if sym < END_OF_BLOCK {
            out.push(sym as u8);
        } else if sym == END_OF_BLOCK {
            return Ok(());
        } else if sym <= LAST_LENGTH_SYMBOL {
            proof {
                lemma_decode_match_in_range(dist@, br@.data, br@.pos, out@, sym as nat);
            }
            match inflate_match(br, dist, out, sym) {
                Ok(()) => {},
                Err(e) => {
                    return Err(e);
                },
            }
        } else {
            return Err(InflateError::BadHuffmanCode);
        }
    }
}

/// Decodes a stored block: skips to the next byte boundary, checks LEN
/// against NLEN and copies LEN bytes.
fn inflate_stored(br: &mut BitReader, out: &mut Vec<u8>) -> (r: Result<(), InflateError>)
    requires
        old(br).wf(),
    ensures
        final(br).wf(),
        final(br)@.data == old(br)@.data,
        match decode_stored(old(br)@.data, old(br)@.pos, old(out)@) {
            Ok(d) => r is Ok && final(br)@.pos == d.pos && final(out)@ == d.out,
            Err(e) => r == Err::<(), InflateError>(e),
        },
{
    br.align_to_byte();
    let ghost start = br@.pos;
    let ghost first = (start / 8) as int;
    let ghost data = br@.data;
    let lo = match br.read_byte() {
        Some(b) => b,
        None => {
            return Err(InflateError::InputTooShort);
        },
    };
    let hi = match br.read_byte() {
        Some(b) => b,
        None => {
            return Err(InflateError::InputTooShort);
        },
    };
    let nlo = match br.read_byte() {
        Some(b) => b,
        None => {
            return Err(InflateError::InputTooShort);
        },
    };
    let nhi = match br.read_byte() {
        Some(b) => b,
        None => {
            return Err(InflateError::InputTooShort);
        },
    };
    let len: u16 = ((hi as u16) << 8) | (lo as u16);
    let nlen: u16 = ((nhi as u16) << 8) | (nlo as u16);
    proof {
        assert((((hi as u16) << 8) | (lo as u16)) == (hi as u16) * 256 + (lo as u16)) by (bit_vector);
        assert((((nhi as u16) << 8) | (nlo as u16)) == (nhi as u16) * 256 + (nlo as u16)) by (bit_vector);
        assert((len != !nlen) == (len + nlen != 0xFFFF)) by (bit_vector);
    }
    if len != !nlen {
        return Err(InflateError::BadBlockData);
    }
    let mut i: u16 = 0;
    proof {
        br.lemma_pos_in_range();
    }
    while i < len
        invariant
            br.wf(),
            br@.data == data,
            data == old(br)@.data,
            start % 8 == 0,
            first == start / 8,
            start == next_byte_boundary(old(br)@.pos),
            bits_left(data, start) >= 32,
            len == data[first] + 256 * data[first + 1],
            len + (data[first + 2] + 256 * data[first + 3]) == 0xFFFF,
            i <= len,
            br@.pos == start + 32 + 8 * i,
            br@.pos <= 8 * data.len(),
            out@ == old(out)@ + data.subrange(first + 4, first + 4 + i),
        decreases len - i,
    {
        assert(br@.pos % 8 == 0);
        assert(br@.pos / 8 == first + 4 + i);
        let b = match br.read_byte() {
            Some(b) => b,
            None => {
                return Err(InflateError::InputTooShort);
            },
        };
        out.push(b);
        i = i + 1;
        proof {
            let copied = data.subrange(first + 4, first + 4 + i - 1);
            assert(data.subrange(first + 4, first + 4 + i) =~= copied.push(b));
        }
    }
    Ok(())
}

/// A vector of `n` zeros.
fn zeros(n: usize) -> (v: Vec<u8>)
    ensures
        v@ == Seq::new(n as nat, |i: int| 0u8),
{
    let mut v: Vec<u8> = Vec::new();
    let mut i: usize = 0;
    while i < n
        invariant
            i <= n,
            v@ == Seq::new(i as nat, |j: int| 0u8),
        decreases n - i,
    {
        v.push(0);
        i = i + 1;
        assert(v@ =~= Seq::new(i as nat, |j: int| 0u8));
    }
    v
}

/// Reads the `count` lengths of the code-length code, three bits each.
fn read_code_length_code(br: &mut BitReader, count: usize) -> (r: Result<Vec<u8>, InflateError>)
    requires
        old(br).wf(),
        count <= 19,
    ensures
        final(br).wf(),
        final(br)@.data == old(br)@.data,
        match r {
            Ok(lengths) => {
                &&& 3 * count <= bits_left(old(br)@.data, old(br)@.pos)
                &&& lengths@ == code_length_code_lengths(old(br)@.data, old(br)@.pos, count as nat)
                &&& final(br)@.pos == old(br)@.pos + 3 * count
            },
            Err(e) => e == InflateError::InputTooShort && 3 * count > bits_left(
                old(br)@.data,
                old(br)@.pos,
            ),
        },
{
    let mut lengths = zeros(19);
    let mut i: usize = 0;
    proof {
        br.lemma_pos_in_range();
    }
    while i < count
        invariant
            br.wf(),
            br@.data == old(br)@.data,
            i <= count <= 19,
            br@.pos == old(br)@.pos + 3 * i,
            br@.pos <= 8 * br@.data.len(),
            lengths@.len() == 19,
            lengths@ == code_length_code_lengths(old(br)@.data, old(br)@.pos, i as nat),
        decreases count - i,
    {
        let v = match br.read_bits(3) {
            Some(v) => v,
            None => {
                return Err(InflateError::InputTooShort);
            },
        };
        proof {
            lemma_bits_at_bound(old(br)@.data, (old(br)@.pos + 3 * i) as nat, 3);
            lemma2_to64();
        }
        lengths.set(code_length_position(i), v as u8);
        i = i + 1;
    }
    Ok(lengths)
}

/// Appends `count` times `value` to `lens`, unless that would give more than
/// `total` lengths.
fn append_run_checked(lens: &mut Vec<u8>, value: u8, count: usize, total: usize) -> (r: Result<
    (),
    InflateError,
>)
    requires
        old(lens)@.len() <= total <= 1024,
        count <= 1024,
    ensures
        match append_run(old(lens)@, value, count as nat, total as nat) {
            Ok(more) => r is Ok && final(lens)@ == more,
            Err(e) => r == Err::<(), InflateError>(e) && final(lens)@ == old(lens)@,
        },
{
    if lens.len() + count > total {
        return Err(InflateError::BadHuffmanCode);
    }
    let mut i: usize = 0;
    while i < count
        invariant
            i <= count,
            lens@ == old(lens)@ + run_of(value, i as nat),
        decreases count - i,
    {
        lens.push(value);
        i = i + 1;
        assert(lens@ =~= old(lens)@ + run_of(value, i as nat));
    }
    Ok(())
}

/// Handles one code-length symbol: a length, or a run with its extra bits.
fn read_code_length_step(br: &mut BitReader, lens: &mut Vec<u8>, total: usize, sym: u16) -> (r: Result<
    (),
    InflateError,
>)
    requires
        old(br).wf(),
        old(lens)@.len() < total <= 1024,
    ensures
        final(br).wf(),
        final(br)@.data == old(br)@.data,
        match code_length_step(old(br)@.data, old(br)@.pos, old(lens)@, total as nat, sym as nat) {
            Ok((next, more)) => r is Ok && final(br)@.pos == next && final(lens)@ == more,
            Err(e) => r == Err::<(), InflateError>(e),
        },
{
    proof {
        lemma2_to64();
    }
    if sym <= 15 {
        lens.push(sym as u8);
        Ok(())
    } else if sym == 16 {
        let extra = match br.read_bits(2) {
            Some(v) => v as usize,
            None => {
                return Err(InflateError::InputTooShort);
            },
        };
        if lens.len() == 0 {
            return Err(InflateError::BadHuffmanCode);
        }
        proof {
            lemma_bits_at_bound(old(br)@.data, old(br)@.pos, 2);
        }
        let last = lens[lens.len() - 1];
        append_run_checked(lens, last, 3 + extra, total)
    } else if sym == 17 {
        let extra = match br.read_bits(3) {
            Some(v) => v as usize,
            None => {
                return Err(InflateError::InputTooShort);
            },
        };
        proof {
            lemma_bits_at_bound(old(br)@.data, old(br)@.pos, 3);
        }
        append_run_checked(lens, 0, 3 + extra, total)
    } else if sym == 18 {
        let extra = match br.read_bits(7) {
            Some(v) => v as usize,
            None => {
                return Err(InflateError::InputTooShort);
            },
        };
        proof {
            lemma_bits_at_bound(old(br)@.data, old(br)@.pos, 7);
        }
        append_run_checked(lens, 0, 11 + extra, total)
    } else {
        Err(InflateError::BadHuffmanCode)
    }
}

/// Reads the `total` code lengths of a dynamic block with its code-length
/// code.
fn read_code_lengths(br: &mut BitReader, cl: &HuffmanTable, total: usize) -> (r: Result<
    Vec<u8>,
    InflateError,
>)
    requires
        old(br).wf(),
        cl@.wf(),
        total <= 1024,
    ensures
        final(br).wf(),
        final(br)@.data == old(br)@.data,
        match decode_code_lengths(cl@, old(br)@.data, old(br)@.pos, Seq::empty(), total as nat) {
            Ok((after, lens)) => r matches Ok(v) && v@ == lens && final(br)@.pos == after,
            Err(e) => r matches Err(e2) && e2 == e,
        },
{
    let mut lens: Vec<u8> = Vec::new();
    let ghost goal = decode_code_lengths(cl@, br@.data, br@.pos, lens@, total as nat);
    while lens.len() < total
        invariant
            br.wf(),
            br@.data == old(br)@.data,
            cl@.wf(),
            total <= 1024,
            lens@.len() <= total,
            decode_code_lengths(cl@, br@.data, br@.pos, lens@, total as nat) == goal,
            goal == decode_code_lengths(cl@, old(br)@.data, old(br)@.pos, Seq::empty(), total as nat),
        decreases total - lens@.len(),
    {
        let sym = match cl.read_symbol(br) {
            Ok(s) => s,
            Err(e) => {
                return Err(e);
            },
        };
        proof {
            lemma_code_length_step_grows(br@.data, br@.pos, lens@, total as nat, sym as nat);
        }
        match read_code_length_step(br, &mut lens, total, sym) {
            Ok(()) => {},
            Err(e) => {
                return Err(e);
            },
        }
    }
    Ok(lens)
}

/// Reads the header of a dynamic block and builds its two tables.
fn read_dynamic_tables(br: &mut BitReader) -> (r: Result<(HuffmanTable, HuffmanTable), InflateError>)
    requires
        old(br).wf(),
    ensures
        final(br).wf(),
        final(br)@.data == old(br)@.data,
        match decode_dynamic_tables(old(br)@.data, old(br)@.pos) {
            Ok(tables) => r matches Ok((lit, dist)) && lit@ == tables.lit && dist@ == tables.dist && lit@.wf()
                && dist@.wf() && final(br)@.pos == tables.pos,
            Err(e) => r matches Err(e2) && e2 == e,
        },
{
    proof {
        lemma2_to64();
        lemma_bits_at_bound(br@.data, br@.pos, 5);
        lemma_bits_at_bound(br@.data, br@.pos + 5, 5);
        lemma_bits_at_bound(br@.data, br@.pos + 10, 4);
    }
    let hlit = match br.read_bits(5) {
        Some(v) => v as usize + 257,
        None => {
            return Err(InflateError::InputTooShort);
        },
    };
    let hdist = match br.read_bits(5) {
        Some(v) => v as usize + 1,
        None => {
            return Err(InflateError::InputTooShort);
        },
    };
    let hclen = match br.read_bits(4) {
        Some(v) => v as usize + 4,
        None => {
            return Err(InflateError::InputTooShort);
        },
    };
    let cl_lengths = match read_code_length_code(br, hclen) {
        Ok(lengths) => lengths,
        Err(e) => {
            return Err(e);
        },
    };
    let cl_table = match HuffmanTable::from_lengths(cl_lengths.as_slice()) {
        Ok(t) => t,
        Err(e) => {
            return Err(e);
        },
    };
    let lens = match read_code_lengths(br, &cl_table, hlit + hdist) {
        Ok(lens) => lens,
        Err(e) => {
            return Err(e);
        },
    };
    proof {
        crate::inflate::format::lemma_decode_code_lengths_advances(
            cl_table@,
            old(br)@.data,
            (old(br)@.pos + 14 + 3 * hclen) as nat,
            Seq::empty(),
            (hlit + hdist) as nat,
        );
    }
    let lit_lengths = vstd::slice::slice_subrange(lens.as_slice(), 0, hlit);
    let dist_lengths = vstd::slice::slice_subrange(lens.as_slice(), hlit, hlit + hdist);
    let lit = match HuffmanTable::from_lengths(lit_lengths) {
        Ok(t) => t,
        Err(e) => {
            return Err(e);
        },
    };
    let dist = match HuffmanTable::from_lengths(dist_lengths) {
        Ok(t) => t,
        Err(e) => {
            return Err(e);
        },
    };
    Ok((lit, dist))
}

/// Decodes the body of a block of type `btype`.
fn inflate_block(br: &mut BitReader, out: &mut Vec<u8>, btype: u32) -> (r: Result<(), InflateError>)
    requires
        old(br).wf(),
    ensures
        final(br).wf(),
        final(br)@.data == old(br)@.data,
        match decode_block(old(br)@.data, old(br)@.pos, old(out)@, btype as nat) {
            Ok(d) => r is Ok && final(br)@.pos == d.pos && final(out)@ == d.out,
            Err(e) => r == Err::<(), InflateError>(e),
        },
{
    if btype == 0 {
        inflate_stored(br, out)
    } else if btype == 1 {
        let lit = build_fixed_litlen_table();
        let dist = build_fixed_dist_table();
        inflate_symbols(br, &lit, &dist, out)
    } else if btype == 2 {
        let (lit, dist) = match read_dynamic_tables(br) {
            Ok(tables) => tables,
            Err(e) => {
                return Err(e);
            },
        };
        inflate_symbols(br, &lit, &dist, out)
    } else {
        Err(InflateError::Unsupported)
    }
}

/// Decodes the blocks of a DEFLATE stream up to and including the first
/// final block, and gives their output.
pub(crate) fn inflate_blocks(data: &[u8]) -> (r: Result<Vec<u8>, InflateError>)
    ensures
        result_is(r, output_of(decode_blocks(data@, 0, Seq::empty()))),
{
    let mut br = BitReader::new(data);
    let mut out: Vec<u8> = Vec::new();
    let ghost goal = decode_blocks(data@, 0, Seq::empty());
    loop
        invariant
            br.wf(),
            br@.data == data@,
            decode_blocks(data@, br@.pos, out@) == goal,
            goal == decode_blocks(data@, 0, Seq::empty()),
        decreases bits_left(br@.data, br@.pos),
    {
        proof {
            br.lemma_pos_in_range();
            lemma2_to64();
            lemma_bits_at_bound(data@, br@.pos, 1);
            lemma_bits_at_bound(data@, br@.pos + 1, 2);
        }
        let bfinal = match br.read_bits(1) {
            Some(v) => v,
            None => {
                return Err(InflateError::InputTooShort);
            },
        };
        let btype = match br.read_bits(2) {
            Some(v) => v,
            None => {
                return Err(InflateError::InputTooShort);
            },
        };
        proof {
            lemma_decode_block_advances(data@, br@.pos, out@, btype as nat);
        }
        match inflate_block(&mut br, &mut out, btype) {
            Ok(()) => {},
            Err(e) => {
                return Err(e);
            },
        }
        if bfinal != 0 {
            return Ok(out);
        }
    }
}

} // verus!
