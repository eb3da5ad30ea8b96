//! What an encoder writes as a zlib stream, and the round trip: decoding
//! gives back the bytes that the stream stands for.
//!
//! A stream is a sequence of blocks of the three kinds. The encoder chooses
//! the blocks, the tokens of a compressed block and the codes of a dynamic
//! block; whatever it chooses, its output holds the blocks in the layout of
//! the format, which `stream_holds` states without reference to the decoder.

use crate::inflate::bits::{bits_at, bits_left, next_byte_boundary};
use crate::inflate::canonical::MAX_CODE_BITS;
use crate::inflate::format::{decode_block, decode_blocks, decode_stored, Decoded};
use crate::inflate::header::{
    dynamic_header_at, dynamic_header_end, dynamic_header_ok, lemma_dynamic_header_decodes,
    lemma_length_tokens_end_after, DynamicHeader,
};
use crate::inflate::huffman::{
    fixed_dist_lengths, fixed_litlen_lengths, lemma_fixed_dist_valid, lemma_fixed_litlen_valid,
};
use crate::inflate::tokens::{
    apply_tokens, lemma_tokens_decode, lemma_tokens_end_after, tokens_at, tokens_end, tokens_ok,
    Token,
};
use crate::inflate::{header_error, inflated, InflateError};
use vstd::prelude::*;

verus! {

/// One block of a stream.
pub enum Block {
    /// Bytes that are sent as they are.
    Stored { bytes: Seq<u8> },
    /// Tokens in the fixed codes.
    Fixed { tokens: Seq<Token> },
    /// Tokens in codes that the block brings in its header.
    Dynamic { header: DynamicHeader, tokens: Seq<Token> },
}

/// The two bits that tell the kind of a block.
pub open spec fn block_type(b: Block) -> nat {
    match b {
        Block::Stored { .. } => 0,
        Block::Fixed { .. } => 1,
        Block::Dynamic { .. } => 2,
    }
}

/// The block is one that the format has, and it can be carried out on
/// `out`: a stored block holds no more bytes than its length field counts,
/// the header of a dynamic block is in order, and the tokens of a compressed
/// block can be carried out.
pub open spec fn block_ok(b: Block, out: Seq<u8>) -> bool {
    match b {
        Block::Stored { bytes } => bytes.len() <= 0xFFFF,
        Block::Fixed { tokens } => tokens_ok(out, tokens),
        Block::Dynamic { header, tokens } => dynamic_header_ok(header) && tokens_ok(out, tokens),
    }
}

/// The output after a block.
pub open spec fn apply_block(out: Seq<u8>, b: Block) -> Seq<u8> {
    match b {
        Block::Stored { bytes } => out + bytes,
        Block::Fixed { tokens } => apply_tokens(out, tokens),
        Block::Dynamic { header, tokens } => apply_tokens(out, tokens),
    }
}

/// The index of the byte at which the length fields of a stored block
/// stand, whose three header bits end at bit `pos`.
pub open spec fn stored_fields_at(pos: nat) -> int {
    (next_byte_boundary(pos) / 8) as int
}

/// The position after a block whose three header bits end at bit `pos`.
pub open spec fn block_end(b: Block, pos: nat) -> nat {
    match b {
        Block::Stored { bytes } => (8 * (stored_fields_at(pos) + 4 + bytes.len())) as nat,
        Block::Fixed { tokens } => tokens_end(fixed_litlen_lengths(), fixed_dist_lengths(), tokens, pos),
        Block::Dynamic { header, tokens } => tokens_end(
            header.lit,
            header.dist,
            tokens,
            dynamic_header_end(header, pos),
        ),
    }
}

/// The body of a block stands at bit `pos` of `data`, behind the three
/// header bits.
///
/// A stored block has, from the next byte boundary on, its length and the
/// complement of its length in two bytes each, low byte first, and its
/// bytes. A compressed block has its tokens and the end-of-block symbol, a
/// dynamic block behind its header.
pub open spec fn block_body_at(b: Block, data: Seq<u8>, pos: nat) -> bool {
    match b {
        Block::Stored { bytes } => {
            let first = stored_fields_at(pos);
            &&& first + 4 + bytes.len() <= data.len()
            &&& data[first] + 256 * data[first + 1] == bytes.len()
            &&& data[first + 2] + 256 * data[first + 3] == 0xFFFF - bytes.len()
            &&& data.subrange(first + 4, first + 4 + bytes.len()) == bytes
        },
        Block::Fixed { tokens } => tokens_at(fixed_litlen_lengths(), fixed_dist_lengths(), tokens, data, pos),
        Block::Dynamic { header, tokens } => {
            &&& dynamic_header_at(header, data, pos)
            &&& tokens_at(header.lit, header.dist, tokens, data, dynamic_header_end(header, pos))
        },
    }
}

/// The block stands at bit `pos` of `data`: the bit that tells whether it
/// is the last, the two bits of its kind, and its body.
pub open spec fn block_at(b: Block, last: bool, data: Seq<u8>, pos: nat) -> bool {
    &&& bits_left(data, pos) >= 3
    &&& bits_at(data, pos, 1) == if last { 1nat } else { 0nat }
    &&& bits_at(data, pos + 1, 2) == block_type(b)
    &&& block_body_at(b, data, pos + 3)
}

/// The output after a sequence of blocks.
pub open spec fn apply_blocks(out: Seq<u8>, blocks: Seq<Block>) -> Seq<u8>
    decreases blocks.len(),
{
    if blocks.len() == 0 {
        out
    } else {
        apply_blocks(apply_block(out, blocks[0]), blocks.skip(1))
    }
}

/// Every block can be carried out on the output that the blocks before it
/// leave.
pub open spec fn blocks_ok(out: Seq<u8>, blocks: Seq<Block>) -> bool
    decreases blocks.len(),
{
    if blocks.len() == 0 {
        true
    } else {
        block_ok(blocks[0], out) && blocks_ok(apply_block(out, blocks[0]), blocks.skip(1))
    }
}

/// The position after a sequence of blocks that starts at bit `pos`.
pub open spec fn blocks_end(blocks: Seq<Block>, pos: nat) -> nat
    decreases blocks.len(),
{
    if blocks.len() == 0 {
        pos
    } else {
        blocks_end(blocks.skip(1), block_end(blocks[0], pos + 3))
    }
}

/// The blocks stand at bit `pos` of `data`, one after the other, and the
/// last of them is marked as the last.
pub open spec fn blocks_at(blocks: Seq<Block>, data: Seq<u8>, pos: nat) -> bool
    decreases blocks.len(),
{
    if blocks.len() == 0 {
        true
    } else {
        &&& block_at(blocks[0], blocks.len() == 1, data, pos)
        &&& blocks_at(blocks.skip(1), data, block_end(blocks[0], pos + 3))
    }
}

/// The zlib stream `input` holds the blocks: it has a header that is in
/// order, the blocks behind it, and behind the blocks at least the bits of
/// one table lookup. The checksum that ends a stream is four bytes, which
/// is more than those bits.
pub open spec fn stream_holds(input: Seq<u8>, blocks: Seq<Block>) -> bool {
    &&& input.len() >= 2
    &&& header_error(input[0], input[1]) is None
    &&& blocks.len() >= 1
    &&& blocks_ok(Seq::empty(), blocks)
    &&& blocks_at(blocks, input.subrange(2, input.len() as int), 0)
    &&& blocks_end(blocks, 0) + MAX_CODE_BITS <= 8 * (input.len() - 2)
}

/// A block ends at or after the bit where its body starts.
pub proof fn lemma_block_end_after(b: Block, pos: nat)
    ensures
        block_end(b, pos) >= pos,
{
    match b {
        Block::Stored { bytes } => {},
        Block::Fixed { tokens } => {
            lemma_tokens_end_after(fixed_litlen_lengths(), fixed_dist_lengths(), tokens, pos);
        },
        Block::Dynamic { header, tokens } => {
            lemma_length_tokens_end_after(header.cl, header.tokens, pos + 14 + 3 * header.cl_sent);
            lemma_tokens_end_after(header.lit, header.dist, tokens, dynamic_header_end(header, pos));
        },
    }
}

/// A sequence of blocks ends at or after the bit where it starts.
pub proof fn lemma_blocks_end_after(blocks: Seq<Block>, pos: nat)
    ensures
        blocks_end(blocks, pos) >= pos,
    decreases blocks.len(),
{
    if blocks.len() > 0 {
        lemma_block_end_after(blocks[0], pos + 3);
        lemma_blocks_end_after(blocks.skip(1), block_end(blocks[0], pos + 3));
    }
}

/// A stored block that stands in the data decodes to its bytes.
proof fn lemma_stored_body_decodes(bytes: Seq<u8>, data: Seq<u8>, pos: nat, out: Seq<u8>)
    requires
        block_ok(Block::Stored { bytes }, out),
        block_body_at(Block::Stored { bytes }, data, pos),
    ensures
        decode_stored(data, pos, out) == Ok::<Decoded, InflateError>(
            Decoded { pos: block_end(Block::Stored { bytes }, pos), out: out + bytes },
        ),
{
    let start = next_byte_boundary(pos);
    assert(start == 8 * stored_fields_at(pos));
}

/// The round trip through one block: a block that stands in the data, with
/// the bits of a table lookup left behind it, decodes to what it stands
/// for.
pub proof fn lemma_block_decodes(b: Block, data: Seq<u8>, pos: nat, out: Seq<u8>)
    requires
        block_ok(b, out),
        block_body_at(b, data, pos),
        block_end(b, pos) + MAX_CODE_BITS <= 8 * data.len(),
    ensures
        decode_block(data, pos, out, block_type(b)) == Ok::<Decoded, InflateError>(
            Decoded { pos: block_end(b, pos), out: apply_block(out, b) },
        ),
{
    match b {
        Block::Stored { bytes } => {
            lemma_stored_body_decodes(bytes, data, pos, out);
        },
        Block::Fixed { tokens } => {
            lemma_fixed_litlen_valid();
            lemma_fixed_dist_valid();
            lemma_tokens_decode(fixed_litlen_lengths(), fixed_dist_lengths(), tokens, data, pos, out);
        },
        Block::Dynamic { header, tokens } => {
            let start = dynamic_header_end(header, pos);
            lemma_tokens_end_after(header.lit, header.dist, tokens, start);
            lemma_dynamic_header_decodes(header, data, pos);
            lemma_tokens_decode(header.lit, header.dist, tokens, data, start, out);
        },
    }
}

/// Decoding the blocks of `data` from bit `pos` on, with `out` decoded so
/// far, ends at bit `end` with the output `result`.
#[verifier::opaque]
pub open spec fn blocks_decode_as(data: Seq<u8>, pos: nat, out: Seq<u8>, end: nat, result: Seq<u8>) -> bool {
    decode_blocks(data, pos, out) == Ok::<Decoded, InflateError>(Decoded { pos: end, out: result })
}

/// Where a block decodes, and is the last or is followed by blocks that
/// decode, the blocks from that block on decode.
proof fn lemma_blocks_decode_step(
    b: Block,
    last: bool,
    data: Seq<u8>,
    pos: nat,
    out: Seq<u8>,
    end: nat,
    result: Seq<u8>,
)
    requires
        block_ok(b, out),
        block_at(b, last, data, pos),
        block_end(b, pos + 3) + MAX_CODE_BITS <= 8 * data.len(),
        last ==> end == block_end(b, pos + 3) && result == apply_block(out, b),
        !last ==> blocks_decode_as(data, block_end(b, pos + 3), apply_block(out, b), end, result),
    ensures
        blocks_decode_as(data, pos, out, end, result),
{
    reveal(blocks_decode_as);
    lemma_block_decodes(b, data, pos + 3, out);
}

/// The round trip through the blocks of a stream: blocks that stand in the
/// data, with the bits of a table lookup left behind them, decode to what
/// they stand for.
pub proof fn lemma_blocks_decode(blocks: Seq<Block>, data: Seq<u8>, pos: nat, out: Seq<u8>)
    requires
        blocks.len() >= 1,
        blocks_ok(out, blocks),
        blocks_at(blocks, data, pos),
        blocks_end(blocks, pos) + MAX_CODE_BITS <= 8 * data.len(),
    ensures
        blocks_decode_as(data, pos, out, blocks_end(blocks, pos), apply_blocks(out, blocks)),
    decreases blocks.len(),
{
    let b = blocks[0];
    let rest = blocks.skip(1);
    let next = block_end(b, pos + 3);
    let after = apply_block(out, b);
    lemma_blocks_end_after(rest, next);
    if blocks.len() == 1 {
        assert(blocks_end(rest, next) == next);
        assert(apply_blocks(after, rest) == after);
        lemma_blocks_decode_step(b, true, data, pos, out, next, after);
    } else {
        lemma_blocks_decode(rest, data, next, after);
        lemma_blocks_decode_step(
            b,
            false,
            data,
            pos,
            out,
            blocks_end(blocks, pos),
            apply_blocks(out, blocks),
        );
    }
}

/// The round trip: a zlib stream that holds blocks decodes to the bytes
/// that the blocks stand for, whatever blocks, tokens and codes its encoder
/// chose.
pub proof fn lemma_round_trip(input: Seq<u8>, blocks: Seq<Block>)
    requires
        stream_holds(input, blocks),
    ensures
        inflated(input) == Ok::<Seq<u8>, InflateError>(apply_blocks(Seq::empty(), blocks)),
{
    reveal(blocks_decode_as);
    lemma_blocks_decode(blocks, input.subrange(2, input.len() as int), 0, Seq::empty());
}

} // verus!
