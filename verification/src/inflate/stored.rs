//! The plainest zlib stream for given bytes, made of stored blocks only, and
//! the proof that decoding it gives the bytes back. It shows that every byte
//! sequence has a stream that holds it.

use crate::inflate::bits::{
    bits_at, bits_left, lemma_bits_at_byte, lemma_bits_at_div_mod, next_byte_boundary,
};
use crate::inflate::format::{decode_block, decode_blocks, decode_stored, output_of, Decoded};
use crate::inflate::stream::{
    apply_block, apply_blocks, block_at, block_end, block_ok, blocks_at, blocks_end, blocks_ok,
    stored_fields_at, stream_holds, Block,
};
use crate::inflate::truncation::lemma_extension;
use crate::inflate::{header_error, inflated, InflateError};
use vstd::arithmetic::power2::lemma2_to64;
use vstd::prelude::*;

verus! {

/// The most bytes that one stored block holds.
pub const MAX_STORED_LEN: usize = 0xFFFF;

/// One stored block with the given bytes: the header bits in a byte of
/// their own, LEN, its complement NLEN, and the bytes.
pub open spec fn stored_block(bytes: Seq<u8>, last: bool) -> Seq<u8>
    recommends
        bytes.len() <= MAX_STORED_LEN,
{
    let len = bytes.len();
    seq![
        if last { 1u8 } else { 0u8 },
        (len % 256) as u8,
        (len / 256) as u8,
        (255 - len % 256) as u8,
        (255 - len / 256) as u8,
    ] + bytes
}

/// A DEFLATE stream of stored blocks that holds `bytes`: full blocks as long
/// as more than one block's worth is left, then a final block with the
/// rest.
pub open spec fn stored_blocks(bytes: Seq<u8>) -> Seq<u8>
    decreases bytes.len(),
{
    if bytes.len() <= MAX_STORED_LEN {
        stored_block(bytes, true)
    } else {
        stored_block(bytes.take(MAX_STORED_LEN as int), false) + stored_blocks(
            bytes.skip(MAX_STORED_LEN as int),
        )
    }
}

/// A zlib stream that holds `bytes` uncompressed, without the checksum
/// that a complete stream ends with.
pub open spec fn stored_stream(bytes: Seq<u8>) -> Seq<u8> {
    seq![0x78u8, 0x01u8] + stored_blocks(bytes)
}

/// The three header bits of a block that starts at byte `k` are the low
/// bits of that byte.
proof fn lemma_header_bits(data: Seq<u8>, k: int)
    requires
        0 <= k < data.len(),
    ensures
        bits_at(data, (8 * k) as nat, 1) == data[k] % 2,
        bits_at(data, (8 * k + 1) as nat, 2) == (data[k] / 2) % 4,
{
    let p = (8 * k) as nat;
    lemma2_to64();
    lemma_bits_at_byte(data, k as nat);
    lemma_bits_at_div_mod(data, p, 1, 7);
    lemma_bits_at_div_mod(data, p, 3, 5);
    lemma_bits_at_div_mod(data, p, 1, 2);
    let d = data[k] as nat;
    assert((d % 8) / 2 == (d / 2) % 4);
}

/// From byte `k` on, `data` holds a stored block with the given bytes.
#[verifier::opaque]
pub open spec fn holds_stored_block(data: Seq<u8>, k: int, bytes: Seq<u8>, last: bool) -> bool {
    &&& 0 <= k
    &&& bytes.len() <= MAX_STORED_LEN
    &&& k + 5 + bytes.len() <= data.len()
    &&& data.subrange(k, k + 5 + bytes.len()) == stored_block(bytes, last)
}

/// From byte `k` on, `data` holds the stream of stored blocks for `bytes`.
#[verifier::opaque]
pub open spec fn holds_stored_blocks(data: Seq<u8>, k: int, bytes: Seq<u8>) -> bool {
    &&& 0 <= k
    &&& k + stored_blocks(bytes).len() <= data.len()
    &&& data.subrange(k, k + stored_blocks(bytes).len()) == stored_blocks(bytes)
}

/// Decoding the blocks of `data` from byte `k` on, with `out` decoded so
/// far, gives `result`.
#[verifier::opaque]
pub open spec fn blocks_decode_to(data: Seq<u8>, k: int, out: Seq<u8>, result: Seq<u8>) -> bool {
    output_of(decode_blocks(data, (8 * k) as nat, out)) == Ok::<Seq<u8>, InflateError>(result)
}

/// The five bytes before the payload of a stored block, and the payload.
proof fn lemma_stored_block_bytes(data: Seq<u8>, k: int, bytes: Seq<u8>, last: bool)
    requires
        holds_stored_block(data, k, bytes, last),
    ensures
        0 <= k,
        bytes.len() <= MAX_STORED_LEN,
        k + 5 + bytes.len() <= data.len(),
        data[k] == if last { 1u8 } else { 0u8 },
        data[k + 1] + 256 * data[k + 2] == bytes.len(),
        data[k + 3] + 256 * data[k + 4] == 0xFFFF - bytes.len(),
        data.subrange(k + 5, k + 5 + bytes.len()) == bytes,
{
    reveal(holds_stored_block);
    let block = stored_block(bytes, last);
    let n = bytes.len() as int;
    let held = data.subrange(k, k + 5 + n);
    assert(held[0] == block[0]);
    assert(held[1] == block[1]);
    assert(held[2] == block[2]);
    assert(held[3] == block[3]);
    assert(held[4] == block[4]);
    assert forall|i: int| 0 <= i < n implies data[k + 5 + i] == bytes[i] by {
        assert(held[5 + i] == block[5 + i]);
    }
    assert(data.subrange(k + 5, k + 5 + n) =~= bytes);
}

/// The body of a stored block decodes to its bytes.
proof fn lemma_stored_body_decodes(data: Seq<u8>, k: int, out: Seq<u8>, bytes: Seq<u8>)
    requires
        0 <= k,
        k + 5 + bytes.len() <= data.len(),
        data[k + 1] + 256 * data[k + 2] == bytes.len(),
        data[k + 3] + 256 * data[k + 4] == 0xFFFF - bytes.len(),
        data.subrange(k + 5, k + 5 + bytes.len()) == bytes,
    ensures
        decode_stored(data, (8 * k + 3) as nat, out) == Ok::<Decoded, InflateError>(
            Decoded { pos: (8 * (k + 5 + bytes.len())) as nat, out: out + bytes },
        ),
{
    let start = next_byte_boundary((8 * k + 3) as nat);
    assert(start == 8 * (k + 1));
    assert(start / 8 == k + 1);
}

/// Decoding the blocks from a stored block on: its bytes are appended, and
/// decoding ends there or goes on behind it.
proof fn lemma_stored_block_step(data: Seq<u8>, k: int, out: Seq<u8>, bytes: Seq<u8>, last: bool)
    requires
        holds_stored_block(data, k, bytes, last),
    ensures
        decode_blocks(data, (8 * k) as nat, out) == if last {
            Ok::<Decoded, InflateError>(
                Decoded { pos: (8 * (k + 5 + bytes.len())) as nat, out: out + bytes },
            )
        } else {
            decode_blocks(data, (8 * (k + 5 + bytes.len())) as nat, out + bytes)
        },
{
    lemma_stored_block_bytes(data, k, bytes, last);
    lemma_header_bits(data, k);
    lemma_stored_body_decodes(data, k, out, bytes);
    let pos = (8 * k) as nat;
    assert(pos + 3 == (8 * k + 3) as nat);
    assert(pos + 1 == (8 * k + 1) as nat);
    assert(bits_left(data, pos) >= 3);
    assert(bits_at(data, pos + 1, 2) == 0);
    assert(decode_block(data, pos + 3, out, 0) == decode_stored(data, pos + 3, out));
}

/// Where the last stored block decodes, or a block and what follows it,
/// the blocks from that block on decode.
proof fn lemma_blocks_decode_step(
    data: Seq<u8>,
    k: int,
    out: Seq<u8>,
    bytes: Seq<u8>,
    last: bool,
    result: Seq<u8>,
)
    requires
        holds_stored_block(data, k, bytes, last),
        last ==> result == out + bytes,
        !last ==> blocks_decode_to(data, k + 5 + bytes.len(), out + bytes, result),
    ensures
        blocks_decode_to(data, k, out, result),
{
    reveal(blocks_decode_to);
    lemma_stored_block_step(data, k, out, bytes, last);
}

/// Where `data` holds `first + second` from byte `k` on, it holds `first`
/// there and `second` behind it.
proof fn lemma_subrange_of_concat(data: Seq<u8>, k: int, first: Seq<u8>, second: Seq<u8>)
    requires
        0 <= k,
        k + first.len() + second.len() <= data.len(),
        data.subrange(k, k + first.len() + second.len()) == first + second,
    ensures
        data.subrange(k, k + first.len()) == first,
        data.subrange(k + first.len(), k + first.len() + second.len()) == second,
{
    let whole = data.subrange(k, k + first.len() + second.len());
    assert forall|i: int| 0 <= i < first.len() implies data[k + i] == first[i] by {
        assert(whole[i] == (first + second)[i]);
    }
    assert forall|i: int| 0 <= i < second.len() implies data[k + first.len() + i] == second[i] by {
        assert(whole[first.len() + i] == (first + second)[first.len() + i]);
    }
    assert(data.subrange(k, k + first.len()) =~= first);
    assert(data.subrange(k + first.len(), k + first.len() + second.len()) =~= second);
}

/// Where `data` holds stored blocks from byte `k` on, it holds there the
/// one block that is the last, or a full block and behind it the blocks of
/// the bytes that are left.
proof fn lemma_holds_first_block(data: Seq<u8>, k: int, bytes: Seq<u8>)
    requires
        holds_stored_blocks(data, k, bytes),
    ensures
        bytes.len() <= MAX_STORED_LEN ==> holds_stored_block(data, k, bytes, true),
        bytes.len() > MAX_STORED_LEN ==> holds_stored_block(
            data,
            k,
            bytes.take(MAX_STORED_LEN as int),
            false,
        ) && holds_stored_blocks(data, k + 5 + MAX_STORED_LEN, bytes.skip(MAX_STORED_LEN as int)),
{
    reveal(holds_stored_blocks);
    reveal(holds_stored_block);
    if bytes.len() > MAX_STORED_LEN {
        let head = bytes.take(MAX_STORED_LEN as int);
        let tail = bytes.skip(MAX_STORED_LEN as int);
        let block = stored_block(head, false);
        let rest = stored_blocks(tail);
        assert(stored_blocks(bytes) == block + rest);
        assert(block.len() == 5 + MAX_STORED_LEN);
        lemma_subrange_of_concat(data, k, block, rest);
    } else {
        assert(stored_blocks(bytes) == stored_block(bytes, true));
    }
}

/// Stored blocks that `data` holds from byte `k` on decode to their bytes,
/// appended to the output so far.
pub proof fn lemma_stored_blocks_decode(data: Seq<u8>, k: int, out: Seq<u8>, bytes: Seq<u8>)
    requires
        holds_stored_blocks(data, k, bytes),
    ensures
        blocks_decode_to(data, k, out, out + bytes),
    decreases bytes.len(),
{
    lemma_holds_first_block(data, k, bytes);
    if bytes.len() <= MAX_STORED_LEN {
        lemma_blocks_decode_step(data, k, out, bytes, true, out + bytes);
    } else {
        let head = bytes.take(MAX_STORED_LEN as int);
        let tail = bytes.skip(MAX_STORED_LEN as int);
        lemma_stored_blocks_decode(data, k + 5 + MAX_STORED_LEN, out + head, tail);
        assert((out + head) + tail =~= out + bytes);
        lemma_blocks_decode_step(data, k, out, head, false, out + bytes);
    }
}

/// Decoding the zlib stream `input` gives `bytes`.
#[verifier::opaque]
pub open spec fn stream_decodes_to(input: Seq<u8>, bytes: Seq<u8>) -> bool {
    inflated(input) == Ok::<Seq<u8>, InflateError>(bytes)
}

/// A stream with a good header decodes to what its blocks decode to.
proof fn lemma_stream_of_blocks(input: Seq<u8>, bytes: Seq<u8>)
    requires
        input.len() >= 2,
        header_error(input[0], input[1]) is None,
        blocks_decode_to(input.subrange(2, input.len() as int), 0, Seq::empty(), bytes),
    ensures
        stream_decodes_to(input, bytes),
{
    reveal(blocks_decode_to);
    reveal(stream_decodes_to);
}

/// The stream of stored blocks for `bytes` decodes to `bytes`.
proof fn lemma_stored_stream_decodes(bytes: Seq<u8>)
    ensures
        stream_decodes_to(stored_stream(bytes), bytes),
{
    let input = stored_stream(bytes);
    let body = input.subrange(2, input.len() as int);
    assert(body =~= stored_blocks(bytes));
    assert(holds_stored_blocks(body, 0, bytes)) by {
        reveal(holds_stored_blocks);
        assert(body.subrange(0, body.len() as int) =~= body);
    }
    lemma_stored_blocks_decode(body, 0, Seq::empty(), bytes);
    assert(Seq::<u8>::empty() + bytes =~= bytes);
    assert(input[0] == 0x78 && input[1] == 0x01);
    lemma_stream_of_blocks(input, bytes);
}

/// The round trip through stored blocks: for every byte sequence, decoding
/// the stream of stored blocks that holds it gives the sequence back,
/// whatever bytes follow the stream.
pub proof fn lemma_stored_round_trip(bytes: Seq<u8>, trailer: Seq<u8>)
    ensures
        inflated(stored_stream(bytes) + trailer) == Ok::<Seq<u8>, InflateError>(bytes),
{
    reveal(stream_decodes_to);
    lemma_stored_stream_decodes(bytes);
    lemma_extension(stored_stream(bytes), trailer);
}

/// The stored blocks that the stream for `bytes` is made of.
pub open spec fn stored_block_list(bytes: Seq<u8>) -> Seq<Block>
    decreases bytes.len(),
{
    if bytes.len() <= MAX_STORED_LEN {
        seq![Block::Stored { bytes }]
    } else {
        seq![Block::Stored { bytes: bytes.take(MAX_STORED_LEN as int) }] + stored_block_list(
            bytes.skip(MAX_STORED_LEN as int),
        )
    }
}

/// A list of blocks with one block in front.
proof fn lemma_block_list_parts(b: Block, rest: Seq<Block>)
    ensures
        (seq![b] + rest).len() == 1 + rest.len(),
        (seq![b] + rest)[0] == b,
        (seq![b] + rest).skip(1) == rest,
{
    assert((seq![b] + rest).skip(1) =~= rest);
}

/// A stored block that `data` holds from byte `k` on stands there in the
/// layout of the format.
proof fn lemma_stored_block_stands(data: Seq<u8>, k: int, bytes: Seq<u8>, last: bool)
    requires
        holds_stored_block(data, k, bytes, last),
    ensures
        0 <= k,
        block_ok(Block::Stored { bytes }, Seq::empty()),
        block_at(Block::Stored { bytes }, last, data, (8 * k) as nat),
        block_end(Block::Stored { bytes }, (8 * k + 3) as nat) == 8 * (k + 5 + bytes.len()),
{
    lemma_stored_block_bytes(data, k, bytes, last);
    lemma_header_bits(data, k);
    let pos = (8 * k) as nat;
    assert(pos + 3 == (8 * k + 3) as nat);
    assert(pos + 1 == (8 * k + 1) as nat);
    assert(next_byte_boundary((8 * k + 3) as nat) == 8 * (k + 1));
    assert(stored_fields_at((8 * k + 3) as nat) == k + 1);
}

/// The stored blocks that `data` holds from byte `k` on stand there in the
/// layout of the format, and they stand for their bytes.
proof fn lemma_stored_blocks_stand(data: Seq<u8>, k: int, out: Seq<u8>, bytes: Seq<u8>)
    requires
        holds_stored_blocks(data, k, bytes),
    ensures
        stored_block_list(bytes).len() >= 1,
        blocks_ok(out, stored_block_list(bytes)),
        blocks_at(stored_block_list(bytes), data, (8 * k) as nat),
        blocks_end(stored_block_list(bytes), (8 * k) as nat) == 8 * (k + stored_blocks(bytes).len()),
        apply_blocks(out, stored_block_list(bytes)) == out + bytes,
    decreases bytes.len(),
{
    lemma_holds_first_block(data, k, bytes);
    let list = stored_block_list(bytes);
    let pos = (8 * k) as nat;
    if bytes.len() <= MAX_STORED_LEN {
        let b = Block::Stored { bytes };
        let none = Seq::<Block>::empty();
        let next = block_end(b, pos + 3);
        lemma_stored_block_stands(data, k, bytes, true);
        assert(pos + 3 == (8 * k + 3) as nat);
        lemma_block_list_parts(b, none);
        assert(list == seq![b] + none);
        assert(stored_blocks(bytes).len() == 5 + bytes.len());
        assert(block_ok(b, out));
        assert(blocks_ok(out + bytes, none));
        assert(blocks_at(none, data, next));
        assert(blocks_end(none, next) == next);
        assert(apply_blocks(out + bytes, none) == out + bytes);
        assert(apply_block(out, b) == out + bytes);
    } else {
        let head = bytes.take(MAX_STORED_LEN as int);
        let tail = bytes.skip(MAX_STORED_LEN as int);
        let b = Block::Stored { bytes: head };
        let rest = stored_block_list(tail);
        lemma_stored_block_stands(data, k, head, false);
        assert(pos + 3 == (8 * k + 3) as nat);
        lemma_stored_blocks_stand(data, k + 5 + MAX_STORED_LEN, out + head, tail);
        lemma_block_list_parts(b, rest);
        assert(list == seq![b] + rest);
        assert(stored_blocks(bytes).len() == 5 + MAX_STORED_LEN + stored_blocks(tail).len());
        assert((8 * (k + 5 + MAX_STORED_LEN)) as nat == block_end(b, pos + 3));
        assert(block_ok(b, out));
        assert(apply_block(out, b) == out + head);
        assert((out + head) + tail =~= out + bytes);
    }
}

/// Every byte sequence has a stream that holds it: the stream of stored
/// blocks, with two or more bytes behind it, holds blocks that stand for
/// the sequence.
pub proof fn lemma_stored_stream_holds(bytes: Seq<u8>, trailer: Seq<u8>)
    requires
        trailer.len() >= 2,
    ensures
        stream_holds(stored_stream(bytes) + trailer, stored_block_list(bytes)),
        apply_blocks(Seq::empty(), stored_block_list(bytes)) == bytes,
{
    let input = stored_stream(bytes) + trailer;
    let body = input.subrange(2, input.len() as int);
    assert(holds_stored_blocks(body, 0, bytes)) by {
        reveal(holds_stored_blocks);
        assert(body.subrange(0, stored_blocks(bytes).len() as int) =~= stored_blocks(bytes));
    }
    lemma_stored_blocks_stand(body, 0, Seq::empty(), bytes);
    assert(Seq::<u8>::empty() + bytes =~= bytes);
    assert(input[0] == 0x78 && input[1] == 0x01);
}

} // verus!
