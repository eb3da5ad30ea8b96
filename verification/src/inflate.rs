//! The DEFLATE decode engine and its zlib entry point.

use crate::inflate::block::inflate_blocks;
use crate::inflate::format::{decode_blocks, output_of};
use vstd::prelude::*;

pub mod append;
pub mod bitreader;
pub mod bits;
pub mod block;
pub mod canonical;
pub mod complete;
pub mod format;
pub mod header;
pub mod huffman;
pub mod laws;
pub mod prefix;
pub mod stored;
pub mod stream;
pub mod tokens;
pub mod truncation;

verus! {

/// The closed set of reasons for which decoding stops.
#[derive(Debug, Clone, Copy, PartialEq, Eq, Structural)]
pub enum InflateError {
    /// The bit stream ended before a required field was fully read.
    InputTooShort,
    /// The zlib header checksum failed.
    InvalidHeader,
    /// The compression method is not DEFLATE, a preset dictionary is
    /// requested, or a block has the reserved type.
    Unsupported,
    /// A stored block's length fields disagree, or a back-reference points
    /// before the start of the output.
    BadBlockData,
    /// A code length vector, a code or a symbol that the format does not allow.
    BadHuffmanCode,
    /// Kept for decoders that cap the size of their output.
    OutputOverflow,
}

/// The compression method that stands for DEFLATE.
pub const METHOD_DEFLATE: u8 = 8;

/// The bit of FLG that announces a preset dictionary.
pub const FLAG_PRESET_DICTIONARY: u8 = 0x20;

/// The header checksum holds: CMF and FLG, read as one 16-bit number with
/// CMF first, are a multiple of 31.
pub open spec fn header_checksum_ok(cmf: u8, flg: u8) -> bool {
    (cmf * 256 + flg) % 31 == 0
}

/// The compression method: the low four bits of CMF.
pub open spec fn compression_method(cmf: u8) -> u8 {
    cmf % 16
}

/// FLG announces a preset dictionary: its bit 5 is set.
pub open spec fn has_preset_dictionary(flg: u8) -> bool {
    (flg / 32) % 2 == 1
}

/// Why the two header bytes are refused, if they are: first the checksum,
/// then the compression method, then the preset dictionary.
pub open spec fn header_error(cmf: u8, flg: u8) -> Option<InflateError> {
    if !header_checksum_ok(cmf, flg) {
        Some(InflateError::InvalidHeader)
    } else if compression_method(cmf) != METHOD_DEFLATE {
        Some(InflateError::Unsupported)
    } else if has_preset_dictionary(flg) {
        Some(InflateError::Unsupported)
    } else {
        None
    }
}

/// What a zlib stream decodes to: after the two header bytes, the blocks of
/// the DEFLATE stream up to the first final block. The checksum that follows
/// them is not looked at.
pub open spec fn inflated(input: Seq<u8>) -> Result<Seq<u8>, InflateError> {
    if input.len() < 2 {
        Err(InflateError::InputTooShort)
    } else {
        match header_error(input[0], input[1]) {
            Some(e) => Err(e),
            None => output_of(decode_blocks(input.subrange(2, input.len() as int), 0, Seq::empty())),
        }
    }
}

/// The number of bytes of a stream that decodes, up to and including the
/// last byte that holds a bit of its final block.
pub open spec fn bytes_decoded(input: Seq<u8>) -> nat
    recommends
        inflated(input) is Ok,
{
    match decode_blocks(input.subrange(2, input.len() as int), 0, Seq::empty()) {
        Ok(d) => 2 + (d.pos + 7) / 8,
        Err(_) => 0,
    }
}

/// The result `r` of a decoder is what `expected` says: the same error, or
/// a vector that holds the expected bytes.
pub open spec fn result_is(
    r: Result<Vec<u8>, InflateError>,
    expected: Result<Seq<u8>, InflateError>,
) -> bool {
    match expected {
        Ok(bytes) => r matches Ok(v) && v@ == bytes,
        Err(e) => r matches Err(e2) && e2 == e,
    }
}

/// Decodes a zlib stream held in memory into the bytes it stands for, or
/// tells the first violation found.
///
/// The input is too short if it has fewer than two bytes. The header is
/// checked in this order: checksum (`InvalidHeader`), compression method and
/// preset dictionary flag (`Unsupported`). Then the blocks are decoded up to
/// the first final block; nothing after it is looked at, so the checksum of
/// the output that ends a stream is not verified.
pub fn inflate_zlib(input: &[u8]) -> (r: Result<Vec<u8>, InflateError>)
    ensures
        result_is(r, inflated(input@)),
        input@.len() < 2 ==> r == Err::<Vec<u8>, InflateError>(InflateError::InputTooShort),
        input@.len() >= 2 && !header_checksum_ok(input@[0], input@[1]) ==> r == Err::<Vec<u8>, InflateError>(
            InflateError::InvalidHeader,
        ),
{
    if input.len() < 2 {
        return Err(InflateError::InputTooShort);
    }
    let cmf = input[0];
    let flg = input[1];
    proof {
        assert((((cmf as u16) << 8) | (flg as u16)) == (cmf as u16) * 256 + (flg as u16)) by (bit_vector);
        assert(cmf & 0x0f == cmf % 16) by (bit_vector);
        assert((flg & 0x20 != 0) == ((flg / 32) % 2 == 1)) by (bit_vector);
    }
    if (((cmf as u16) << 8) | (flg as u16)) % 31 != 0 {
        return Err(InflateError::InvalidHeader);
    }
    if cmf & 0x0f != METHOD_DEFLATE {
        return Err(InflateError::Unsupported);
    }
    if flg & FLAG_PRESET_DICTIONARY != 0 {
        return Err(InflateError::Unsupported);
    }
    inflate_blocks(vstd::slice::slice_subrange(input, 2, input.len()))
}

} // verus!
