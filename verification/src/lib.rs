//! Single-shot, in-memory decoder for zlib-wrapped DEFLATE streams.
//!
//! [`inflate_zlib`] takes a complete compressed buffer and gives the
//! decompressed bytes, or the first violation found as an [`InflateError`].
//! The parts it is built from are public too: the bit cursor
//! ([`inflate::bitreader`]) and the Huffman decode tables
//! ([`inflate::huffman`]).
//!
//! Every function is verified against a mathematical description of the
//! format: bit fields of a byte sequence ([`inflate::bits`]), canonical
//! Huffman codes ([`inflate::canonical`]) and the meaning of a stream of
//! blocks ([`inflate::format`]). What holds of the decoder as a whole is
//! proved in [`inflate::laws`], [`inflate::prefix`], [`inflate::complete`],
//! [`inflate::truncation`], [`inflate::append`] and [`inflate::stored`].
//! The round trip, for every stream that holds blocks in the layout of the
//! format, is proved in [`inflate::stream`], on top of
//! [`inflate::tokens`] and [`inflate::header`].

pub mod inflate;

pub use inflate::{inflate_zlib, InflateError};
