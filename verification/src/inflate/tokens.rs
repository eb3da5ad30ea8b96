//! What an encoder writes into a compressed block, and the proof that
//! decoding gives it back.
//!
//! A compressed block stands for a sequence of tokens: literal bytes and
//! matches. An encoder is free in its choice of tokens and of codes; what
//! makes its output a block is that the codes of the tokens, and then the
//! code of the end-of-block symbol, stand in the data one after the other.
//! That relation is stated here without any reference to the decoder, and
//! the decoder is shown to give, for every block that satisfies it, the
//! bytes that the tokens stand for.

use crate::inflate::bits::{bits_at, bits_left};
use crate::inflate::canonical::{
    canonical_code, canonical_table, lemma_canonical_table_wf, lemma_max_length_valid,
    lengths_valid, reversed_bits, MAX_CODE_BITS,
};
use crate::inflate::format::{
    copy_match, decode_match, decode_symbols, dist_base, dist_extra_bits, length_base,
    length_extra_bits, Decoded, END_OF_BLOCK, FIRST_LENGTH_SYMBOL, LAST_DISTANCE_SYMBOL,
    LAST_LENGTH_SYMBOL,
};
use crate::inflate::huffman::decode_symbol;
use crate::inflate::laws::lemma_symbol_read_from_reversed_code;
use crate::inflate::InflateError;
use vstd::arithmetic::power2::pow2;
use vstd::prelude::*;

verus! {

/// One step of a compressed block.
pub enum Token {
    /// One byte of output.
    Literal { byte: u8 },
    /// A back-reference, given as the encoder sends it: the symbols of
    /// length and distance, each with the value of its extra bits.
    Match { length_symbol: nat, length_extra: nat, distance_symbol: nat, distance_extra: nat },
}

/// The match length that a token stands for.
pub open spec fn match_length(t: Token) -> nat
    recommends
        t is Match,
{
    length_base(t->length_symbol) + t->length_extra
}

/// The distance that a token stands for.
pub open spec fn match_distance(t: Token) -> nat
    recommends
        t is Match,
{
    dist_base(t->distance_symbol) + t->distance_extra
}

/// The token is one that the format has, and it can be carried out on an
/// output of `out_len` bytes: the symbols are in range, the extra values fit
/// their bits, and the distance does not reach before the output.
pub open spec fn token_ok(t: Token, out_len: nat) -> bool {
    match t {
        Token::Literal { byte } => true,
        Token::Match { length_symbol, length_extra, distance_symbol, distance_extra } => {
            &&& FIRST_LENGTH_SYMBOL <= length_symbol <= LAST_LENGTH_SYMBOL
            &&& length_extra < pow2(length_extra_bits(length_symbol))
            &&& distance_symbol <= LAST_DISTANCE_SYMBOL
            &&& distance_extra < pow2(dist_extra_bits(distance_symbol))
            &&& 1 <= match_distance(t) <= out_len
        },
    }
}

/// The output after a token.
pub open spec fn apply_token(out: Seq<u8>, t: Token) -> Seq<u8> {
    match t {
        Token::Literal { byte } => out.push(byte),
        Token::Match { .. } => copy_match(out, match_distance(t), match_length(t)),
    }
}

/// The output after a sequence of tokens: the bytes that the tokens stand
/// for, appended to `out`.
pub open spec fn apply_tokens(out: Seq<u8>, tokens: Seq<Token>) -> Seq<u8>
    decreases tokens.len(),
{
    if tokens.len() == 0 {
        out
    } else {
        apply_tokens(apply_token(out, tokens[0]), tokens.skip(1))
    }
}

/// Every token can be carried out on the output that the tokens before it
/// leave.
pub open spec fn tokens_ok(out: Seq<u8>, tokens: Seq<Token>) -> bool
    decreases tokens.len(),
{
    if tokens.len() == 0 {
        true
    } else {
        token_ok(tokens[0], out.len()) && tokens_ok(apply_token(out, tokens[0]), tokens.skip(1))
    }
}

/// Symbol `s` has a code in the code of `lengths`, and that code stands at
/// bit `pos` of `data`, its first bit first.
pub open spec fn symbol_at(lengths: Seq<u8>, s: nat, data: Seq<u8>, pos: nat) -> bool {
    &&& s < lengths.len()
    &&& lengths[s as int] > 0
    &&& bits_left(data, pos) >= lengths[s as int]
    &&& bits_at(data, pos, lengths[s as int] as nat) == reversed_bits(
        canonical_code(lengths, s as int),
        lengths[s as int] as nat,
    )
}

/// The number of bits that a token takes.
pub open spec fn token_bits(lit: Seq<u8>, dist: Seq<u8>, t: Token) -> nat {
    match t {
        Token::Literal { byte } => lit[byte as int] as nat,
        Token::Match { length_symbol, length_extra, distance_symbol, distance_extra } => {
            lit[length_symbol as int] as nat + length_extra_bits(length_symbol)
                + dist[distance_symbol as int] as nat + dist_extra_bits(distance_symbol)
        },
    }
}

/// The token stands at bit `pos` of `data`: the code of its symbol, and for
/// a match the extra bits of the length, the code of the distance symbol and
/// the extra bits of the distance.
pub open spec fn token_at(lit: Seq<u8>, dist: Seq<u8>, t: Token, data: Seq<u8>, pos: nat) -> bool {
    match t {
        Token::Literal { byte } => symbol_at(lit, byte as nat, data, pos),
        Token::Match { length_symbol, length_extra, distance_symbol, distance_extra } => {
            let after_length = pos + lit[length_symbol as int] as nat;
            let after_extra = after_length + length_extra_bits(length_symbol);
            let after_distance = after_extra + dist[distance_symbol as int] as nat;
            &&& symbol_at(lit, length_symbol, data, pos)
            &&& bits_left(data, after_length) >= length_extra_bits(length_symbol)
            &&& bits_at(data, after_length, length_extra_bits(length_symbol)) == length_extra
            &&& symbol_at(dist, distance_symbol, data, after_extra)
            &&& bits_left(data, after_distance) >= dist_extra_bits(distance_symbol)
            &&& bits_at(data, after_distance, dist_extra_bits(distance_symbol)) == distance_extra
        },
    }
}

/// The position after the tokens and the end-of-block symbol that follows
/// them.
pub open spec fn tokens_end(lit: Seq<u8>, dist: Seq<u8>, tokens: Seq<Token>, pos: nat) -> nat
    decreases tokens.len(),
{
    if tokens.len() == 0 {
        pos + lit[END_OF_BLOCK as int] as nat
    } else {
        tokens_end(lit, dist, tokens.skip(1), pos + token_bits(lit, dist, tokens[0]))
    }
}

/// The tokens stand at bit `pos` of `data`, one after the other, and the
/// end-of-block symbol after them.
pub open spec fn tokens_at(lit: Seq<u8>, dist: Seq<u8>, tokens: Seq<Token>, data: Seq<u8>, pos: nat) -> bool
    decreases tokens.len(),
{
    if tokens.len() == 0 {
        symbol_at(lit, END_OF_BLOCK as nat, data, pos)
    } else {
        &&& token_at(lit, dist, tokens[0], data, pos)
        &&& tokens_at(lit, dist, tokens.skip(1), data, pos + token_bits(lit, dist, tokens[0]))
    }
}

/// The tokens end at or after the bit where they start.
pub proof fn lemma_tokens_end_after(lit: Seq<u8>, dist: Seq<u8>, tokens: Seq<Token>, pos: nat)
    ensures
        tokens_end(lit, dist, tokens, pos) >= pos,
    decreases tokens.len(),
{
    if tokens.len() > 0 {
        lemma_tokens_end_after(lit, dist, tokens.skip(1), pos + token_bits(lit, dist, tokens[0]));
    }
}

/// A symbol whose code stands in the data is read, where the bits of a
/// table lookup are left.
pub proof fn lemma_symbol_at_is_read(lengths: Seq<u8>, s: nat, data: Seq<u8>, pos: nat)
    requires
        lengths_valid(lengths),
        symbol_at(lengths, s, data, pos),
        bits_left(data, pos) >= MAX_CODE_BITS,
    ensures
        decode_symbol(canonical_table(lengths), data, pos) == Ok::<(nat, nat), InflateError>(
            (s, pos + lengths[s as int] as nat),
        ),
        canonical_table(lengths).wf(),
{
    lemma_max_length_valid(lengths, lengths.len() as int);
    lemma_canonical_table_wf(lengths);
    lemma_symbol_read_from_reversed_code(lengths, s as int, data, pos);
}

/// A match that stands in the data is decoded to the copy it stands for.
proof fn lemma_match_at_decodes(dist: Seq<u8>, t: Token, data: Seq<u8>, pos: nat, out: Seq<u8>)
    requires
        lengths_valid(dist),
        t is Match,
        token_ok(t, out.len()),
        bits_left(data, pos) >= length_extra_bits(t->length_symbol),
        bits_at(data, pos, length_extra_bits(t->length_symbol)) == t->length_extra,
        symbol_at(dist, t->distance_symbol, data, pos + length_extra_bits(t->length_symbol)),
        bits_left(data, pos + length_extra_bits(t->length_symbol)) >= MAX_CODE_BITS,
        bits_left(
            data,
            pos + length_extra_bits(t->length_symbol) + dist[t->distance_symbol as int] as nat,
        ) >= dist_extra_bits(t->distance_symbol),
        bits_at(
            data,
            pos + length_extra_bits(t->length_symbol) + dist[t->distance_symbol as int] as nat,
            dist_extra_bits(t->distance_symbol),
        ) == t->distance_extra,
    ensures
        decode_match(canonical_table(dist), data, pos, out, t->length_symbol) == Ok::<Decoded, InflateError>(
            Decoded {
                pos: pos + length_extra_bits(t->length_symbol) + dist[t->distance_symbol as int] as nat
                    + dist_extra_bits(t->distance_symbol),
                out: apply_token(out, t),
            },
        ),
{
    lemma_symbol_at_is_read(dist, t->distance_symbol, data, pos + length_extra_bits(t->length_symbol));
}

/// The round trip through the symbols of a compressed block: where tokens
/// stand in the data in the codes of two valid length vectors, with the
/// bits of a table lookup left behind them, decoding gives the bytes that
/// the tokens stand for and ends behind the end-of-block symbol.
pub proof fn lemma_tokens_decode(
    lit: Seq<u8>,
    dist: Seq<u8>,
    tokens: Seq<Token>,
    data: Seq<u8>,
    pos: nat,
    out: Seq<u8>,
)
    requires
        lengths_valid(lit),
        lengths_valid(dist),
        tokens_ok(out, tokens),
        tokens_at(lit, dist, tokens, data, pos),
        tokens_end(lit, dist, tokens, pos) + MAX_CODE_BITS <= 8 * data.len(),
    ensures
        decode_symbols(canonical_table(lit), canonical_table(dist), data, pos, out) == Ok::<
            Decoded,
            InflateError,
        >(Decoded { pos: tokens_end(lit, dist, tokens, pos), out: apply_tokens(out, tokens) }),
    decreases tokens.len(),
{
    let lit_table = canonical_table(lit);
    let dist_table = canonical_table(dist);
    lemma_tokens_end_after(lit, dist, tokens, pos);
    lemma_canonical_table_wf(lit);
    if tokens.len() == 0 {
        lemma_symbol_at_is_read(lit, END_OF_BLOCK as nat, data, pos);
    } else {
        let t = tokens[0];
        let rest = tokens.skip(1);
        let next = pos + token_bits(lit, dist, t);
        lemma_tokens_end_after(lit, dist, rest, next);
        lemma_tokens_decode(lit, dist, rest, data, next, apply_token(out, t));
        match t {
            Token::Literal { byte } => {
                lemma_symbol_at_is_read(lit, byte as nat, data, pos);
                assert((byte as nat) as u8 == byte);
            },
            Token::Match { length_symbol, length_extra, distance_symbol, distance_extra } => {
                lemma_symbol_at_is_read(lit, length_symbol, data, pos);
                lemma_match_at_decodes(dist, t, data, pos + lit[length_symbol as int] as nat, out);
            },
        }
    }
}

} // verus!
