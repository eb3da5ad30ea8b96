//! What an encoder writes as the header of a dynamic block, and the proof
//! that decoding gives its two codes back.
//!
//! The header sends the code lengths of the literal/length code and of the
//! distance code as one sequence of length tokens: a length, a repetition of
//! the last length, or a run of zeros. An encoder is free in how it cuts the
//! lengths into such tokens and in the code it gives them.

use crate::inflate::bits::{bits_at, bits_left};
use crate::inflate::canonical::{
    canonical_table, lemma_canonical_table_wf, lengths_valid, MAX_CODE_BITS,
};
use crate::inflate::format::{
    code_length_code_lengths, code_length_order, code_length_step, decode_code_lengths,
    decode_dynamic_tables, run_of,
    BlockTables,
};
use crate::inflate::tokens::{lemma_symbol_at_is_read, symbol_at};
use crate::inflate::InflateError;
use vstd::prelude::*;

verus! {

/// One step of the code lengths of a dynamic block.
pub enum LengthToken {
    /// One code length, 0 to 15.
    Length { value: u8 },
    /// The last length again, 3 to 6 times.
    Repeat { count: nat },
    /// 3 to 10 zeros.
    Zeros { count: nat },
    /// 11 to 138 zeros.
    LongZeros { count: nat },
}

/// The symbol of the code-length alphabet that sends a token.
pub open spec fn length_token_symbol(t: LengthToken) -> nat {
    match t {
        LengthToken::Length { value } => value as nat,
        LengthToken::Repeat { .. } => 16,
        LengthToken::Zeros { .. } => 17,
        LengthToken::LongZeros { .. } => 18,
    }
}

/// The number of extra bits that follow the symbol of a token.
pub open spec fn length_token_extra_bits(t: LengthToken) -> nat {
    match t {
        LengthToken::Length { .. } => 0,
        LengthToken::Repeat { .. } => 2,
        LengthToken::Zeros { .. } => 3,
        LengthToken::LongZeros { .. } => 7,
    }
}

/// The value of the extra bits of a token: its count, less the smallest
/// count of its kind.
pub open spec fn length_token_extra(t: LengthToken) -> int {
    match t {
        LengthToken::Length { .. } => 0,
        LengthToken::Repeat { count } => count - 3,
        LengthToken::Zeros { count } => count - 3,
        LengthToken::LongZeros { count } => count - 11,
    }
}

/// The lengths after a token.
pub open spec fn apply_length_token(lens: Seq<u8>, t: LengthToken) -> Seq<u8> {
    match t {
        LengthToken::Length { value } => lens.push(value),
        LengthToken::Repeat { count } => lens + run_of(lens.last(), count),
        LengthToken::Zeros { count } => lens + run_of(0, count),
        LengthToken::LongZeros { count } => lens + run_of(0, count),
    }
}

/// The token is one that the format has, and it can be carried out on
/// `lens` where `total` lengths are sent: its count is in the range of its
/// kind, a repetition has a length to repeat, and no length goes beyond the
/// total.
pub open spec fn length_token_ok(t: LengthToken, lens: Seq<u8>, total: nat) -> bool {
    match t {
        LengthToken::Length { value } => value <= 15 && lens.len() + 1 <= total,
        LengthToken::Repeat { count } => 3 <= count <= 6 && lens.len() > 0 && lens.len() + count <= total,
        LengthToken::Zeros { count } => 3 <= count <= 10 && lens.len() + count <= total,
        LengthToken::LongZeros { count } => 11 <= count <= 138 && lens.len() + count <= total,
    }
}

/// The lengths after a sequence of tokens.
pub open spec fn apply_length_tokens(lens: Seq<u8>, tokens: Seq<LengthToken>) -> Seq<u8>
    decreases tokens.len(),
{
    if tokens.len() == 0 {
        lens
    } else {
        apply_length_tokens(apply_length_token(lens, tokens[0]), tokens.skip(1))
    }
}

/// Every token can be carried out on the lengths that the tokens before it
/// leave.
pub open spec fn length_tokens_ok(lens: Seq<u8>, tokens: Seq<LengthToken>, total: nat) -> bool
    decreases tokens.len(),
{
    if tokens.len() == 0 {
        true
    } else {
        length_token_ok(tokens[0], lens, total) && length_tokens_ok(
            apply_length_token(lens, tokens[0]),
            tokens.skip(1),
            total,
        )
    }
}

/// The number of bits that a token takes in the code of `cl`.
pub open spec fn length_token_bits(cl: Seq<u8>, t: LengthToken) -> nat {
    cl[length_token_symbol(t) as int] as nat + length_token_extra_bits(t)
}

/// The token stands at bit `pos` of `data`: the code of its symbol and its
/// extra bits.
pub open spec fn length_token_at(cl: Seq<u8>, t: LengthToken, data: Seq<u8>, pos: nat) -> bool {
    let after = pos + cl[length_token_symbol(t) as int] as nat;
    &&& symbol_at(cl, length_token_symbol(t), data, pos)
    &&& bits_left(data, after) >= length_token_extra_bits(t)
    &&& bits_at(data, after, length_token_extra_bits(t)) == length_token_extra(t)
}

/// The position after the tokens.
pub open spec fn length_tokens_end(cl: Seq<u8>, tokens: Seq<LengthToken>, pos: nat) -> nat
    decreases tokens.len(),
{
    if tokens.len() == 0 {
        pos
    } else {
        length_tokens_end(cl, tokens.skip(1), pos + length_token_bits(cl, tokens[0]))
    }
}

/// The tokens stand at bit `pos` of `data`, one after the other.
pub open spec fn length_tokens_at(cl: Seq<u8>, tokens: Seq<LengthToken>, data: Seq<u8>, pos: nat) -> bool
    decreases tokens.len(),
{
    if tokens.len() == 0 {
        true
    } else {
        &&& length_token_at(cl, tokens[0], data, pos)
        &&& length_tokens_at(cl, tokens.skip(1), data, pos + length_token_bits(cl, tokens[0]))
    }
}

/// The tokens end at or after the bit where they start.
pub proof fn lemma_length_tokens_end_after(cl: Seq<u8>, tokens: Seq<LengthToken>, pos: nat)
    ensures
        length_tokens_end(cl, tokens, pos) >= pos,
    decreases tokens.len(),
{
    if tokens.len() > 0 {
        lemma_length_tokens_end_after(cl, tokens.skip(1), pos + length_token_bits(cl, tokens[0]));
    }
}

/// Tokens that can be carried out leave no more than the total of lengths.
pub proof fn lemma_length_tokens_fit(lens: Seq<u8>, tokens: Seq<LengthToken>, total: nat)
    requires
        lens.len() <= total,
        length_tokens_ok(lens, tokens, total),
    ensures
        lens.len() <= apply_length_tokens(lens, tokens).len() <= total,
        tokens.len() > 0 ==> lens.len() < apply_length_tokens(lens, tokens).len(),
    decreases tokens.len(),
{
    if tokens.len() > 0 {
        lemma_length_tokens_fit(apply_length_token(lens, tokens[0]), tokens.skip(1), total);
    }
}

/// A token that stands in the data is read as the step it stands for.
proof fn lemma_length_token_step(t: LengthToken, data: Seq<u8>, pos: nat, lens: Seq<u8>, total: nat)
    requires
        length_token_ok(t, lens, total),
        bits_left(data, pos) >= length_token_extra_bits(t),
        bits_at(data, pos, length_token_extra_bits(t)) == length_token_extra(t),
    ensures
        code_length_step(data, pos, lens, total, length_token_symbol(t)) == Ok::<
            (nat, Seq<u8>),
            InflateError,
        >((pos + length_token_extra_bits(t), apply_length_token(lens, t))),
{
    match t {
        LengthToken::Length { value } => {
            assert((value as nat) as u8 == value);
        },
        _ => {},
    }
}

/// The round trip through the code lengths of a dynamic block: where length
/// tokens that give `total` lengths stand in the data in the code of a
/// valid length vector, with the bits of a table lookup left behind them,
/// decoding gives the lengths that the tokens stand for.
pub proof fn lemma_length_tokens_decode(
    cl: Seq<u8>,
    tokens: Seq<LengthToken>,
    data: Seq<u8>,
    pos: nat,
    lens: Seq<u8>,
    total: nat,
)
    requires
        lengths_valid(cl),
        lens.len() <= total,
        length_tokens_ok(lens, tokens, total),
        length_tokens_at(cl, tokens, data, pos),
        apply_length_tokens(lens, tokens).len() == total,
        length_tokens_end(cl, tokens, pos) + MAX_CODE_BITS <= 8 * data.len(),
    ensures
        decode_code_lengths(canonical_table(cl), data, pos, lens, total) == Ok::<
            (nat, Seq<u8>),
            InflateError,
        >((length_tokens_end(cl, tokens, pos), apply_length_tokens(lens, tokens))),
    decreases tokens.len(),
{
    lemma_length_tokens_end_after(cl, tokens, pos);
    if tokens.len() > 0 {
        let t = tokens[0];
        let rest = tokens.skip(1);
        let after = pos + cl[length_token_symbol(t) as int] as nat;
        let next = pos + length_token_bits(cl, t);
        lemma_length_tokens_fit(lens, tokens, total);
        lemma_length_tokens_fit(apply_length_token(lens, t), rest, total);
        lemma_length_tokens_end_after(cl, rest, next);
        lemma_symbol_at_is_read(cl, length_token_symbol(t), data, pos);
        lemma_length_token_step(t, data, after, lens, total);
        lemma_length_tokens_decode(cl, rest, data, next, apply_length_token(lens, t), total);
    }
}

/// The place of each symbol of the code-length alphabet in the order in
/// which the lengths are sent.
pub open spec fn code_length_place() -> Seq<int> {
    seq![3, 17, 15, 13, 11, 9, 7, 5, 4, 6, 8, 10, 12, 14, 16, 18, 0, 1, 2]
}

/// The length of the code-length code that is sent as the `i`-th.
pub open spec fn sent_length(cl: Seq<u8>, i: int) -> u8 {
    cl[code_length_order()[i]]
}

/// The first `sent` lengths of the code-length code `cl` stand at bit `pos`
/// of `data`, three bits each and in the order of the format; those that
/// are not sent are 0.
pub open spec fn code_length_fields_at(cl: Seq<u8>, sent: nat, data: Seq<u8>, pos: nat) -> bool {
    &&& cl.len() == 19
    &&& sent <= 19
    &&& forall|i: int|
        0 <= i < sent ==> bits_at(data, (pos + 3 * i) as nat, 3) == #[trigger] sent_length(cl, i)
    &&& forall|i: int| sent <= i < 19 ==> #[trigger] sent_length(cl, i) == 0
}

/// The order of the format is a rearrangement of the 19 symbols.
proof fn lemma_code_length_order()
    ensures
        forall|i: int|
            0 <= i < 19 ==> 0 <= #[trigger] code_length_order()[i] < 19 && code_length_place()[
                code_length_order()[i]
            ] == i,
        forall|j: int|
            0 <= j < 19 ==> 0 <= #[trigger] code_length_place()[j] < 19 && code_length_order()[
                code_length_place()[j]
            ] == j,
{
}

/// The lengths read from fields that stand in the data are, after `count`
/// fields, the sent lengths at the places of those fields and 0 elsewhere.
proof fn lemma_code_length_fields_read(cl: Seq<u8>, sent: nat, data: Seq<u8>, pos: nat, count: nat)
    requires
        code_length_fields_at(cl, sent, data, pos),
        count <= sent,
    ensures
        code_length_code_lengths(data, pos, count).len() == 19,
        forall|i: int|
            0 <= i < 19 ==> #[trigger] sent_length(code_length_code_lengths(data, pos, count), i) == if i
                < count {
                sent_length(cl, i)
            } else {
                0u8
            },
    decreases count,
{
    lemma_code_length_order();
    if count > 0 {
        let before = code_length_code_lengths(data, pos, (count - 1) as nat);
        let after = code_length_code_lengths(data, pos, count);
        lemma_code_length_fields_read(cl, sent, data, pos, (count - 1) as nat);
        let field = bits_at(data, pos + 3 * (count - 1) as nat, 3);
        assert(field == sent_length(cl, count - 1));
        assert forall|i: int| 0 <= i < 19 implies #[trigger] sent_length(after, i) == if i < count {
            sent_length(cl, i)
        } else {
            0u8
        } by {
            assert(sent_length(before, i) == if i < count - 1 {
                sent_length(cl, i)
            } else {
                0u8
            });
            if i != count - 1 {
                assert(code_length_place()[code_length_order()[i]] == i);
                assert(code_length_place()[code_length_order()[count - 1]] == count - 1);
            }
        }
    }
}

/// Reading the lengths of the code-length code from fields that stand in
/// the data gives those lengths.
pub proof fn lemma_code_length_fields_decode(cl: Seq<u8>, sent: nat, data: Seq<u8>, pos: nat)
    requires
        code_length_fields_at(cl, sent, data, pos),
    ensures
        code_length_code_lengths(data, pos, sent) == cl,
{
    let read = code_length_code_lengths(data, pos, sent);
    lemma_code_length_order();
    lemma_code_length_fields_read(cl, sent, data, pos, sent);
    assert forall|j: int| 0 <= j < 19 implies read[j] == cl[j] by {
        let i = code_length_place()[j];
        assert(code_length_order()[i] == j);
        assert(sent_length(read, i) == read[j]);
        assert(sent_length(cl, i) == cl[j]);
    }
    assert(read =~= cl);
}

/// What the header of a dynamic block sends: the two length vectors, the
/// lengths of the code-length code and how many of them are sent, and the
/// tokens that give the two vectors.
pub struct DynamicHeader {
    pub lit: Seq<u8>,
    pub dist: Seq<u8>,
    pub cl: Seq<u8>,
    pub cl_sent: nat,
    pub tokens: Seq<LengthToken>,
}

/// The header is one that the format has: the counts are in the range of
/// their fields, the three length vectors are valid, and the tokens give
/// the lengths of the literal/length code followed by those of the distance
/// code.
pub open spec fn dynamic_header_ok(h: DynamicHeader) -> bool {
    &&& 257 <= h.lit.len() <= 288
    &&& 1 <= h.dist.len() <= 32
    &&& 4 <= h.cl_sent <= 19
    &&& h.cl.len() == 19
    &&& lengths_valid(h.cl)
    &&& lengths_valid(h.lit)
    &&& lengths_valid(h.dist)
    &&& length_tokens_ok(Seq::empty(), h.tokens, h.lit.len() + h.dist.len())
    &&& apply_length_tokens(Seq::empty(), h.tokens) == h.lit + h.dist
}

/// The position of the first length token of a header at bit `pos`.
pub open spec fn dynamic_header_tokens_start(h: DynamicHeader, pos: nat) -> nat {
    pos + 14 + 3 * h.cl_sent
}

/// The position after a header at bit `pos`.
pub open spec fn dynamic_header_end(h: DynamicHeader, pos: nat) -> nat {
    length_tokens_end(h.cl, h.tokens, dynamic_header_tokens_start(h, pos))
}

/// The header stands at bit `pos` of `data`: the three counts, the lengths
/// of the code-length code in three bits each and in the order of the
/// format, and the length tokens.
pub open spec fn dynamic_header_at(h: DynamicHeader, data: Seq<u8>, pos: nat) -> bool {
    &&& bits_left(data, pos) >= 14 + 3 * h.cl_sent
    &&& bits_at(data, pos, 5) == h.lit.len() - 257
    &&& bits_at(data, pos + 5, 5) == h.dist.len() - 1
    &&& bits_at(data, pos + 10, 4) == h.cl_sent - 4
    &&& code_length_fields_at(h.cl, h.cl_sent, data, pos + 14)
    &&& length_tokens_at(h.cl, h.tokens, data, dynamic_header_tokens_start(h, pos))
}

/// The round trip through the header of a dynamic block: where a header
/// stands in the data, with the bits of a table lookup left behind it,
/// decoding gives the tables of its two length vectors.
pub proof fn lemma_dynamic_header_decodes(h: DynamicHeader, data: Seq<u8>, pos: nat)
    requires
        dynamic_header_ok(h),
        dynamic_header_at(h, data, pos),
        dynamic_header_end(h, pos) + MAX_CODE_BITS <= 8 * data.len(),
    ensures
        decode_dynamic_tables(data, pos) == Ok::<BlockTables, InflateError>(
            BlockTables {
                lit: canonical_table(h.lit),
                dist: canonical_table(h.dist),
                pos: dynamic_header_end(h, pos),
            },
        ),
        canonical_table(h.lit).wf(),
        canonical_table(h.dist).wf(),
{
    let total = h.lit.len() + h.dist.len();
    let start = dynamic_header_tokens_start(h, pos);
    lemma_canonical_table_wf(h.lit);
    lemma_canonical_table_wf(h.dist);
    lemma_code_length_fields_decode(h.cl, h.cl_sent, data, pos + 14);
    lemma_length_tokens_decode(h.cl, h.tokens, data, start, Seq::empty(), total);
    let lens = h.lit + h.dist;
    assert(lens.subrange(0, h.lit.len() as int) =~= h.lit);
    assert(lens.subrange(h.lit.len() as int, total as int) =~= h.dist);
}

} // verus!
