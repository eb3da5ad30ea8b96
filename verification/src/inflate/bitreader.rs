//! A forward bit cursor over a borrowed byte slice, least significant bit
//! first.

use crate::inflate::bits::{
    bits_at, bits_left, lemma_bits_at_bound, lemma_bits_at_byte, lemma_bits_at_div_mod,
    lemma_bits_at_split, next_byte_boundary,
};
use vstd::arithmetic::power2::{
    lemma2_to64, lemma_pow2_adds, lemma_pow2_pos, lemma_pow2_strictly_increases, pow2,
};
use vstd::bits::{
    lemma_u64_low_bits_mask_is_mod, lemma_u64_shl_is_mul, lemma_u64_shr_is_div, low_bits_mask,
};
use vstd::prelude::*;

verus! {

/// What a [`BitReader`] stands for: the bytes it reads and the index of the
/// next unread bit.
pub struct BitCursor {
    pub data: Seq<u8>,
    pub pos: nat,
}

/// A cursor that hands out the bits of `data` in stream order.
///
/// Whole bytes are pulled from `data` into `bit_buf`; the unread bits sit in
/// its low `bit_count` positions and everything above them is zero.
pub struct BitReader<'a> {
    data: &'a [u8],
    byte_pos: usize,
    bit_buf: u64,
    bit_count: u8,
}

impl<'a> View for BitReader<'a> {
    type V = BitCursor;

    closed spec fn view(&self) -> BitCursor {
        BitCursor { data: self.data@, pos: (8 * self.byte_pos - self.bit_count) as nat }
    }
}

/// `x | (b << k)` adds `b * 2^k` to `x` when `x` has no bit at or above `k`.
proof fn lemma_append_byte(x: u64, b: u64, k: u64)
    requires
        k < 32,
        b < 256,
        x < pow2(k as nat),
    ensures
        (x | (b << k)) == x + b * pow2(k as nat),
        b * pow2(k as nat) < pow2((k + 8) as nat),
{
    lemma2_to64();
    lemma_pow2_strictly_increases(k as nat, 32);
    lemma_pow2_adds(k as nat, 8);
    assert(b * pow2(k as nat) < 256 * pow2(k as nat)) by (nonlinear_arith)
        requires
            b < 256,
            pow2(k as nat) > 0,
    ;
    assert(b * pow2(k as nat) <= u64::MAX);
    lemma_u64_shl_is_mul(b, k);
    lemma_u64_shl_is_mul(1, k);
    let one_k = 1u64 << k;
    let shifted = b << k;
    assert((x | shifted) == x + shifted) by (bit_vector)
        requires
            k < 32,
            b < 256,
            x < one_k,
            one_k == 1u64 << k,
            shifted == b << k,
    ;
}

/// The byte boundary at or after `pos` is the one that lies fewer than
/// eight bits ahead.
proof fn lemma_boundary_ahead(pos: nat, skip: nat)
    requires
        skip < 8,
        (pos + skip) % 8 == 0,
    ensures
        next_byte_boundary(pos) == pos + skip,
{
}

impl<'a> BitReader<'a> {
    /// The buffer holds exactly the next `bit_count` bits of the stream.
    pub closed spec fn wf(&self) -> bool {
        &&& self.byte_pos <= self.data@.len()
        &&& self.bit_count <= 39
        &&& self.bit_count <= 8 * self.byte_pos
        &&& self.bit_buf == bits_at(self.data@, self@.pos, self.bit_count as nat)
    }

    /// A cursor at the first bit of `data`.
    pub fn new(data: &'a [u8]) -> (r: Self)
        ensures
            r.wf(),
            r@.data == data@,
            r@.pos == 0,
    {
        BitReader { data, byte_pos: 0, bit_buf: 0, bit_count: 0 }
    }

    /// A cursor never stands beyond the end of its data.
    pub proof fn lemma_pos_in_range(&self)
        requires
            self.wf(),
        ensures
            self@.pos <= 8 * self@.data.len(),
    {
    }

    /// Pulls bytes into the buffer until it holds `need` bits or the data
    /// ends; tells whether `need` bits are there.
    fn ensure_bits(&mut self, need: u8) -> (ok: bool)
        requires
            old(self).wf(),
            need <= 32,
        ensures
            final(self).wf(),
            final(self)@ == old(self)@,
            ok == (need <= bits_left(old(self)@.data, old(self)@.pos)),
            ok ==> final(self).bit_count >= need,
    {
        while self.bit_count < need
            invariant
                self.wf(),
                self@ == old(self)@,
                need <= 32,
            decreases self.data@.len() - self.byte_pos,
        {
            if self.byte_pos >= self.data.len() {
                return false;
            }
            let b: u64 = self.data[self.byte_pos] as u64;
            proof {
                let pos = self@.pos;
                let k = self.bit_count as nat;
                lemma_bits_at_bound(self.data@, pos, k);
                lemma_append_byte(self.bit_buf, b, self.bit_count as u64);
                lemma_bits_at_split(self.data@, pos, k, 8);
                lemma_bits_at_byte(self.data@, self.byte_pos as nat);
                assert(pos + k == 8 * self.byte_pos);
                assert(b * pow2(k) == pow2(k) * b) by (nonlinear_arith);
            }
            self.bit_buf = self.bit_buf | (b << (self.bit_count as u64));
            self.byte_pos = self.byte_pos + 1;
            self.bit_count = self.bit_count + 8;
        }
        true
    }

    /// The low `n` bits of the buffer, which must hold at least `n` bits.
    fn low_bits(&self, n: u8) -> (v: u32)
        requires
            self.wf(),
            1 <= n <= 32,
            n <= self.bit_count,
        ensures
            v == bits_at(self@.data, self@.pos, n as nat),
            (self.bit_buf >> (n as u64)) == bits_at(
                self@.data,
                self@.pos + n as nat,
                (self.bit_count - n) as nat,
            ),
    {
        proof {
            lemma2_to64();
            lemma_pow2_pos(n as nat);
            if n < 32 {
                lemma_pow2_strictly_increases(n as nat, 32);
            }
            lemma_u64_shl_is_mul(1, n as u64);
        }
        let mask: u64 = (1u64 << (n as u64)) - 1;
        proof {
            let rest = (self.bit_count - n) as nat;
            assert(mask == low_bits_mask(n as nat));
            lemma_u64_low_bits_mask_is_mod(self.bit_buf, n as nat);
            lemma_u64_shr_is_div(self.bit_buf, n as u64);
            assert(n as nat + rest == self.bit_count as nat);
            lemma_bits_at_div_mod(self.data@, self@.pos, n as nat, rest);
            lemma_bits_at_bound(self.data@, self@.pos, n as nat);
        }
        (self.bit_buf & mask) as u32
    }

    /// Reads the next `n` bits and moves past them.
    ///
    /// The first bit read is the least significant bit of the result. Fails,
    /// without moving, when `n` exceeds 32 or fewer than `n` bits remain.
    pub fn read_bits(&mut self, n: usize) -> (r: Option<u32>)
        requires
            old(self).wf(),
        ensures
            final(self).wf(),
            final(self)@.data == old(self)@.data,
            match r {
                Some(v) => {
                    &&& n <= 32
                    &&& n <= bits_left(old(self)@.data, old(self)@.pos)
                    &&& v == bits_at(old(self)@.data, old(self)@.pos, n as nat)
                    &&& final(self)@.pos == old(self)@.pos + n
                },
                None => {
                    &&& n > 32 || n > bits_left(old(self)@.data, old(self)@.pos)
                    &&& final(self)@.pos == old(self)@.pos
                },
            },
    {
        if n == 0 {
            return Some(0);
        }
        if n > 32 {
            return None;
        }
        if !self.ensure_bits(n as u8) {
            return None;
        }
        let bits = self.low_bits(n as u8);
        self.bit_buf = self.bit_buf >> (n as u64);
        self.bit_count = self.bit_count - n as u8;
        Some(bits)
    }

    /// Answers as [`BitReader::read_bits`] does, without moving.
    pub fn peek_bits(&mut self, n: usize) -> (r: Option<u32>)
        requires
            old(self).wf(),
        ensures
            final(self).wf(),
            final(self)@ == old(self)@,
            match r {
                Some(v) => {
                    &&& n <= 32
                    &&& n <= bits_left(old(self)@.data, old(self)@.pos)
                    &&& v == bits_at(old(self)@.data, old(self)@.pos, n as nat)
                },
                None => n > 32 || n > bits_left(old(self)@.data, old(self)@.pos),
            },
    {
        if n == 0 {
            return Some(0);
        }
        if n > 32 {
            return None;
        }
        if !self.ensure_bits(n as u8) {
            return None;
        }
        Some(self.low_bits(n as u8))
    }

    /// Moves to the next byte boundary, or stays if it stands on one.
    pub fn align_to_byte(&mut self)
        requires
            old(self).wf(),
        ensures
            final(self).wf(),
            final(self)@.data == old(self)@.data,
            final(self)@.pos == next_byte_boundary(old(self)@.pos),
            final(self)@.pos % 8 == 0,
            final(self)@.pos <= 8 * old(self)@.data.len(),
    {
        let skip: u8 = self.bit_count % 8;
        proof {
            let whole = (8 * self.byte_pos - 8 * (self.bit_count / 8)) as nat;
            assert(self@.pos + skip == whole);
            assert(whole % 8 == 0);
            lemma_boundary_ahead(self@.pos, skip as nat);
        }
        if skip > 0 {
            let _ = self.read_bits(skip as usize);
        }
    }

    /// Reads the byte at the cursor, which must stand on a byte boundary.
    ///
    /// Fails, without moving, when the cursor is inside a byte or no whole
    /// byte remains.
    pub fn read_byte(&mut self) -> (r: Option<u8>)
        requires
            old(self).wf(),
        ensures
            final(self).wf(),
            final(self)@.data == old(self)@.data,
            match r {
                Some(b) => {
                    &&& old(self)@.pos % 8 == 0
                    &&& 8 <= bits_left(old(self)@.data, old(self)@.pos)
                    &&& b == old(self)@.data[(old(self)@.pos / 8) as int]
                    &&& final(self)@.pos == old(self)@.pos + 8
                },
                None => {
                    &&& old(self)@.pos % 8 != 0 || 8 > bits_left(old(self)@.data, old(self)@.pos)
                    &&& final(self)@.pos == old(self)@.pos
                },
            },
    {
        if self.bit_count % 8 != 0 {
            return None;
        }
        if self.bit_count >= 8 {
            proof {
                lemma_bits_at_byte(self.data@, self@.pos / 8);
                lemma2_to64();
            }
            let b = self.low_bits(8);
            self.bit_buf = self.bit_buf >> 8u64;
            self.bit_count = self.bit_count - 8;
            return Some(b as u8);
        }
        if self.byte_pos >= self.data.len() {
            return None;
        }
        let b = self.data[self.byte_pos];
        self.byte_pos = self.byte_pos + 1;
        Some(b)
    }
}

} // verus!
