//! Bit-level cursor over a byte slice.
use vstd::prelude::*;
use vstd::arithmetic::power2::pow2;
use vstd::arithmetic::power2::lemma2_to64;
use vstd::arithmetic::power2::lemma2_to64_rest;
use vstd::arithmetic::power2::lemma_pow2_strictly_increases;
use vstd::arithmetic::power2::lemma_pow2_adds;
use vstd::bits::lemma_u64_shr_is_div;
use vstd::bits::lemma_u64_shl_is_mul;
use vstd::bits::lemma_u64_low_bits_mask_is_mod;
use crate::deflate::DeflateError;
use crate::deflate::bits::{
    bits_at, bit_len, align_up, lemma_bits_bound, lemma_bits_split, lemma_bits_div_mod, lemma_bits_byte,
    lemma_bits_past_end,
};

verus! {

/// True of an input whose bits can be numbered in a `u64`.
pub open spec fn addressable(input: Seq<u8>) -> bool {
    bit_len(input) <= u64::MAX
}

/// Reads fields of bits, least significant bit first, from a byte slice.
///
/// `buf` holds the next `bits` bits of the input; the bytes from `byte_pos`
/// on have not been loaded yet.
pub struct BitReader<'a> {
    input: &'a [u8],
    buf: u64,
    bits: u32,
    byte_pos: usize,
}

impl<'a> BitReader<'a> {
    /// The bytes that are read.
    pub closed spec fn stream(&self) -> Seq<u8> {
        self.input@
    }

    /// The number of the next bit.
    pub closed spec fn pos(&self) -> int {
        8 * self.byte_pos - self.bits
    }

    /// How many bits are loaded and not yet consumed.
    pub closed spec fn buffered(&self) -> int {
        self.bits as int
    }

    /// The number of bits left to read.
    pub open spec fn remaining(&self) -> int {
        bit_len(self.stream()) - self.pos()
    }

    pub closed spec fn wf(&self) -> bool {
        &&& self.bits <= 63
        &&& self.byte_pos <= self.input@.len()
        &&& self.bits <= 8 * self.byte_pos
        &&& self.buf == bits_at(self.input@, 8 * self.byte_pos - self.bits, self.bits as nat)
        &&& addressable(self.input@)
    }

    /// The position lies inside the stream, and no more bits are loaded than it holds.
    pub proof fn lemma_wf(&self)
        requires
            self.wf(),
        ensures
            0 <= self.pos(),
            self.pos() + self.buffered() <= bit_len(self.stream()),
            0 <= self.buffered(),
            addressable(self.stream()),
    {
    }

    /// A reader at the first bit of `input`.
    pub fn new(input: &'a [u8]) -> (r: BitReader<'a>)
        requires
            addressable(input@),
        ensures
            r.wf(),
            r.stream() == input@,
            r.pos() == 0,
    {
        BitReader { input, buf: 0, bits: 0, byte_pos: 0 }
    }

    /// Loads one more byte.
    fn load_byte(&mut self)
        requires
            old(self).wf(),
            old(self).bits <= 55,
            old(self).byte_pos < old(self).input@.len(),
        ensures
            final(self).wf(),
            final(self).input == old(self).input,
            final(self).pos() == old(self).pos(),
            final(self).bits == old(self).bits + 8,
            final(self).byte_pos == old(self).byte_pos + 1,
    {
        let byte: u64 = self.input[self.byte_pos] as u64;
        proof {
            let b = self.bits as u64;
            let buf = self.buf;
            lemma_bits_bound(self.input@, self.pos(), self.bits as nat);
            lemma_bits_split(self.input@, self.pos(), self.bits as nat, 8);
            lemma_bits_byte(self.input@, self.byte_pos as int);
            lemma2_to64();
            lemma2_to64_rest();
            lemma_pow2_adds(self.bits as nat, 8);
            if self.bits < 55 {
                lemma_pow2_strictly_increases(self.bits as nat, 55);
            }
            assert(byte * pow2(self.bits as nat) <= 255 * pow2(55)) by (nonlinear_arith)
                requires
                    byte <= 255,
                    pow2(self.bits as nat) <= pow2(55),
            ;
            lemma_u64_shl_is_mul(byte, b);
            lemma_u64_shl_is_mul(1, b);
            assert(buf | (byte << b) == buf + (byte << b)) by (bit_vector)
                requires
                    buf < (1u64 << b),
                    b <= 55,
                    byte <= 255,
            ;
            assert(pow2(self.bits as nat) * byte == byte * pow2(self.bits as nat)) by (nonlinear_arith);
        }
        self.buf = self.buf | (byte << self.bits);
        self.byte_pos = self.byte_pos + 1;
        self.bits = self.bits + 8;
    }

    /// Loads bytes until the buffer is full or the input ends.
    fn refill(&mut self)
        requires
            old(self).wf(),
        ensures
            final(self).wf(),
            final(self).input == old(self).input,
            final(self).pos() == old(self).pos(),
            final(self).bits >= old(self).bits,
            final(self).bits > 55 || final(self).byte_pos == final(self).input@.len(),
    {
        while self.bits <= 55 && self.byte_pos < self.input.len()
            invariant
                self.wf(),
                self.input == old(self).input,
                self.pos() == old(self).pos(),
                self.bits >= old(self).bits,
            decreases self.input@.len() - self.byte_pos,
        {
            self.load_byte();
        }
    }

    /// Makes at least `n` bits available to `peek_bits_unchecked` and `consume`.
    pub fn ensure_bits(&mut self, n: u32) -> (r: Result<(), DeflateError>)
        requires
            old(self).wf(),
            n <= 56,
        ensures
            final(self).wf(),
            final(self).stream() == old(self).stream(),
            final(self).pos() == old(self).pos(),
            r == if old(self).remaining() >= n { Ok::<(), DeflateError>(()) } else { Err(DeflateError::UnexpectedEof) },
            r is Ok ==> final(self).buffered() >= n,
            final(self).buffered() >= old(self).buffered(),
    {
        if self.bits < n {
            self.refill();
            if self.bits < n {
                return Err(DeflateError::UnexpectedEof);
            }
        }
        Ok(())
    }

    /// The next `n` bits, which must be loaded already.
    pub fn peek_bits_unchecked(&self, n: u32) -> (v: u32)
        requires
            self.wf(),
            n <= 32,
            n <= self.buffered(),
        ensures
            v == bits_at(self.stream(), self.pos(), n as nat),
    {
        proof {
            lemma_bits_div_mod(self.input@, self.pos(), n as nat, self.bits as nat);
            lemma_bits_bound(self.input@, self.pos(), n as nat);
            lemma2_to64();
            lemma2_to64_rest();
            if n < 32 {
                lemma_pow2_strictly_increases(n as nat, 32);
            }
            lemma_u64_shl_is_mul(1, n as u64);
            lemma_u64_low_bits_mask_is_mod(self.buf, n as nat);
        }
        (self.buf & ((1u64 << n) - 1)) as u32
    }

    /// Steps over `n` bits, which must be loaded already.
    pub fn consume(&mut self, n: u32)
        requires
            old(self).wf(),
            n <= old(self).buffered(),
        ensures
            final(self).wf(),
            final(self).stream() == old(self).stream(),
            final(self).pos() == old(self).pos() + n,
            final(self).buffered() == old(self).buffered() - n,
    {
        proof {
            lemma_bits_div_mod(self.input@, self.pos(), n as nat, self.bits as nat);
            lemma_u64_shr_is_div(self.buf, n as u64);
        }
        self.buf = self.buf >> n;
        self.bits = self.bits - n;
    }

    /// The next `n` bits, with zeros for what lies after the end of the input, and
    /// how many bits are loaded.
    pub(crate) fn peek_padded(&mut self, n: u32) -> (r: (u32, u32))
        requires
            old(self).wf(),
            n <= 15,
        ensures
            final(self).wf(),
            final(self).stream() == old(self).stream(),
            final(self).pos() == old(self).pos(),
            r.0 == bits_at(old(self).stream(), old(self).pos(), n as nat),
            r.1 == final(self).buffered(),
            r.1 >= n || r.1 == old(self).remaining(),
            final(self).buffered() >= old(self).buffered(),
    {
        match self.peek(n) {
            Ok(v) => (v, self.bits),
            Err(_) => {
                self.refill();
                proof {
                    lemma_bits_split(self.input@, self.pos(), self.bits as nat, (n - self.bits) as nat);
                    lemma_bits_past_end(self.input@, self.pos() + self.bits, (n - self.bits) as nat);
                    lemma_bits_bound(self.input@, self.pos(), self.bits as nat);
                    lemma2_to64();
                    lemma_pow2_strictly_increases(self.bits as nat, 15);
                    assert(pow2(self.bits as nat) * 0 == 0);
                }
                (self.buf as u32, self.bits)
            },
        }
    }

    /// The next `n` bits, without stepping over them.
    pub fn peek(&mut self, n: u32) -> (r: Result<u32, DeflateError>)
        requires
            old(self).wf(),
            n <= 32,
        ensures
            final(self).wf(),
            final(self).stream() == old(self).stream(),
            final(self).pos() == old(self).pos(),
            old(self).remaining() < n ==> r == Err::<u32, DeflateError>(DeflateError::UnexpectedEof),
            old(self).remaining() >= n ==> r is Ok && r->Ok_0 == bits_at(old(self).stream(), old(self).pos(), n as nat)
                && final(self).buffered() >= n,
            final(self).buffered() >= old(self).buffered(),
    {
        match self.ensure_bits(n) {
            Ok(()) => Ok(self.peek_bits_unchecked(n)),
            Err(e) => Err(e),
        }
    }

    /// Reads the next `n` bits; at the end of the input the reader stays where it is.
    pub fn read(&mut self, n: u32) -> (r: Result<u32, DeflateError>)
        requires
            old(self).wf(),
            n <= 32,
        ensures
            final(self).wf(),
            final(self).stream() == old(self).stream(),
            old(self).remaining() < n ==> r == Err::<u32, DeflateError>(DeflateError::UnexpectedEof)
                && final(self).pos() == old(self).pos(),
            old(self).remaining() >= n ==> r is Ok && r->Ok_0 == bits_at(old(self).stream(), old(self).pos(), n as nat)
                && final(self).pos() == old(self).pos() + n,
    {
        match self.peek(n) {
            Ok(v) => {
                self.consume(n);
                Ok(v)
            },
            Err(e) => Err(e),
        }
    }

    /// Steps to the next byte boundary.
    pub fn byte_align(&mut self)
        requires
            old(self).wf(),
        ensures
            final(self).wf(),
            final(self).stream() == old(self).stream(),
            final(self).pos() == align_up(old(self).pos()),
    {
        let drop: u32 = self.bits % 8;
        self.consume(drop);
    }

    /// The number of the next bit.
    pub fn tell_bit(&self) -> (p: u64)
        requires
            self.wf(),
        ensures
            p == self.pos(),
    {
        self.byte_pos as u64 * 8 - self.bits as u64
    }

    /// The number of bits in the input.
    pub fn total_bits(&self) -> (n: u64)
        requires
            self.wf(),
        ensures
            n == bit_len(self.stream()),
    {
        self.input.len() as u64 * 8
    }

    /// Moves to bit `bit`, which may be the end of the input but not past it.
    pub fn seek_to_bit(&mut self, bit: u64) -> (r: Result<(), DeflateError>)
        requires
            old(self).wf(),
        ensures
            final(self).wf(),
            final(self).stream() == old(self).stream(),
            bit > bit_len(old(self).stream()) ==> r == Err::<(), DeflateError>(DeflateError::UnexpectedEof)
                && final(self).pos() == old(self).pos(),
            bit <= bit_len(old(self).stream()) ==> r is Ok && final(self).pos() == bit,
    {
        let len: usize = self.input.len();
        if bit > len as u64 * 8 {
            return Err(DeflateError::UnexpectedEof);
        }
        self.byte_pos = (bit / 8) as usize;
        self.buf = 0;
        self.bits = 0;
        let rest: u32 = (bit % 8) as u32;
        if rest > 0 {
            self.load_byte();
            self.consume(rest);
        }
        Ok(())
    }
}

} // verus!
