//! The input as a sequence of bits.
//!
//! Brotli numbers the bits of a byte from the least significant one, and
//! puts the first bit of a field into the lowest bit of its value. The bits
//! themselves are taken out of the bytes by the `bitreader` crate, which
//! numbers them from the most significant one; this module turns one
//! numbering into the other and keeps the position.

use vstd::prelude::*;
use bitreader::BitReader;
use crate::error::DecompressorError;

verus! {

/// Two to the power of `n`.
pub open spec fn exp2(n: nat) -> nat
    decreases n,
{
    if n == 0 {
        1
    } else {
        2 * exp2((n - 1) as nat)
    }
}

/// Bit `j` of a byte, bit 0 being the least significant.
pub open spec fn byte_bit(b: u8, j: int) -> nat {
    ((b as nat) / exp2(j as nat)) % 2
}

/// Bit `i` of the stream in the format's own numbering: byte `i / 8`, and
/// in it bit `i % 8` from the least significant end.
pub open spec fn stream_bit(bytes: Seq<u8>, i: int) -> nat {
    byte_bit(bytes[i / 8], i % 8)
}

/// The value of the `n` bits from bit `i` on, the first of them being the
/// least significant.
pub open spec fn stream_uint(bytes: Seq<u8>, i: int, n: nat) -> nat
    decreases n,
{
    if n == 0 {
        0
    } else {
        stream_uint(bytes, i, (n - 1) as nat) + stream_bit(bytes, i + n - 1) * exp2((n - 1) as nat)
    }
}

/// The number of bits in the stream.
pub open spec fn stream_len(bytes: Seq<u8>) -> nat {
    8 * bytes.len()
}

/// Bit `i` of the bytes when each byte is numbered from its most
/// significant bit.
pub open spec fn msb_bit(bytes: Seq<u8>, i: int) -> nat {
    byte_bit(bytes[i / 8], 7 - i % 8)
}

/// The value of the `n` bits from bit `i` on in that numbering, the first
/// of them being the most significant.
pub open spec fn msb_uint(bytes: Seq<u8>, i: int, n: nat) -> nat
    decreases n,
{
    if n == 0 {
        0
    } else {
        2 * msb_uint(bytes, i, (n - 1) as nat) + msb_bit(bytes, i + n - 1)
    }
}

/// `bitreader::BitReader`: a reader made by `new` over `bytes`, moved on by
/// `skip(index)` and asked for `count` bits with `read_u8`. The reader
/// refuses when fewer than `index + count` bits exist; otherwise it hands
/// back the bits from `index` on, the first one as the most significant.
#[verifier::external_body]
fn msb_bits_at(bytes: &[u8], index: u64, count: u8) -> (r: Option<u8>)
    requires
        count <= 8,
        bytes@.len() * 8 <= u64::MAX,
        index + count <= u64::MAX,
    ensures
        index + count <= 8 * bytes@.len() ==> r == Some(msb_uint(bytes@, index as int, count as nat) as u8),
        index + count > 8 * bytes@.len() ==> r is None,
{
    let mut reader = BitReader::new(bytes);
    match reader.skip(index) {
        Ok(()) => reader.read_u8(count).ok(),
        Err(_) => None,
    }
}

/// The powers of two up to 256.
pub proof fn lemma_exp2_values()
    ensures
        exp2(0) == 1,
        exp2(1) == 2,
        exp2(2) == 4,
        exp2(3) == 8,
        exp2(4) == 16,
        exp2(5) == 32,
        exp2(6) == 64,
        exp2(7) == 128,
        exp2(8) == 256,
{
    reveal_with_fuel(exp2, 10);
}

/// A byte is the sum of its bits.
pub proof fn lemma_byte_sum(b: u8)
    ensures
        b == byte_bit(b, 0) + 2 * byte_bit(b, 1) + 4 * byte_bit(b, 2) + 8 * byte_bit(b, 3) + 16
            * byte_bit(b, 4) + 32 * byte_bit(b, 5) + 64 * byte_bit(b, 6) + 128 * byte_bit(b, 7),
{
    lemma_exp2_values();
    assert(b == (b / 1) % 2 + 2 * ((b / 2) % 2) + 4 * ((b / 4) % 2) + 8 * ((b / 8) % 2) + 16 * ((b
        / 16) % 2) + 32 * ((b / 32) % 2) + 64 * ((b / 64) % 2) + 128 * ((b / 128) % 2))
        by (bit_vector);
}

/// A whole byte read at a byte boundary, its first bit the most
/// significant, is that byte.
pub proof fn lemma_msb_byte(bytes: Seq<u8>, k: int)
    requires
        0 <= k < bytes.len(),
    ensures
        msb_uint(bytes, 8 * k, 8) == bytes[k],
{
    lemma_byte_sum(bytes[k]);
    let b = bytes[k];
    let i = 8 * k;
    assert(msb_bit(bytes, i + 0) == byte_bit(b, 7));
    assert(msb_bit(bytes, i + 1) == byte_bit(b, 6));
    assert(msb_bit(bytes, i + 2) == byte_bit(b, 5));
    assert(msb_bit(bytes, i + 3) == byte_bit(b, 4));
    assert(msb_bit(bytes, i + 4) == byte_bit(b, 3));
    assert(msb_bit(bytes, i + 5) == byte_bit(b, 2));
    assert(msb_bit(bytes, i + 6) == byte_bit(b, 1));
    assert(msb_bit(bytes, i + 7) == byte_bit(b, 0));
    assert(msb_uint(bytes, i, 0) == 0);
    assert(msb_uint(bytes, i, 1) == 2 * msb_uint(bytes, i, 0) + msb_bit(bytes, i + 1 - 1));
    assert(msb_uint(bytes, i, 2) == 2 * msb_uint(bytes, i, 1) + msb_bit(bytes, i + 2 - 1));
    assert(msb_uint(bytes, i, 3) == 2 * msb_uint(bytes, i, 2) + msb_bit(bytes, i + 3 - 1));
    assert(msb_uint(bytes, i, 4) == 2 * msb_uint(bytes, i, 3) + msb_bit(bytes, i + 4 - 1));
    assert(msb_uint(bytes, i, 5) == 2 * msb_uint(bytes, i, 4) + msb_bit(bytes, i + 5 - 1));
    assert(msb_uint(bytes, i, 6) == 2 * msb_uint(bytes, i, 5) + msb_bit(bytes, i + 6 - 1));
    assert(msb_uint(bytes, i, 7) == 2 * msb_uint(bytes, i, 6) + msb_bit(bytes, i + 7 - 1));
    assert(msb_uint(bytes, i, 8) == 2 * msb_uint(bytes, i, 7) + msb_bit(bytes, i + 8 - 1));
}

/// A whole byte read at a byte boundary, its first bit the least
/// significant, is that byte.
pub proof fn lemma_byte_value(bytes: Seq<u8>, k: int)
    requires
        0 <= k < bytes.len(),
    ensures
        stream_uint(bytes, 8 * k, 8) == bytes[k],
{
    lemma_exp2_values();
    lemma_byte_sum(bytes[k]);
    let b = bytes[k];
    let i = 8 * k;
    let b0 = stream_bit(bytes, i + 1 - 1);
    let b1 = stream_bit(bytes, i + 2 - 1);
    let b2 = stream_bit(bytes, i + 3 - 1);
    let b3 = stream_bit(bytes, i + 4 - 1);
    let b4 = stream_bit(bytes, i + 5 - 1);
    let b5 = stream_bit(bytes, i + 6 - 1);
    let b6 = stream_bit(bytes, i + 7 - 1);
    let b7 = stream_bit(bytes, i + 8 - 1);
    assert(b0 == byte_bit(b, 0));
    assert(b1 == byte_bit(b, 1));
    assert(b2 == byte_bit(b, 2));
    assert(b3 == byte_bit(b, 3));
    assert(b4 == byte_bit(b, 4));
    assert(b5 == byte_bit(b, 5));
    assert(b6 == byte_bit(b, 6));
    assert(b7 == byte_bit(b, 7));
    assert(stream_uint(bytes, i, 0) == 0);
    assert(stream_uint(bytes, i, 1) == stream_uint(bytes, i, 0) + b0 * exp2(0));
    assert(stream_uint(bytes, i, 2) == stream_uint(bytes, i, 1) + b1 * exp2(1));
    assert(stream_uint(bytes, i, 3) == stream_uint(bytes, i, 2) + b2 * exp2(2));
    assert(stream_uint(bytes, i, 4) == stream_uint(bytes, i, 3) + b3 * exp2(3));
    assert(stream_uint(bytes, i, 5) == stream_uint(bytes, i, 4) + b4 * exp2(4));
    assert(stream_uint(bytes, i, 6) == stream_uint(bytes, i, 5) + b5 * exp2(5));
    assert(stream_uint(bytes, i, 7) == stream_uint(bytes, i, 6) + b6 * exp2(6));
    assert(stream_uint(bytes, i, 8) == stream_uint(bytes, i, 7) + b7 * exp2(7));
}

/// A bit of a byte is 0 or 1.
pub proof fn lemma_byte_bit_bound(b: u8, j: int)
    ensures
        byte_bit(b, j) <= 1,
{
}

/// The bit at `index`, counted from the least significant end of its
/// byte, is the bit at the same distance from the other end when the
/// bytes are numbered from the most significant bit.
pub proof fn lemma_turned_bit(bytes: Seq<u8>, index: int)
    requires
        0 <= index,
    ensures
        msb_uint(bytes, index - index % 8 + (7 - index % 8), 1) == stream_bit(bytes, index),
        stream_bit(bytes, index) <= 1,
{
    let w = index % 8;
    let q = index / 8;
    let t = index - w + (7 - w);
    assert(index == 8 * q + w);
    assert(t == 8 * q + (7 - w));
    assert(t / 8 == q);
    assert(t % 8 == 7 - w);
    assert(msb_bit(bytes, t) == byte_bit(bytes[q], w));
    assert(stream_bit(bytes, index) == byte_bit(bytes[q], w));
    lemma_byte_bit_bound(bytes[q], w);
    assert(msb_uint(bytes, t, 0) == 0);
    assert(msb_uint(bytes, t, 1) == 2 * msb_uint(bytes, t, 0) + msb_bit(bytes, t + 1 - 1));
}

/// The value of one bit is the bit.
pub proof fn lemma_one_bit(bytes: Seq<u8>, i: int)
    ensures
        stream_uint(bytes, i, 1) == stream_bit(bytes, i),
{
    reveal_with_fuel(stream_uint, 2);
    reveal_with_fuel(exp2, 1);
    let bit = stream_bit(bytes, i + 1 - 1);
    assert(stream_uint(bytes, i, 0) == 0);
    assert(exp2(0) == 1);
    assert(bit * 1 == bit);
    assert(stream_uint(bytes, i, 1) == stream_uint(bytes, i, 0) + bit * exp2(0));
}

/// A value of `n` bits is below two to the power of `n`.
pub proof fn lemma_stream_uint_bound(bytes: Seq<u8>, i: int, n: nat)
    ensures
        stream_uint(bytes, i, n) < exp2(n),
    decreases n,
{
    if n > 0 {
        lemma_stream_uint_bound(bytes, i, (n - 1) as nat);
        let bit = stream_bit(bytes, i + n - 1);
        let e = exp2((n - 1) as nat);
        assert(bit * e <= e) by (nonlinear_arith)
            requires
                bit <= 1,
                e >= 0,
        ;
    }
}

/// The powers of two that the fields of the format reach.
pub proof fn lemma_exp2_table()
    ensures
        exp2(8) == 0x100,
        exp2(16) == 0x1_0000,
        exp2(24) == 0x100_0000,
        exp2(32) == 0x1_0000_0000,
{
    reveal_with_fuel(exp2, 9);
    assert(exp2(8) == 0x100);
    assert(exp2(16) == 0x100 * exp2(8)) by {
        reveal_with_fuel(exp2, 9);
    }
    assert(exp2(24) == 0x100 * exp2(16)) by {
        reveal_with_fuel(exp2, 9);
    }
    assert(exp2(32) == 0x100 * exp2(24)) by {
        reveal_with_fuel(exp2, 9);
    }
}

/// The powers of two go up with the exponent, and none is below 1.
pub proof fn lemma_exp2_monotone(a: nat, b: nat)
    requires
        a <= b,
    ensures
        exp2(a) <= exp2(b),
        exp2(a) >= 1,
    decreases b,
{
    if a < b {
        lemma_exp2_monotone(a, (b - 1) as nat);
    } else if a > 0 {
        lemma_exp2_monotone((a - 1) as nat, (b - 1) as nat);
    }
}

/// The compressed bytes together with the place of the next bit.
pub struct BitStream {
    bytes: Vec<u8>,
    pos: u64,
}

impl BitStream {
    /// The bytes of the stream.
    pub closed spec fn bytes(&self) -> Seq<u8> {
        self.bytes@
    }

    /// The number of bits that were taken so far.
    pub closed spec fn pos(&self) -> nat {
        self.pos as nat
    }

    /// The position lies within the stream, and the stream's bits can be
    /// counted in 64 bits.
    pub open spec fn wf(&self) -> bool {
        &&& stream_len(self.bytes()) <= u64::MAX
        &&& self.pos() <= stream_len(self.bytes())
    }

    /// `self` is `before`, possibly at another position.
    pub open spec fn same_input(&self, before: &BitStream) -> bool {
        &&& self.wf()
        &&& self.bytes() == before.bytes()
    }

    /// A stream that starts at the first bit of `bytes`.
    pub fn new(bytes: Vec<u8>) -> (s: BitStream)
        requires
            stream_len(bytes@) <= u64::MAX,
        ensures
            s.wf(),
            s.bytes() == bytes@,
            s.pos() == 0,
    {
        BitStream { bytes, pos: 0 }
    }

    /// The number of bits taken so far.
    pub fn position(&self) -> (p: u64)
        ensures
            p == self.pos(),
    {
        self.pos
    }

    /// The number of bits that are left.
    pub fn remaining(&self) -> (n: u64)
        requires
            self.wf(),
        ensures
            n == stream_len(self.bytes()) - self.pos(),
    {
        (self.bytes.len() as u64) * 8 - self.pos
    }

    /// The bit at `index`.
    pub fn bit_at(&self, index: u64) -> (bit: bool)
        requires
            self.wf(),
            index < stream_len(self.bytes()),
        ensures
            bit == (stream_bit(self.bytes(), index as int) == 1),
    {
        let within: u64 = index % 8;
        let turned: u64 = index - within + (7 - within);
        proof {
            lemma_turned_bit(self.bytes(), index as int);
        }
        match msb_bits_at(self.bytes.as_slice(), turned, 1) {
            Some(v) => v == 1,
            None => false,
        }
    }

    /// The `n` bits from `index` on as a number, the first bit being the
    /// least significant.
    pub fn uint_at(&self, index: u64, n: u8) -> (v: u32)
        requires
            self.wf(),
            n <= 32,
            index + n <= stream_len(self.bytes()),
        ensures
            v == stream_uint(self.bytes(), index as int, n as nat),
    {
        let mut value: u64 = 0;
        let mut weight: u64 = 1;
        let mut i: u8 = 0;
        while i < n
            invariant
                self.wf(),
                i <= n <= 32,
                index + n <= stream_len(self.bytes()),
                value == stream_uint(self.bytes(), index as int, i as nat),
                weight == exp2(i as nat),
                value < weight,
                weight <= 0x1_0000_0000,
            decreases n - i,
        {
            proof {
                lemma_exp2_monotone((i + 1) as nat, 32);
                lemma_exp2_table();
            }
            proof {
                let bit = stream_bit(self.bytes(), index + i);
                let e = exp2(i as nat);
                assert(bit * e == if bit == 1 { e } else { 0 }) by (nonlinear_arith)
                    requires
                        bit == 0 || bit == 1,
                ;
                assert(stream_uint(self.bytes(), index as int, (i + 1) as nat) == stream_uint(
                    self.bytes(),
                    index as int,
                    i as nat,
                ) + bit * e);
            }
            if self.bit_at(index + i as u64) {
                value = value + weight;
            }
            weight = weight * 2;
            i = i + 1;
        }
        proof {
            lemma_exp2_monotone(n as nat, 32);
            lemma_exp2_table();
        }
        value as u32
    }

    /// The eight bits from `index` on as a byte.
    pub fn byte_at(&self, index: u64) -> (v: u8)
        requires
            self.wf(),
            index + 8 <= stream_len(self.bytes()),
        ensures
            v == stream_uint(self.bytes(), index as int, 8),
    {
        proof {
            lemma_stream_uint_bound(self.bytes(), index as int, 8);
            lemma_exp2_values();
        }
        if index % 8 == 0 {
            proof {
                lemma_byte_value(self.bytes(), index as int / 8);
                lemma_msb_byte(self.bytes(), index as int / 8);
            }
            match msb_bits_at(self.bytes.as_slice(), index, 8) {
                Some(v) => v,
                None => 0,
            }
        } else {
            self.uint_at(index, 8) as u8
        }
    }

    /// The next `n` bits as a number, without taking them.
    pub fn peek_u32_from_n_bits(&self, n: u8) -> (r: Result<u32, DecompressorError>)
        requires
            self.wf(),
            n <= 32,
        ensures
            r == peeked(take_bits(self.bytes(), self.pos(), n as nat)),
    {
        if self.remaining() < n as u64 {
            return Err(DecompressorError::UnexpectedEOF);
        }
        proof {
            lemma_stream_uint_bound(self.bytes(), self.pos() as int, n as nat);
            lemma_exp2_monotone(n as nat, 32);
            lemma_exp2_table();
        }
        Ok(self.uint_at(self.pos, n))
    }

    /// Moves `n` bits on.
    pub fn skip_bits(&mut self, n: u64) -> (r: Result<(), DecompressorError>)
        requires
            old(self).wf(),
        ensures
            final(self).same_input(old(self)),
            final(self).pos() >= old(self).pos(),
            match r {
                Ok(_) => old(self).pos() + n <= stream_len(old(self).bytes()) && final(self).pos()
                    == old(self).pos() + n,
                Err(e) => e == DecompressorError::UnexpectedEOF && old(self).pos() + n
                    > stream_len(old(self).bytes()) && final(self).pos() == old(self).pos(),
            },
    {
        if self.remaining() < n {
            return Err(DecompressorError::UnexpectedEOF);
        }
        self.pos = self.pos + n;
        Ok(())
    }

    /// Takes one bit.
    pub fn read_bit(&mut self) -> (r: Result<bool, DecompressorError>)
        requires
            old(self).wf(),
        ensures
            final(self).same_input(old(self)),
            final(self).pos() >= old(self).pos(),
            took(r, final(self).pos(), take_bit(old(self).bytes(), old(self).pos())),
            stays_on_error(r, old(self).pos(), final(self).pos()),
    {
        if self.remaining() == 0 {
            return Err(DecompressorError::UnexpectedEOF);
        }
        proof {
            lemma_one_bit(self.bytes(), self.pos() as int);
        }
        let bit = self.bit_at(self.pos);
        self.pos = self.pos + 1;
        Ok(bit)
    }

    /// Takes `n` bits as a number, the first bit being the least
    /// significant.
    pub fn read_u32_from_n_bits(&mut self, n: u8) -> (r: Result<u32, DecompressorError>)
        requires
            old(self).wf(),
            n <= 32,
        ensures
            final(self).same_input(old(self)),
            final(self).pos() >= old(self).pos(),
            took(r, final(self).pos(), take_u32(old(self).bytes(), old(self).pos(), n as nat)),
            stays_on_error(r, old(self).pos(), final(self).pos()),
    {
        if self.remaining() < n as u64 {
            return Err(DecompressorError::UnexpectedEOF);
        }
        proof {
            lemma_stream_uint_bound(self.bytes(), self.pos() as int, n as nat);
            lemma_exp2_monotone(n as nat, 32);
            lemma_exp2_table();
        }
        let v = self.uint_at(self.pos, n);
        self.pos = self.pos + n as u64;
        Ok(v)
    }

    /// Takes `n` bits as a number of 16 bits.
    pub fn read_u16_from_n_bits(&mut self, n: u8) -> (r: Result<u16, DecompressorError>)
        requires
            old(self).wf(),
            n <= 16,
        ensures
            final(self).same_input(old(self)),
            final(self).pos() >= old(self).pos(),
            took(r, final(self).pos(), take_u16(old(self).bytes(), old(self).pos(), n as nat)),
            stays_on_error(r, old(self).pos(), final(self).pos()),
    {
        proof {
            lemma_stream_uint_bound(self.bytes(), self.pos() as int, n as nat);
            lemma_exp2_monotone(n as nat, 16);
            lemma_exp2_table();
        }
        match self.read_u32_from_n_bits(n) {
            Ok(v) => Ok(v as u16),
            Err(e) => Err(e),
        }
    }

    /// Takes `n` bits as a number of 8 bits.
    pub fn read_u8_from_n_bits(&mut self, n: u8) -> (r: Result<u8, DecompressorError>)
        requires
            old(self).wf(),
            n <= 8,
        ensures
            final(self).same_input(old(self)),
            final(self).pos() >= old(self).pos(),
            took(r, final(self).pos(), take_u8(old(self).bytes(), old(self).pos(), n as nat)),
            stays_on_error(r, old(self).pos(), final(self).pos()),
    {
        proof {
            lemma_stream_uint_bound(self.bytes(), self.pos() as int, n as nat);
            lemma_exp2_monotone(n as nat, 8);
            lemma_exp2_table();
        }
        match self.read_u32_from_n_bits(n) {
            Ok(v) => Ok(v as u8),
            Err(e) => Err(e),
        }
    }

    /// Takes `n` groups of four bits as a number.
    pub fn read_u32_from_n_nibbles(&mut self, n: u8) -> (r: Result<u32, DecompressorError>)
        requires
            old(self).wf(),
            n <= 8,
        ensures
            final(self).same_input(old(self)),
            final(self).pos() >= old(self).pos(),
            took(r, final(self).pos(), take_u32(old(self).bytes(), old(self).pos(), 4 * n as nat)),
            stays_on_error(r, old(self).pos(), final(self).pos()),
    {
        self.read_u32_from_n_bits(4 * n)
    }

    /// Takes eight bits as a byte.
    pub fn read_u8(&mut self) -> (r: Result<u8, DecompressorError>)
        requires
            old(self).wf(),
        ensures
            final(self).same_input(old(self)),
            final(self).pos() >= old(self).pos(),
            took(r, final(self).pos(), take_u8(old(self).bytes(), old(self).pos(), 8)),
            stays_on_error(r, old(self).pos(), final(self).pos()),
    {
        if self.remaining() < 8 {
            return Err(DecompressorError::UnexpectedEOF);
        }
        let v = self.byte_at(self.pos);
        self.pos = self.pos + 8;
        Ok(v)
    }

    /// Takes `n` bytes of eight bits each.
    pub fn read_fixed_length_string(&mut self, n: usize) -> (r: Result<Vec<u8>, DecompressorError>)
        requires
            old(self).wf(),
        ensures
            final(self).same_input(old(self)),
            final(self).pos() >= old(self).pos(),
            took_bytes(r, final(self).pos(), take_bytes(old(self).bytes(), old(self).pos(), n as nat)),
            stays_on_error(r, old(self).pos(), final(self).pos()),
    {
        if self.remaining() / 8 < n as u64 {
            return Err(DecompressorError::UnexpectedEOF);
        }
        let ghost start = self.pos();
        let mut out: Vec<u8> = Vec::new();
        let mut k: usize = 0;
        while k < n
            invariant
                self.same_input(old(self)),
                start == old(self).pos(),
                k <= n,
                start + 8 * n <= stream_len(self.bytes()),
                self.pos() == start + 8 * k,
                out@ == stream_bytes(self.bytes(), start, k as nat),
            decreases n - k,
        {
            let v = self.byte_at(self.pos);
            out.push(v);
            self.pos = self.pos + 8;
            k = k + 1;
            assert(out@ =~= stream_bytes(self.bytes(), start, k as nat));
        }
        Ok(out)
    }

    /// Takes the bits up to the next byte boundary, none if the stream
    /// stands at one, and gives their value.
    pub fn read_u8_from_byte_tail(&mut self) -> (v: u8)
        requires
            old(self).wf(),
        ensures
            final(self).same_input(old(self)),
            final(self).pos() >= old(self).pos(),
            final(self).pos() == old(self).pos() + fill_len(old(self).pos()),
            v == stream_uint(old(self).bytes(), old(self).pos() as int, fill_len(old(self).pos())),
    {
        let n: u8 = ((8 - self.pos % 8) % 8) as u8;
        proof {
            lemma_stream_uint_bound(self.bytes(), self.pos() as int, n as nat);
            lemma_exp2_monotone(n as nat, 8);
            lemma_exp2_table();
        }
        let v = self.uint_at(self.pos, n);
        self.pos = self.pos + n as u64;
        v as u8
    }
}

/// The number of bits between `pos` and the next byte boundary.
pub open spec fn fill_len(pos: nat) -> nat {
    ((8 - pos % 8) % 8) as nat
}

/// The `n` bytes that start at bit `pos`, eight bits each.
pub open spec fn stream_bytes(bytes: Seq<u8>, pos: nat, n: nat) -> Seq<u8> {
    Seq::new(n, |k: int| stream_uint(bytes, pos + 8 * k, 8) as u8)
}

/// What taking `n` bits at `pos` gives: their value and the position
/// behind them, or the end of the input.
pub open spec fn take_bits(bytes: Seq<u8>, pos: nat, n: nat) -> Result<(nat, nat), DecompressorError> {
    if pos + n <= stream_len(bytes) {
        Ok((stream_uint(bytes, pos as int, n), pos + n))
    } else {
        Err(DecompressorError::UnexpectedEOF)
    }
}

/// `take_bits` for one bit, as a truth value.
pub open spec fn take_bit(bytes: Seq<u8>, pos: nat) -> Result<(bool, nat), DecompressorError> {
    match take_bits(bytes, pos, 1) {
        Ok((v, next)) => Ok((v == 1, next)),
        Err(e) => Err(e),
    }
}

/// `take_bits` with the value as a number of 32 bits.
pub open spec fn take_u32(bytes: Seq<u8>, pos: nat, n: nat) -> Result<(u32, nat), DecompressorError> {
    match take_bits(bytes, pos, n) {
        Ok((v, next)) => Ok((v as u32, next)),
        Err(e) => Err(e),
    }
}

/// `take_bits` with the value as a number of 16 bits.
pub open spec fn take_u16(bytes: Seq<u8>, pos: nat, n: nat) -> Result<(u16, nat), DecompressorError> {
    match take_bits(bytes, pos, n) {
        Ok((v, next)) => Ok((v as u16, next)),
        Err(e) => Err(e),
    }
}

/// `take_bits` with the value as a number of 8 bits.
pub open spec fn take_u8(bytes: Seq<u8>, pos: nat, n: nat) -> Result<(u8, nat), DecompressorError> {
    match take_bits(bytes, pos, n) {
        Ok((v, next)) => Ok((v as u8, next)),
        Err(e) => Err(e),
    }
}

/// What taking `n` whole bytes at `pos` gives.
pub open spec fn take_bytes(bytes: Seq<u8>, pos: nat, n: nat) -> Result<(Seq<u8>, nat), DecompressorError> {
    if pos + 8 * n <= stream_len(bytes) {
        Ok((stream_bytes(bytes, pos, n), pos + 8 * n))
    } else {
        Err(DecompressorError::UnexpectedEOF)
    }
}

/// A read that fails leaves the stream where it stood.
pub open spec fn stays_on_error<T>(r: Result<T, DecompressorError>, before: nat, after: nat) -> bool {
    r is Err ==> after == before
}

/// A function's result `r` and the stream's new position `pos` are what
/// `expected` says: the value and the position behind it, or the error.
pub open spec fn took<T>(r: Result<T, DecompressorError>, pos: nat, expected: Result<(T, nat), DecompressorError>) -> bool {
    match expected {
        Ok((v, next)) => r == Ok::<T, DecompressorError>(v) && pos == next,
        Err(e) => r == Err::<T, DecompressorError>(e),
    }
}

/// `took` for a result that is a vector of bytes.
pub open spec fn took_bytes(r: Result<Vec<u8>, DecompressorError>, pos: nat, expected: Result<(Seq<u8>, nat), DecompressorError>) -> bool {
    match expected {
        Ok((v, next)) => r is Ok && r->Ok_0@ == v && pos == next,
        Err(e) => r == Err::<Vec<u8>, DecompressorError>(e),
    }
}

/// The value that a look ahead hands back, the position left out.
pub open spec fn peeked(expected: Result<(nat, nat), DecompressorError>) -> Result<u32, DecompressorError> {
    match expected {
        Ok((v, _)) => Ok(v as u32),
        Err(e) => Err(e),
    }
}

/// `next` lies behind `pos`, or is `pos`, and lies within the stream.
pub open spec fn within(bytes: Seq<u8>, pos: nat, next: nat) -> bool {
    pos <= next <= stream_len(bytes)
}

/// The fill bits end at a byte boundary within the stream.
pub proof fn lemma_fill_within(bytes: Seq<u8>, pos: nat)
    requires
        pos <= stream_len(bytes),
    ensures
        within(bytes, pos, pos + fill_len(pos)),
{
}

} // verus!
