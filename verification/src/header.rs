//! The stream header and the header of a meta-block.

use vstd::prelude::*;
use crate::bits::{
    BitStream, exp2, stream_len, take_bit, take_bits, take_u8, took, lemma_stream_uint_bound,
    lemma_exp2_values, lemma_exp2_table, lemma_exp2_monotone,
};
use crate::error::DecompressorError;

verus! {

/// What the stream header says.
#[derive(Debug, Clone, Copy, PartialEq)]
pub struct Header {
    /// The exponent of the window size, from 10 to 24.
    pub wbits: Option<u8>,
    /// The window size: two to the power of `wbits`, less 16.
    pub window_size: Option<usize>,
}

impl Header {
    /// A header of which nothing is known yet.
    pub fn new() -> (header: Header)
        ensures
            header.wbits is None,
            header.window_size is None,
    {
        Header { wbits: None, window_size: None }
    }
}

/// The fields of a meta-block's header. A field that the stream does not
/// hold for this meta-block is `None`.
#[derive(Debug, Clone, Copy, PartialEq)]
pub struct MetaBlockHeader {
    /// ISLAST: no meta-block follows.
    pub is_last: Option<bool>,
    /// ISLASTEMPTY: the last meta-block holds nothing. Present if ISLAST.
    pub is_last_empty: Option<bool>,
    /// MNIBBLES: the number of nibbles of MLEN − 1, or 0 for a meta-block
    /// that is skipped.
    pub m_nibbles: Option<u8>,
    /// MSKIPBYTES: the number of bytes of MSKIPLEN − 1. Present if
    /// MNIBBLES is 0.
    pub m_skip_bytes: Option<u8>,
    /// MSKIPLEN: the number of bytes to skip. Present if MSKIPBYTES is not 0.
    pub m_skip_len: Option<u32>,
    /// MLEN: the number of bytes that the meta-block stands for.
    pub m_len: Option<u32>,
    /// ISUNCOMPRESSED: the bytes follow as they are. Present unless ISLAST.
    pub is_uncompressed: Option<bool>,
}

/// The header of which nothing is known yet.
pub open spec fn blank_header() -> MetaBlockHeader {
    MetaBlockHeader {
        is_last: None,
        is_last_empty: None,
        m_nibbles: None,
        m_skip_bytes: None,
        m_skip_len: None,
        m_len: None,
        is_uncompressed: None,
    }
}

impl MetaBlockHeader {
    /// A header of which nothing is known yet.
    pub fn new() -> (header: MetaBlockHeader)
        ensures
            header == blank_header(),
    {
        MetaBlockHeader {
            is_last: None,
            is_last_empty: None,
            m_nibbles: None,
            m_skip_bytes: None,
            m_skip_len: None,
            m_len: None,
            is_uncompressed: None,
        }
    }

    /// The stream ends with this meta-block, which holds nothing.
    pub open spec fn ends_stream(self) -> bool {
        self.is_last == Some(true) && self.is_last_empty == Some(true)
    }

    /// The meta-block holds bytes to skip and stands for none.
    pub open spec fn is_skip(self) -> bool {
        self.m_nibbles == Some(0u8)
    }
}

/// The window size for an exponent.
pub fn window_size(wbits: u8) -> (size: usize)
    requires
        10 <= wbits <= 24,
    ensures
        size == exp2(wbits as nat) - 16,
        1008 <= size <= 0x100_0000 - 16,
{
    let mut power: usize = 1;
    let mut k: u8 = 0;
    while k < wbits
        invariant
            k <= wbits <= 24,
            power == exp2(k as nat),
            power <= 0x100_0000,
        decreases wbits - k,
    {
        proof {
            lemma_exp2_monotone((k + 1) as nat, 24);
            lemma_exp2_table();
        }
        power = power * 2;
        k = k + 1;
    }
    proof {
        lemma_exp2_monotone(10, wbits as nat);
        lemma_exp2_monotone(wbits as nat, 24);
        lemma_exp2_table();
        reveal_with_fuel(exp2, 3);
        lemma_exp2_values();
    }
    power - 16
}

/// MNIBBLES for the two bits that stand for it.
pub open spec fn m_nibbles_of(v: nat) -> u8 {
    if v == 3 {
        0
    } else {
        (v + 4) as u8
    }
}

/// What reading MNIBBLES gives.
pub open spec fn take_m_nibbles(bytes: Seq<u8>, pos: nat) -> Result<(u8, nat), DecompressorError> {
    match take_bits(bytes, pos, 2) {
        Err(e) => Err(e),
        Ok((v, next)) => Ok((m_nibbles_of(v), next)),
    }
}

/// What reading MSKIPLEN gives: the `m_skip_bytes` bytes hold the length
/// less one, the lowest byte first, and the highest of several bytes is
/// not zero.
pub open spec fn take_m_skip_len(bytes: Seq<u8>, pos: nat, m_skip_bytes: u8) -> Result<
    (u32, nat),
    DecompressorError,
> {
    match take_bits(bytes, pos, 8 * m_skip_bytes as nat) {
        Err(e) => Err(e),
        Ok((v, next)) => if m_skip_bytes > 1 && v < exp2((8 * (m_skip_bytes - 1)) as nat) {
            Err(DecompressorError::InvalidMSkipLen)
        } else {
            Ok(((v + 1) as u32, next))
        },
    }
}

/// What reading MLEN gives: the `m_nibbles` nibbles hold the length less
/// one, the lowest nibble first, and the highest of more than four nibbles
/// is not zero.
pub open spec fn take_m_len(bytes: Seq<u8>, pos: nat, m_nibbles: u8) -> Result<
    (u32, nat),
    DecompressorError,
> {
    match take_bits(bytes, pos, 4 * m_nibbles as nat) {
        Err(e) => Err(e),
        Ok((v, next)) => if m_nibbles > 4 && v < exp2((4 * (m_nibbles - 1)) as nat) {
            Err(DecompressorError::InvalidMLenNibble)
        } else {
            Ok(((v + 1) as u32, next))
        },
    }
}

/// The header of a skipped meta-block from the reserved bit on.
#[verifier::opaque]
pub open spec fn take_skip_header(bytes: Seq<u8>, pos: nat, header: MetaBlockHeader) -> Result<
    (MetaBlockHeader, nat),
    DecompressorError,
> {
    match take_bit(bytes, pos) {
        Err(e) => Err(e),
        Ok((reserved, p1)) => if reserved {
            Err(DecompressorError::NonZeroReserved)
        } else {
            match take_u8(bytes, p1, 2) {
                Err(e) => Err(e),
                Ok((m_skip_bytes, p2)) => {
                    let with_bytes = MetaBlockHeader { m_skip_bytes: Some(m_skip_bytes), ..header };
                    if m_skip_bytes == 0 {
                        Ok((with_bytes, p2))
                    } else {
                        match take_m_skip_len(bytes, p2, m_skip_bytes) {
                            Err(e) => Err(e),
                            Ok((m_skip_len, p3)) => Ok(
                                (MetaBlockHeader { m_skip_len: Some(m_skip_len), ..with_bytes }, p3),
                            ),
                        }
                    }
                },
            }
        },
    }
}

/// The header of a meta-block that stands for bytes, from MLEN on.
#[verifier::opaque]
pub open spec fn take_length_header(bytes: Seq<u8>, pos: nat, header: MetaBlockHeader, m_nibbles: u8) -> Result<
    (MetaBlockHeader, nat),
    DecompressorError,
> {
    match take_m_len(bytes, pos, m_nibbles) {
        Err(e) => Err(e),
        Ok((m_len, p1)) => {
            let with_len = MetaBlockHeader { m_len: Some(m_len), ..header };
            if header.is_last == Some(true) {
                Ok((with_len, p1))
            } else {
                match take_bit(bytes, p1) {
                    Err(e) => Err(e),
                    Ok((is_uncompressed, p2)) => Ok(
                        (MetaBlockHeader { is_uncompressed: Some(is_uncompressed), ..with_len }, p2),
                    ),
                }
            }
        },
    }
}

/// The header from MNIBBLES on.
#[verifier::opaque]
pub open spec fn take_sized_header(bytes: Seq<u8>, pos: nat, header: MetaBlockHeader) -> Result<
    (MetaBlockHeader, nat),
    DecompressorError,
> {
    match take_m_nibbles(bytes, pos) {
        Err(e) => Err(e),
        Ok((m_nibbles, p1)) => {
            let with_nibbles = MetaBlockHeader { m_nibbles: Some(m_nibbles), ..header };
            if m_nibbles == 0 {
                take_skip_header(bytes, p1, with_nibbles)
            } else {
                take_length_header(bytes, p1, with_nibbles, m_nibbles)
            }
        },
    }
}

/// What reading the header of a meta-block at `pos` gives: ISLAST; after a
/// set ISLAST, ISLASTEMPTY, which ends the header if set; MNIBBLES; then
/// for a skipped meta-block the reserved bit, MSKIPBYTES and MSKIPLEN, and
/// for any other MLEN and, unless ISLAST, ISUNCOMPRESSED.
#[verifier::opaque]
pub open spec fn take_meta_block_header(bytes: Seq<u8>, pos: nat) -> Result<
    (MetaBlockHeader, nat),
    DecompressorError,
> {
    match take_bit(bytes, pos) {
        Err(e) => Err(e),
        Ok((is_last, p1)) => {
            let with_last = MetaBlockHeader { is_last: Some(is_last), ..blank_header() };
            if is_last {
                match take_bit(bytes, p1) {
                    Err(e) => Err(e),
                    Ok((is_last_empty, p2)) => {
                        let with_empty = MetaBlockHeader {
                            is_last_empty: Some(is_last_empty),
                            ..with_last
                        };
                        if is_last_empty {
                            Ok((with_empty, p2))
                        } else {
                            take_sized_header(bytes, p2, with_empty)
                        }
                    },
                }
            } else {
                take_sized_header(bytes, p1, with_last)
            }
        },
    }
}

/// Reads ISLAST.
pub fn parse_is_last(stream: &mut BitStream) -> (r: Result<bool, DecompressorError>)
    requires
        old(stream).wf(),
    ensures
        final(stream).same_input(old(stream)),
        final(stream).pos() >= old(stream).pos(),
        took(r, final(stream).pos(), take_bit(old(stream).bytes(), old(stream).pos())),
{
    stream.read_bit()
}

/// Reads ISLASTEMPTY.
pub fn parse_is_last_empty(stream: &mut BitStream) -> (r: Result<bool, DecompressorError>)
    requires
        old(stream).wf(),
    ensures
        final(stream).same_input(old(stream)),
        final(stream).pos() >= old(stream).pos(),
        took(r, final(stream).pos(), take_bit(old(stream).bytes(), old(stream).pos())),
{
    stream.read_bit()
}

/// Reads MNIBBLES.
pub fn parse_m_nibbles(stream: &mut BitStream) -> (r: Result<u8, DecompressorError>)
    requires
        old(stream).wf(),
    ensures
        final(stream).same_input(old(stream)),
        final(stream).pos() >= old(stream).pos(),
        took(r, final(stream).pos(), take_m_nibbles(old(stream).bytes(), old(stream).pos())),
        r matches Ok(n) ==> n == 0 || 4 <= n <= 6,
{
    proof {
        lemma_stream_uint_bound(stream.bytes(), stream.pos() as int, 2);
        lemma_exp2_values();
    }
    match stream.read_u8_from_n_bits(2) {
        Ok(v) => if v == 3 {
            Ok(0)
        } else {
            Ok(v + 4)
        },
        Err(e) => Err(e),
    }
}

/// Reads MSKIPBYTES.
pub fn parse_m_skip_bytes(stream: &mut BitStream) -> (r: Result<u8, DecompressorError>)
    requires
        old(stream).wf(),
    ensures
        final(stream).same_input(old(stream)),
        final(stream).pos() >= old(stream).pos(),
        took(r, final(stream).pos(), take_u8(old(stream).bytes(), old(stream).pos(), 2)),
        r matches Ok(n) ==> n <= 3,
{
    proof {
        lemma_stream_uint_bound(stream.bytes(), stream.pos() as int, 2);
        lemma_exp2_values();
    }
    stream.read_u8_from_n_bits(2)
}

/// Reads MSKIPLEN, which `m_skip_bytes` bytes hold.
pub fn parse_m_skip_len(stream: &mut BitStream, m_skip_bytes: u8) -> (r: Result<u32, DecompressorError>)
    requires
        old(stream).wf(),
        1 <= m_skip_bytes <= 3,
    ensures
        final(stream).same_input(old(stream)),
        final(stream).pos() >= old(stream).pos(),
        took(
            r,
            final(stream).pos(),
            take_m_skip_len(old(stream).bytes(), old(stream).pos(), m_skip_bytes),
        ),
        r matches Ok(n) ==> 1 <= n <= 0x100_0000,
{
    proof {
        lemma_stream_uint_bound(stream.bytes(), stream.pos() as int, 8 * m_skip_bytes as nat);
        lemma_exp2_table();
        lemma_exp2_values();
    }
    let v = match stream.read_u32_from_n_bits(8 * m_skip_bytes) {
        Ok(v) => v,
        Err(e) => {
            return Err(e);
        },
    };
    let least: u32 = if m_skip_bytes == 1 {
        0
    } else if m_skip_bytes == 2 {
        0x100
    } else {
        0x1_0000
    };
    if v < least {
        Err(DecompressorError::InvalidMSkipLen)
    } else {
        Ok(v + 1)
    }
}

/// Reads MLEN, which `m_nibbles` nibbles hold.
pub fn parse_m_len(stream: &mut BitStream, m_nibbles: u8) -> (r: Result<u32, DecompressorError>)
    requires
        old(stream).wf(),
        4 <= m_nibbles <= 6,
    ensures
        final(stream).same_input(old(stream)),
        final(stream).pos() >= old(stream).pos(),
        took(r, final(stream).pos(), take_m_len(old(stream).bytes(), old(stream).pos(), m_nibbles)),
        r matches Ok(n) ==> 1 <= n <= 0x100_0000,
{
    proof {
        lemma_stream_uint_bound(stream.bytes(), stream.pos() as int, 4 * m_nibbles as nat);
        lemma_exp2_table();
        lemma_exp2_nibbles();
    }
    let v = match stream.read_u32_from_n_nibbles(m_nibbles) {
        Ok(v) => v,
        Err(e) => {
            return Err(e);
        },
    };
    let least: u32 = if m_nibbles == 4 {
        0
    } else if m_nibbles == 5 {
        0x1_0000
    } else {
        0x10_0000
    };
    if v < least {
        Err(DecompressorError::InvalidMLenNibble)
    } else {
        Ok(v + 1)
    }
}

/// The powers of two that the lengths of three to six nibbles reach.
pub proof fn lemma_exp2_nibbles()
    ensures
        exp2(12) == 0x1000,
        exp2(16) == 0x1_0000,
        exp2(20) == 0x10_0000,
        exp2(24) == 0x100_0000,
{
    lemma_exp2_table();
    lemma_exp2_values();
    assert(exp2(12) == 16 * exp2(8)) by {
        reveal_with_fuel(exp2, 5);
    }
    assert(exp2(20) == 16 * exp2(16)) by {
        reveal_with_fuel(exp2, 5);
    }
}

/// Reads ISUNCOMPRESSED.
pub fn parse_is_uncompressed(stream: &mut BitStream) -> (r: Result<bool, DecompressorError>)
    requires
        old(stream).wf(),
    ensures
        final(stream).same_input(old(stream)),
        final(stream).pos() >= old(stream).pos(),
        took(r, final(stream).pos(), take_bit(old(stream).bytes(), old(stream).pos())),
{
    stream.read_bit()
}

/// A header that `take_meta_block_header` can give: the lengths lie in
/// their ranges, and the fields are present together as the format has it.
pub open spec fn header_wf(header: MetaBlockHeader) -> bool {
    &&& header.is_last is Some
    &&& header.is_last_empty is Some <==> header.is_last == Some(true)
    &&& header.ends_stream() ==> header.m_nibbles is None && header.m_len is None
    &&& !header.ends_stream() ==> header.m_nibbles is Some
    &&& header.m_nibbles matches Some(n) ==> (n == 0 || 4 <= n <= 6)
    &&& header.is_skip() ==> header.m_len is None && header.m_skip_bytes is Some
    &&& header.m_skip_bytes matches Some(n) ==> n <= 3 && (header.m_skip_len is Some <==> n > 0)
    &&& header.m_skip_len matches Some(n) ==> 1 <= n <= 0x100_0000
    &&& !header.ends_stream() && !header.is_skip() ==> header.m_len is Some
    &&& header.m_len matches Some(n) ==> 1 <= n <= 0x100_0000 && header.m_skip_bytes is None
        && (header.is_uncompressed is Some <==> header.is_last == Some(false))
    &&& header.m_len is None ==> header.is_uncompressed is None
}

/// Reads the header of a skipped meta-block from the reserved bit on.
fn parse_skip_header(stream: &mut BitStream, header: MetaBlockHeader) -> (r: Result<MetaBlockHeader, DecompressorError>)
    requires
        old(stream).wf(),
    ensures
        final(stream).same_input(old(stream)),
        final(stream).pos() >= old(stream).pos(),
        took(
            r,
            final(stream).pos(),
            take_skip_header(old(stream).bytes(), old(stream).pos(), header),
        ),
{
    reveal(take_skip_header);
    let mut header = header;
    match stream.read_bit() {
        Ok(reserved) => {
            if reserved {
                return Err(DecompressorError::NonZeroReserved);
            }
        },
        Err(e) => {
            return Err(e);
        },
    }
    let m_skip_bytes = match parse_m_skip_bytes(stream) {
        Ok(v) => v,
        Err(e) => {
            return Err(e);
        },
    };
    header.m_skip_bytes = Some(m_skip_bytes);
    if m_skip_bytes > 0 {
        let m_skip_len = match parse_m_skip_len(stream, m_skip_bytes) {
            Ok(v) => v,
            Err(e) => {
                return Err(e);
            },
        };
        header.m_skip_len = Some(m_skip_len);
    }
    Ok(header)
}

/// Reads the header of a meta-block that stands for bytes, from MLEN on.
fn parse_length_header(stream: &mut BitStream, header: MetaBlockHeader, m_nibbles: u8) -> (r: Result<
    MetaBlockHeader,
    DecompressorError,
>)
    requires
        old(stream).wf(),
        4 <= m_nibbles <= 6,
        header.is_last is Some,
    ensures
        final(stream).same_input(old(stream)),
        final(stream).pos() >= old(stream).pos(),
        took(
            r,
            final(stream).pos(),
            take_length_header(old(stream).bytes(), old(stream).pos(), header, m_nibbles),
        ),
{
    reveal(take_length_header);
    let mut header = header;
    let m_len = match parse_m_len(stream, m_nibbles) {
        Ok(v) => v,
        Err(e) => {
            return Err(e);
        },
    };
    header.m_len = Some(m_len);
    let is_last = match header.is_last {
        Some(v) => v,
        None => false,
    };
    if !is_last {
        let is_uncompressed = match parse_is_uncompressed(stream) {
            Ok(v) => v,
            Err(e) => {
                return Err(e);
            },
        };
        header.is_uncompressed = Some(is_uncompressed);
    }
    Ok(header)
}

/// Reads the header from MNIBBLES on.
fn parse_sized_header(stream: &mut BitStream, header: MetaBlockHeader) -> (r: Result<MetaBlockHeader, DecompressorError>)
    requires
        old(stream).wf(),
        header.is_last is Some,
    ensures
        final(stream).same_input(old(stream)),
        final(stream).pos() >= old(stream).pos(),
        took(
            r,
            final(stream).pos(),
            take_sized_header(old(stream).bytes(), old(stream).pos(), header),
        ),
{
    reveal(take_sized_header);
    let mut header = header;
    let m_nibbles = match parse_m_nibbles(stream) {
        Ok(v) => v,
        Err(e) => {
            return Err(e);
        },
    };
    header.m_nibbles = Some(m_nibbles);
    if m_nibbles == 0 {
        parse_skip_header(stream, header)
    } else {
        parse_length_header(stream, header, m_nibbles)
    }
}

/// A header that was read is well formed, and reading it took at least
/// one bit.
pub proof fn lemma_header_wf(bytes: Seq<u8>, pos: nat)
    ensures
        take_meta_block_header(bytes, pos) matches Ok((header, next)) ==> header_wf(header) && pos
            < next <= stream_len(bytes),
{
    reveal(take_meta_block_header);
    match take_bit(bytes, pos) {
        Err(e) => {},
        Ok((is_last, p1)) => {
            let with_last = MetaBlockHeader { is_last: Some(is_last), ..blank_header() };
            if is_last {
                match take_bit(bytes, p1) {
                    Err(e) => {},
                    Ok((is_last_empty, p2)) => {
                        let with_empty = MetaBlockHeader {
                            is_last_empty: Some(is_last_empty),
                            ..with_last
                        };
                        if !is_last_empty {
                            lemma_sized_header_wf(bytes, p2, with_empty);
                        }
                    },
                }
            } else {
                lemma_sized_header_wf(bytes, p1, with_last);
            }
        },
    }
}

/// A header that was read from MNIBBLES on is well formed.
proof fn lemma_sized_header_wf(bytes: Seq<u8>, pos: nat, header: MetaBlockHeader)
    requires
        header == (MetaBlockHeader {
            is_last: header.is_last,
            is_last_empty: header.is_last_empty,
            ..blank_header()
        }),
        header.is_last is Some,
        header.is_last_empty is Some <==> header.is_last == Some(true),
        !header.ends_stream(),
    ensures
        take_sized_header(bytes, pos, header) matches Ok((full, next)) ==> header_wf(full) && pos
            <= next <= stream_len(bytes),
{
    reveal(take_sized_header);
    lemma_exp2_values();
    lemma_stream_uint_bound(bytes, pos as int, 2);
    match take_m_nibbles(bytes, pos) {
        Err(e) => {},
        Ok((m_nibbles, p1)) => {
            let with_nibbles = MetaBlockHeader { m_nibbles: Some(m_nibbles), ..header };
            assert(m_nibbles == 0 || 4 <= m_nibbles <= 6);
            if m_nibbles == 0 {
                lemma_skip_header_wf(bytes, p1, with_nibbles);
            } else {
                lemma_length_header_wf(bytes, p1, with_nibbles, m_nibbles);
            }
        },
    }
}

/// The header of a skipped meta-block that was read is well formed.
proof fn lemma_skip_header_wf(bytes: Seq<u8>, pos: nat, header: MetaBlockHeader)
    requires
        header == (MetaBlockHeader {
            is_last: header.is_last,
            is_last_empty: header.is_last_empty,
            m_nibbles: Some(0u8),
            ..blank_header()
        }),
        header.is_last is Some,
        header.is_last_empty is Some <==> header.is_last == Some(true),
        !header.ends_stream(),
    ensures
        take_skip_header(bytes, pos, header) matches Ok((full, next)) ==> header_wf(full) && pos
            <= next <= stream_len(bytes),
{
    reveal(take_skip_header);
    lemma_exp2_table();
    lemma_exp2_values();
    match take_bit(bytes, pos) {
        Err(e) => {},
        Ok((reserved, p1)) => {
            lemma_stream_uint_bound(bytes, p1 as int, 2);
            match take_u8(bytes, p1, 2) {
                Err(e) => {},
                Ok((m_skip_bytes, p2)) => {
                    assert(m_skip_bytes <= 3);
                    lemma_stream_uint_bound(bytes, p2 as int, 8 * m_skip_bytes as nat);
                    if m_skip_bytes == 1 {
                        assert(exp2(8 * m_skip_bytes as nat) == 0x100);
                    } else if m_skip_bytes == 2 {
                        assert(exp2(8 * m_skip_bytes as nat) == 0x1_0000);
                    } else if m_skip_bytes == 3 {
                        assert(exp2(8 * m_skip_bytes as nat) == 0x100_0000);
                    }
                },
            }
        },
    }
}

/// The header of a meta-block with a length that was read is well formed.
proof fn lemma_length_header_wf(bytes: Seq<u8>, pos: nat, header: MetaBlockHeader, m_nibbles: u8)
    requires
        header == (MetaBlockHeader {
            is_last: header.is_last,
            is_last_empty: header.is_last_empty,
            m_nibbles: Some(m_nibbles),
            ..blank_header()
        }),
        4 <= m_nibbles <= 6,
        header.is_last is Some,
        header.is_last_empty is Some <==> header.is_last == Some(true),
        !header.ends_stream(),
    ensures
        take_length_header(bytes, pos, header, m_nibbles) matches Ok((full, next)) ==> header_wf(
            full,
        ) && pos <= next <= stream_len(bytes),
{
    reveal(take_length_header);
    lemma_exp2_nibbles();
    lemma_stream_uint_bound(bytes, pos as int, 4 * m_nibbles as nat);
    if m_nibbles == 4 {
        assert(exp2(4 * m_nibbles as nat) == 0x1_0000);
    } else if m_nibbles == 5 {
        assert(exp2(4 * m_nibbles as nat) == 0x10_0000);
    } else {
        assert(exp2(4 * m_nibbles as nat) == 0x100_0000);
    }
    match take_m_len(bytes, pos, m_nibbles) {
        Err(e) => {},
        Ok((m_len, p1)) => {
            assert(1 <= m_len <= 0x100_0000);
            let with_len = MetaBlockHeader { m_len: Some(m_len), ..header };
            if header.is_last == Some(true) {
                assert(header_wf(with_len));
            } else {
                match take_bit(bytes, p1) {
                    Err(e) => {},
                    Ok((is_uncompressed, p2)) => {
                        let full = MetaBlockHeader { is_uncompressed: Some(is_uncompressed), ..with_len };
                        assert(header.is_last == Some(false));
                        assert(header_wf(full));
                    },
                }
            }
        },
    }
}

/// Reads the header of a meta-block.
pub fn parse_meta_block_header(stream: &mut BitStream) -> (r: Result<MetaBlockHeader, DecompressorError>)
    requires
        old(stream).wf(),
    ensures
        final(stream).same_input(old(stream)),
        final(stream).pos() >= old(stream).pos(),
        took(r, final(stream).pos(), take_meta_block_header(old(stream).bytes(), old(stream).pos())),
        r matches Ok(header) ==> header_wf(header) && final(stream).pos() > old(stream).pos(),
{
    reveal(take_meta_block_header);
    proof {
        lemma_header_wf(stream.bytes(), stream.pos());
    }
    let mut header = MetaBlockHeader::new();
    let is_last = match parse_is_last(stream) {
        Ok(v) => v,
        Err(e) => {
            return Err(e);
        },
    };
    header.is_last = Some(is_last);
    if is_last {
        let is_last_empty = match parse_is_last_empty(stream) {
            Ok(v) => v,
            Err(e) => {
                return Err(e);
            },
        };
        header.is_last_empty = Some(is_last_empty);
        if is_last_empty {
            return Ok(header);
        }
    }
    parse_sized_header(stream, header)
}

} // verus!
