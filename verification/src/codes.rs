//! The two prefix codes that the format fixes once and for all: the one for
//! the window size and the one for counts from 1 to 256.
//!
//! Each code is a table of bit patterns. A pattern is written as the format
//! prints it: as a number whose lowest bit is the first bit in the stream.

use vstd::prelude::*;
use crate::bits::{BitStream, exp2, within, lemma_exp2_monotone, stream_len, stream_uint, take_bits, took, lemma_stream_uint_bound, lemma_exp2_values};
use crate::error::DecompressorError;

verus! {

/// One row of a code table: the `length` bits `bits` stand for `symbol`.
#[derive(Debug, Clone, Copy, PartialEq, Eq, Structural)]
pub struct CodeEntry {
    pub length: u8,
    pub bits: u8,
    pub symbol: u8,
}

/// The stream shows the pattern of `entry` at `pos`.
pub open spec fn entry_matches(entry: CodeEntry, bytes: Seq<u8>, pos: nat) -> bool {
    &&& pos + entry.length <= stream_len(bytes)
    &&& stream_uint(bytes, pos as int, entry.length as nat) == entry.bits
}

/// The first row from `from` on whose pattern the stream shows at `pos`.
pub open spec fn first_match(codes: Seq<CodeEntry>, bytes: Seq<u8>, pos: nat, from: nat) -> Option<nat>
    decreases codes.len() - from,
{
    if from >= codes.len() {
        None
    } else if entry_matches(codes[from as int], bytes, pos) {
        Some(from)
    } else {
        first_match(codes, bytes, pos, from + 1)
    }
}

/// One of the first `upto` rows is longer than the `left` bits that remain.
pub open spec fn any_longer(codes: Seq<CodeEntry>, left: nat, upto: nat) -> bool
    decreases upto,
{
    if upto == 0 {
        false
    } else {
        any_longer(codes, left, (upto - 1) as nat) || codes[upto - 1].length > left
    }
}

/// No pattern is longer than eight bits.
pub open spec fn codes_wf(codes: Seq<CodeEntry>) -> bool {
    forall|k: int| 0 <= k < codes.len() ==> (#[trigger] codes[k]).length <= 8
}

/// What reading one symbol of a fixed code at `pos` gives: the symbol of
/// the row that matches and the position behind its pattern. Where no row
/// matches, the input ended if some pattern is longer than what is left,
/// and otherwise the stream shows a pattern that the code keeps free.
pub open spec fn take_symbol(codes: Seq<CodeEntry>, bytes: Seq<u8>, pos: nat) -> Result<
    (u8, nat),
    DecompressorError,
> {
    match first_match(codes, bytes, pos, 0) {
        Some(k) => Ok((codes[k as int].symbol, (pos + codes[k as int].length) as nat)),
        None => if any_longer(codes, (stream_len(bytes) - pos) as nat, codes.len()) {
            Err(DecompressorError::UnexpectedEOF)
        } else {
            Err(DecompressorError::NonZeroReserved)
        },
    }
}

/// Reads one symbol of the fixed code `codes`.
pub fn lookup_symbol(stream: &mut BitStream, codes: &Vec<CodeEntry>) -> (r: Result<u8, DecompressorError>)
    requires
        old(stream).wf(),
        codes_wf(codes@),
    ensures
        final(stream).same_input(old(stream)),
        final(stream).pos() >= old(stream).pos(),
        took(r, final(stream).pos(), take_symbol(codes@, old(stream).bytes(), old(stream).pos())),
{
    let left: u64 = stream.remaining();
    let mut short: bool = false;
    let mut k: usize = 0;
    while k < codes.len()
        invariant
            stream.wf(),
            *stream == *old(stream),
            codes_wf(codes@),
            k <= codes.len(),
            left == stream_len(stream.bytes()) - stream.pos(),
            short == any_longer(codes@, left as nat, k as nat),
            first_match(codes@, stream.bytes(), stream.pos(), 0) == first_match(
                codes@,
                stream.bytes(),
                stream.pos(),
                k as nat,
            ),
        decreases codes.len() - k,
    {
        let entry = codes[k];
        if entry.length as u64 > left {
            short = true;
        } else {
            proof {
                lemma_stream_uint_bound(stream.bytes(), stream.pos() as int, entry.length as nat);
                lemma_exp2_monotone(entry.length as nat, 8);
                lemma_exp2_values();
            }
            match stream.peek_u32_from_n_bits(entry.length) {
                Ok(v) => {
                    if v == entry.bits as u32 {
                        let _ = stream.skip_bits(entry.length as u64);
                        return Ok(entry.symbol);
                    }
                },
                Err(_) => {},
            }
        }
        k = k + 1;
    }
    if short {
        Err(DecompressorError::UnexpectedEOF)
    } else {
        Err(DecompressorError::NonZeroReserved)
    }
}

/// The code for the window size: the symbol is the exponent, from 10 to 24.
/// The pattern `0010001` is kept free.
pub open spec fn wbits_codes() -> Seq<CodeEntry> {
    seq![
        CodeEntry { length: 7, bits: 0x21, symbol: 10 },
        CodeEntry { length: 7, bits: 0x31, symbol: 11 },
        CodeEntry { length: 7, bits: 0x41, symbol: 12 },
        CodeEntry { length: 7, bits: 0x51, symbol: 13 },
        CodeEntry { length: 7, bits: 0x61, symbol: 14 },
        CodeEntry { length: 7, bits: 0x71, symbol: 15 },
        CodeEntry { length: 1, bits: 0x00, symbol: 16 },
        CodeEntry { length: 7, bits: 0x01, symbol: 17 },
        CodeEntry { length: 4, bits: 0x03, symbol: 18 },
        CodeEntry { length: 4, bits: 0x05, symbol: 19 },
        CodeEntry { length: 4, bits: 0x07, symbol: 20 },
        CodeEntry { length: 4, bits: 0x09, symbol: 21 },
        CodeEntry { length: 4, bits: 0x0b, symbol: 22 },
        CodeEntry { length: 4, bits: 0x0d, symbol: 23 },
        CodeEntry { length: 4, bits: 0x0f, symbol: 24 },
    ]
}

/// Builds the code for the window size.
pub fn create_wbits_codes() -> (codes: Vec<CodeEntry>)
    ensures
        codes@ == wbits_codes(),
        codes_wf(codes@),
{
    let mut codes: Vec<CodeEntry> = Vec::new();
    codes.push(CodeEntry { length: 7, bits: 0x21, symbol: 10 });
    codes.push(CodeEntry { length: 7, bits: 0x31, symbol: 11 });
    codes.push(CodeEntry { length: 7, bits: 0x41, symbol: 12 });
    codes.push(CodeEntry { length: 7, bits: 0x51, symbol: 13 });
    codes.push(CodeEntry { length: 7, bits: 0x61, symbol: 14 });
    codes.push(CodeEntry { length: 7, bits: 0x71, symbol: 15 });
    codes.push(CodeEntry { length: 1, bits: 0x00, symbol: 16 });
    codes.push(CodeEntry { length: 7, bits: 0x01, symbol: 17 });
    codes.push(CodeEntry { length: 4, bits: 0x03, symbol: 18 });
    codes.push(CodeEntry { length: 4, bits: 0x05, symbol: 19 });
    codes.push(CodeEntry { length: 4, bits: 0x07, symbol: 20 });
    codes.push(CodeEntry { length: 4, bits: 0x09, symbol: 21 });
    codes.push(CodeEntry { length: 4, bits: 0x0b, symbol: 22 });
    codes.push(CodeEntry { length: 4, bits: 0x0d, symbol: 23 });
    codes.push(CodeEntry { length: 4, bits: 0x0f, symbol: 24 });
    assert(codes@ =~= wbits_codes());
    codes
}

/// The window size that belongs to an exponent.
pub open spec fn window_size_of(wbits: u8) -> nat {
    (exp2(wbits as nat) - 16) as nat
}

/// What the stream header gives: the exponent of the window size.
pub open spec fn take_wbits(bytes: Seq<u8>, pos: nat) -> Result<(u8, nat), DecompressorError> {
    take_symbol(wbits_codes(), bytes, pos)
}

/// Reads the exponent of the window size.
pub fn parse_wbits(stream: &mut BitStream, codes: &Vec<CodeEntry>) -> (r: Result<u8, DecompressorError>)
    requires
        old(stream).wf(),
        codes@ == wbits_codes(),
    ensures
        final(stream).same_input(old(stream)),
        final(stream).pos() >= old(stream).pos(),
        took(r, final(stream).pos(), take_wbits(old(stream).bytes(), old(stream).pos())),
        r matches Ok(wbits) ==> 10 <= wbits <= 24,
{
    proof {
        lemma_wbits_range(old(stream).bytes(), old(stream).pos());
    }
    lookup_symbol(stream, codes)
}

/// Every exponent that the code for the window size can give lies between
/// 10 and 24.
pub proof fn lemma_wbits_range(bytes: Seq<u8>, pos: nat)
    ensures
        codes_wf(wbits_codes()),
        take_wbits(bytes, pos) matches Ok((wbits, next)) ==> 10 <= wbits <= 24 && pos < next <= pos + 7,
{
    reveal_with_fuel(first_match, 16);
}

/// The code for a count from 1 to 256: the symbol is the least count of
/// its row, and `count_extra_bits` more bits are added to it.
pub open spec fn bltype_codes() -> Seq<CodeEntry> {
    seq![
        CodeEntry { length: 1, bits: 0x00, symbol: 1 },
        CodeEntry { length: 4, bits: 0x01, symbol: 2 },
        CodeEntry { length: 4, bits: 0x03, symbol: 3 },
        CodeEntry { length: 4, bits: 0x05, symbol: 5 },
        CodeEntry { length: 4, bits: 0x07, symbol: 9 },
        CodeEntry { length: 4, bits: 0x09, symbol: 17 },
        CodeEntry { length: 4, bits: 0x0b, symbol: 33 },
        CodeEntry { length: 4, bits: 0x0d, symbol: 65 },
        CodeEntry { length: 4, bits: 0x0f, symbol: 129 },
    ]
}

/// Builds the code for a count from 1 to 256.
pub fn create_block_type_codes() -> (codes: Vec<CodeEntry>)
    ensures
        codes@ == bltype_codes(),
        codes_wf(codes@),
{
    let mut codes: Vec<CodeEntry> = Vec::new();
    codes.push(CodeEntry { length: 1, bits: 0x00, symbol: 1 });
    codes.push(CodeEntry { length: 4, bits: 0x01, symbol: 2 });
    codes.push(CodeEntry { length: 4, bits: 0x03, symbol: 3 });
    codes.push(CodeEntry { length: 4, bits: 0x05, symbol: 5 });
    codes.push(CodeEntry { length: 4, bits: 0x07, symbol: 9 });
    codes.push(CodeEntry { length: 4, bits: 0x09, symbol: 17 });
    codes.push(CodeEntry { length: 4, bits: 0x0b, symbol: 33 });
    codes.push(CodeEntry { length: 4, bits: 0x0d, symbol: 65 });
    codes.push(CodeEntry { length: 4, bits: 0x0f, symbol: 129 });
    assert(codes@ =~= bltype_codes());
    codes
}

/// The number of bits that follow a symbol of the count code.
pub open spec fn count_extra_bits(symbol: u8) -> nat {
    if symbol == 3 {
        1
    } else if symbol == 5 {
        2
    } else if symbol == 9 {
        3
    } else if symbol == 17 {
        4
    } else if symbol == 33 {
        5
    } else if symbol == 65 {
        6
    } else if symbol == 129 {
        7
    } else {
        0
    }
}

/// What reading a count from 1 to 256 gives: the symbol plus the value of
/// its extra bits.
#[verifier::opaque]
pub open spec fn take_n_bltypes(bytes: Seq<u8>, pos: nat) -> Result<(u16, nat), DecompressorError> {
    match take_symbol(bltype_codes(), bytes, pos) {
        Err(e) => Err(e),
        Ok((symbol, after)) => match take_bits(bytes, after, count_extra_bits(symbol)) {
            Err(e) => Err(e),
            Ok((extra, next)) => Ok(((symbol + extra) as u16, next)),
        },
    }
}

/// A count that the count code gives lies between 1 and 256, and reading
/// it takes at least one bit.
pub proof fn lemma_n_bltypes_range(bytes: Seq<u8>, pos: nat)
    ensures
        codes_wf(bltype_codes()),
        take_n_bltypes(bytes, pos) matches Ok((n, next)) ==> 1 <= n <= 256 && pos < next,
{
    reveal(take_n_bltypes);
    reveal_with_fuel(first_match, 10);
    match take_symbol(bltype_codes(), bytes, pos) {
        Err(e) => {},
        Ok((symbol, after)) => {
            lemma_stream_uint_bound(bytes, after as int, count_extra_bits(symbol));
            lemma_exp2_values();
        },
    }
}

/// Reads a count from 1 to 256: the number of block types of a category,
/// or the number of prefix trees of literals or distances.
pub fn parse_n_bltypes(stream: &mut BitStream, codes: &Vec<CodeEntry>) -> (r: Result<u16, DecompressorError>)
    requires
        old(stream).wf(),
        codes@ == bltype_codes(),
    ensures
        final(stream).same_input(old(stream)),
        final(stream).pos() >= old(stream).pos(),
        took(r, final(stream).pos(), take_n_bltypes(old(stream).bytes(), old(stream).pos())),
        r matches Ok(n) ==> 1 <= n <= 256,
{
    reveal(take_n_bltypes);
    proof {
        lemma_n_bltypes_range(old(stream).bytes(), old(stream).pos());
    }
    let symbol = match lookup_symbol(stream, codes) {
        Ok(symbol) => symbol,
        Err(e) => {
            return Err(e);
        },
    };
    proof {
        reveal_with_fuel(first_match, 10);
        lemma_stream_uint_bound(stream.bytes(), stream.pos() as int, count_extra_bits(symbol));
        lemma_exp2_values();
    }
    let extra_bits: u8 = if symbol == 3 {
        1
    } else if symbol == 5 {
        2
    } else if symbol == 9 {
        3
    } else if symbol == 17 {
        4
    } else if symbol == 33 {
        5
    } else if symbol == 65 {
        6
    } else if symbol == 129 {
        7
    } else {
        0
    };
    match stream.read_u8_from_n_bits(extra_bits) {
        Ok(extra) => Ok(symbol as u16 + extra as u16),
        Err(e) => Err(e),
    }
}

/// The row that is found lies in the table, and the stream shows its
/// pattern.
pub proof fn lemma_first_match(codes: Seq<CodeEntry>, bytes: Seq<u8>, pos: nat, from: nat)
    ensures
        first_match(codes, bytes, pos, from) matches Some(k) ==> from <= k < codes.len()
            && entry_matches(codes[k as int], bytes, pos),
    decreases codes.len() - from,
{
    if from < codes.len() && !entry_matches(codes[from as int], bytes, pos) {
        lemma_first_match(codes, bytes, pos, from + 1);
    }
}

/// A symbol of a fixed code that was read lies within the stream.
pub proof fn lemma_symbol_within(codes: Seq<CodeEntry>, bytes: Seq<u8>, pos: nat)
    ensures
        take_symbol(codes, bytes, pos) matches Ok((symbol, next)) ==> within(bytes, pos, next),
{
    lemma_first_match(codes, bytes, pos, 0);
}

/// A count that was read lies within the stream.
pub proof fn lemma_n_bltypes_within(bytes: Seq<u8>, pos: nat)
    ensures
        take_n_bltypes(bytes, pos) matches Ok((n, next)) ==> within(bytes, pos, next) && 1 <= n
            <= 256,
{
    reveal(take_n_bltypes);
    lemma_symbol_within(bltype_codes(), bytes, pos);
    lemma_n_bltypes_range(bytes, pos);
}

} // verus!
