//! The ways in which a stream can be rejected.

use vstd::prelude::*;

verus! {

/// Why decoding stopped. Every error ends the stream: nothing is recovered
/// from, and bytes that were handed out before stay handed out.
#[derive(Debug, Clone, Copy, PartialEq, Eq, Structural)]
pub enum DecompressorError {
    /// The input ended in the middle of a field.
    UnexpectedEOF,
    /// A fill bit before a byte boundary was set.
    NonZeroFill,
    /// A reserved bit or a reserved code was used.
    NonZeroReserved,
    /// A bit after the last meta-block, before the byte boundary, was set.
    NonZeroTrailer,
    /// The most significant byte of a skip length was zero.
    InvalidMSkipLen,
    /// The most significant nibble of a meta-block length was zero.
    InvalidMLenNibble,
    /// A prefix code that is not complete, names a symbol twice or outside
    /// its alphabet, or a run that leaves its table; also a command that
    /// inserts more than the meta-block has left.
    MalformedCode,
    /// A block type outside the announced number of types.
    InvalidBlockSwitch,
    /// A distance that reaches neither the window nor the dictionary, or a
    /// copy that is longer than what the meta-block has left.
    InvalidDistance,
    /// A dictionary reference whose word length, index or transform does
    /// not exist.
    InvalidDictionaryRef,
    /// Bytes follow the end of the stream.
    UnexpectedExtraInput,
}

impl DecompressorError {
    /// The message that belongs to each error.
    pub open spec fn message(self) -> Seq<char> {
        match self {
            DecompressorError::UnexpectedEOF => "Encountered unexpected EOF"@,
            DecompressorError::NonZeroFill => "Encountered non-zero fill bit"@,
            DecompressorError::NonZeroReserved => "Encountered non-zero reserved bit"@,
            DecompressorError::NonZeroTrailer => "Encountered non-zero bit trailing the stream"@,
            DecompressorError::InvalidMSkipLen => "Most significant byte of MSKIPLEN was zero"@,
            DecompressorError::InvalidMLenNibble => "Most significant nibble of MLEN was zero"@,
            DecompressorError::MalformedCode => "Malformed prefix code"@,
            DecompressorError::InvalidBlockSwitch => "Block type out of range"@,
            DecompressorError::InvalidDistance => "Distance cannot be resolved"@,
            DecompressorError::InvalidDictionaryRef => "Dictionary reference out of range"@,
            DecompressorError::UnexpectedExtraInput => "Expected end-of-stream, but stream did not end"@,
        }
    }

    /// A short text for the error.
    pub fn description(&self) -> (text: &'static str)
        ensures
            text@ == self.message(),
    {
        match self {
            DecompressorError::UnexpectedEOF => "Encountered unexpected EOF",
            DecompressorError::NonZeroFill => "Encountered non-zero fill bit",
            DecompressorError::NonZeroReserved => "Encountered non-zero reserved bit",
            DecompressorError::NonZeroTrailer => "Encountered non-zero bit trailing the stream",
            DecompressorError::InvalidMSkipLen => "Most significant byte of MSKIPLEN was zero",
            DecompressorError::InvalidMLenNibble => "Most significant nibble of MLEN was zero",
            DecompressorError::MalformedCode => "Malformed prefix code",
            DecompressorError::InvalidBlockSwitch => "Block type out of range",
            DecompressorError::InvalidDistance => "Distance cannot be resolved",
            DecompressorError::InvalidDictionaryRef => "Dictionary reference out of range",
            DecompressorError::UnexpectedExtraInput => "Expected end-of-stream, but stream did not end",
        }
    }
}

} // verus!
