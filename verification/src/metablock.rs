//! One meta-block: its header, and then bytes to skip, bytes as they are,
//! or the tables and the commands of a compressed meta-block.

use vstd::prelude::*;
use crate::bits::{BitStream, fill_len, stream_len, stream_uint, take_bytes, lemma_fill_within};
use crate::command::{MAX_WINDOW, ring_wf};
use crate::commands::{Env, Machine, env_of, machine_of, read_commands, take_commands};
use crate::dictionary::{Dictionary, Transform};
use crate::error::DecompressorError;
use crate::header::{MetaBlockHeader, header_wf, parse_meta_block_header, take_meta_block_header};
use crate::literals::{extends, tail, lemma_sink_start};
use crate::tables::{Constants, parse_codes, take_codes, lemma_codes_within};
use crate::window::{DistanceRing, WindowBuffer};

verus! {

/// What taking the fill bits at `pos` gives: the bits up to the next byte
/// boundary are zero, and the result is the boundary.
pub open spec fn take_fill(bytes: Seq<u8>, pos: nat) -> Result<nat, DecompressorError> {
    if stream_uint(bytes, pos as int, fill_len(pos)) != 0 {
        Err(DecompressorError::NonZeroFill)
    } else {
        Ok(pos + fill_len(pos))
    }
}

/// Takes the fill bits.
pub fn read_fill(stream: &mut BitStream) -> (r: Result<(), DecompressorError>)
    requires
        old(stream).wf(),
    ensures
        final(stream).same_input(old(stream)),
        final(stream).pos() >= old(stream).pos(),
        match take_fill(old(stream).bytes(), old(stream).pos()) {
            Err(e) => r matches Err(x) && x == e,
            Ok(next) => r is Ok && final(stream).pos() == next,
        },
{
    if stream.read_u8_from_byte_tail() != 0 {
        Err(DecompressorError::NonZeroFill)
    } else {
        Ok(())
    }
}

/// What skipping gives in a meta-block that stands for no bytes: the fill
/// bits are taken, and then as many bytes as the header says are passed
/// over.
#[verifier::opaque]
pub open spec fn take_skipped(bytes: Seq<u8>, pos: nat, header: MetaBlockHeader) -> Result<
    nat,
    DecompressorError,
> {
    match take_fill(bytes, pos) {
        Err(e) => Err(e),
        Ok(p1) => match header.m_skip_len {
            None => Ok(p1),
            Some(n) => if p1 + 8 * n <= stream_len(bytes) {
                Ok(p1 + 8 * n as nat)
            } else {
                Err(DecompressorError::UnexpectedEOF)
            },
        },
    }
}

/// Passes over the bytes of a meta-block that stands for none.
pub fn skip_meta_block(stream: &mut BitStream, header: &MetaBlockHeader) -> (r: Result<(), DecompressorError>)
    requires
        old(stream).wf(),
        header_wf(*header),
    ensures
        final(stream).same_input(old(stream)),
        final(stream).pos() >= old(stream).pos(),
        match take_skipped(old(stream).bytes(), old(stream).pos(), *header) {
            Err(e) => r matches Err(x) && x == e,
            Ok(next) => r is Ok && final(stream).pos() == next,
        },
{
    reveal(take_skipped);
    match read_fill(stream) {
        Ok(()) => {},
        Err(e) => {
            return Err(e);
        },
    }
    match header.m_skip_len {
        None => Ok(()),
        Some(n) => stream.skip_bits(8 * n as u64),
    }
}

/// What the bytes of an uncompressed meta-block give: the fill bits are
/// taken, and `m_len` bytes follow as they are.
#[verifier::opaque]
pub open spec fn take_uncompressed(bytes: Seq<u8>, pos: nat, m_len: u32) -> Result<
    (Seq<u8>, nat),
    DecompressorError,
> {
    match take_fill(bytes, pos) {
        Err(e) => Err(e),
        Ok(p1) => take_bytes(bytes, p1, m_len as nat),
    }
}

/// Reads the bytes of an uncompressed meta-block.
pub fn parse_mlen_literals(stream: &mut BitStream, m_len: u32) -> (r: Result<Vec<u8>, DecompressorError>)
    requires
        old(stream).wf(),
    ensures
        final(stream).same_input(old(stream)),
        final(stream).pos() >= old(stream).pos(),
        crate::bits::took_bytes(
            r,
            final(stream).pos(),
            take_uncompressed(old(stream).bytes(), old(stream).pos(), m_len),
        ),
{
    reveal(take_uncompressed);
    match read_fill(stream) {
        Ok(()) => {},
        Err(e) => {
            return Err(e);
        },
    }
    stream.read_fixed_length_string(m_len as usize)
}

/// Emits the bytes of an uncompressed meta-block.
pub fn emit_literals(window: &mut WindowBuffer, sink: &mut Vec<u8>, literals: &Vec<u8>)
    requires
        old(window).wf(),
    ensures
        final(window).wf(),
        final(window).size() == old(window).size(),
        final(window).output() == old(window).output() + literals@,
        final(sink)@ == old(sink)@ + literals@,
{
    let n = literals.len();
    let mut k: usize = 0;
    assert(window.output() =~= old(window).output() + literals@.subrange(0, 0));
    assert(sink@ =~= old(sink)@ + literals@.subrange(0, 0));
    while k < n
        invariant
            k <= n,
            n == literals@.len(),
            window.wf(),
            window.size() == old(window).size(),
            window.output() == old(window).output() + literals@.subrange(0, k as int),
            sink@ == old(sink)@ + literals@.subrange(0, k as int),
        decreases n - k,
    {
        window.emit(literals[k], sink);
        k = k + 1;
        assert(window.output() =~= old(window).output() + literals@.subrange(0, k as int));
        assert(sink@ =~= old(sink)@ + literals@.subrange(0, k as int));
    }
    assert(literals@.subrange(0, n as int) =~= literals@);
}

/// What a compressed meta-block gives: its tables are read, and its
/// commands run until the output has the length `env.end`.
#[verifier::opaque]
pub open spec fn take_compressed(env: Env, bytes: Seq<u8>, pos: nat, output: Seq<u8>, ring: DistanceRing) -> Result<
    Machine,
    DecompressorError,
> {
    match take_codes(bytes, pos) {
        Err(e) => Err(e),
        Ok(((codes, states), p1)) => take_commands(
            env,
            codes,
            bytes,
            Machine { pos: p1, output, ring, blocks: states },
        ),
    }
}

/// Decodes a compressed meta-block of `m_len` bytes.
pub fn read_compressed(stream: &mut BitStream, window: &mut WindowBuffer, ring: &mut DistanceRing, constants: &Constants, dictionary: &Dictionary, sink: &mut Vec<u8>, m_len: u32) -> (r: Result<
    (),
    DecompressorError,
>)
    requires
        old(stream).wf(),
        old(window).wf(),
        old(window).size() <= MAX_WINDOW,
        ring_wf(*old(ring)),
        constants.wf(),
        dictionary.wf(),
    ensures
        final(stream).same_input(old(stream)),
        final(stream).pos() >= old(stream).pos(),
        final(window).wf(),
        final(window).size() == old(window).size(),
        ring_wf(*final(ring)),
        extends(final(sink)@, old(sink)@),
        match take_compressed(
            env_of(old(window), dictionary, m_len),
            old(stream).bytes(),
            old(stream).pos(),
            old(window).output(),
            *old(ring),
        ) {
            Err(e) => r matches Err(x) && x == e,
            Ok(after) => {
                &&& r is Ok
                &&& final(stream).pos() == after.pos
                &&& final(window).output() == after.output
                &&& *final(ring) == after.ring
                &&& after.output.len() == old(window).count_output() + m_len
                &&& extends(after.output, old(window).output())
                &&& final(sink)@ == old(sink)@ + tail(after.output, old(window).count_output())
            },
        },
{
    reveal(take_compressed);
    proof {
        lemma_sink_start(sink@, window.output());
    }
    let (mut blocks, tables) = match parse_codes(stream, constants) {
        Ok(found) => found,
        Err(e) => {
            return Err(e);
        },
    };
    read_commands(stream, window, ring, &mut blocks, &tables, constants, dictionary, sink, m_len)
}

/// What a meta-block leaves behind.
pub struct BlockResult {
    /// No meta-block follows.
    pub last: bool,
    /// The place in the stream behind the meta-block.
    pub pos: nat,
    /// The output with the bytes of the meta-block.
    pub output: Seq<u8>,
    /// The ring of distances.
    pub ring: DistanceRing,
}

/// What one meta-block gives. After its header, a meta-block that ends
/// the stream gives nothing; one that is skipped passes over its bytes;
/// an uncompressed one adds its bytes to the output as they are; and a
/// compressed one adds the MLEN bytes that its commands make.
#[verifier::opaque]
pub open spec fn take_meta_block(window_size: nat, words: Seq<u8>, transforms: Seq<Transform>, bytes: Seq<u8>, pos: nat, output: Seq<u8>, ring: DistanceRing) -> Result<
    BlockResult,
    DecompressorError,
> {
    match take_meta_block_header(bytes, pos) {
        Err(e) => Err(e),
        Ok((header, p1)) => {
            let last = header.is_last == Some(true);
            if header.ends_stream() {
                Ok(BlockResult { last: true, pos: p1, output, ring })
            } else if header.is_skip() {
                match take_skipped(bytes, p1, header) {
                    Err(e) => Err(e),
                    Ok(p2) => Ok(BlockResult { last, pos: p2, output, ring }),
                }
            } else if header.is_uncompressed == Some(true) {
                match take_uncompressed(bytes, p1, header.m_len->Some_0) {
                    Err(e) => Err(e),
                    Ok((literals, p2)) => Ok(
                        BlockResult { last, pos: p2, output: output + literals, ring },
                    ),
                }
            } else {
                match take_compressed(
                    Env {
                        window_size,
                        words,
                        transforms,
                        end: output.len() + header.m_len->Some_0 as nat,
                    },
                    bytes,
                    p1,
                    output,
                    ring,
                ) {
                    Err(e) => Err(e),
                    Ok(m) => Ok(BlockResult { last, pos: m.pos, output: m.output, ring: m.ring }),
                }
            }
        },
    }
}

/// Decodes one meta-block and says whether it was the last one.
pub fn decode_meta_block(stream: &mut BitStream, window: &mut WindowBuffer, ring: &mut DistanceRing, constants: &Constants, dictionary: &Dictionary, sink: &mut Vec<u8>) -> (r: Result<
    bool,
    DecompressorError,
>)
    requires
        old(stream).wf(),
        old(window).wf(),
        old(window).size() <= MAX_WINDOW,
        ring_wf(*old(ring)),
        constants.wf(),
        dictionary.wf(),
    ensures
        final(stream).same_input(old(stream)),
        final(stream).pos() >= old(stream).pos(),
        final(window).wf(),
        final(window).size() == old(window).size(),
        ring_wf(*final(ring)),
        extends(final(sink)@, old(sink)@),
        match take_meta_block(
            old(window).size(),
            dictionary.words(),
            dictionary.transforms(),
            old(stream).bytes(),
            old(stream).pos(),
            old(window).output(),
            *old(ring),
        ) {
            Err(e) => r matches Err(x) && x == e,
            Ok(block) => {
                &&& r == Ok::<bool, DecompressorError>(block.last)
                &&& final(stream).pos() == block.pos
                &&& final(stream).pos() > old(stream).pos()
                &&& final(window).output() == block.output
                &&& *final(ring) == block.ring
                &&& extends(block.output, old(window).output())
                &&& final(sink)@ == old(sink)@ + tail(block.output, old(window).count_output())
            },
        },
{
    reveal(take_meta_block);
    proof {
        lemma_sink_start(sink@, window.output());
    }
    let header = match parse_meta_block_header(stream) {
        Ok(header) => header,
        Err(e) => {
            return Err(e);
        },
    };
    let last = match header.is_last {
        Some(last) => last,
        None => false,
    };
    let m_len = match header.m_len {
        None => {
            if header.m_nibbles.is_some() {
                match skip_meta_block(stream, &header) {
                    Ok(()) => {},
                    Err(e) => {
                        return Err(e);
                    },
                }
            }
            return Ok(last);
        },
        Some(m_len) => m_len,
    };
    let uncompressed = match header.is_uncompressed {
        Some(uncompressed) => uncompressed,
        None => false,
    };
    if uncompressed {
        let literals = match parse_mlen_literals(stream, m_len) {
            Ok(literals) => literals,
            Err(e) => {
                return Err(e);
            },
        };
        emit_literals(window, sink, &literals);
        proof {
            assert(window.output().subrange(0, old(window).output().len() as int)
                =~= old(window).output());
            assert(tail(window.output(), old(window).count_output()) =~= literals@);
            assert(sink@.subrange(0, old(sink)@.len() as int) =~= old(sink)@);
        }
        return Ok(last);
    }
    assert(env_of(window, dictionary, m_len) == Env {
        window_size: old(window).size(),
        words: dictionary.words(),
        transforms: dictionary.transforms(),
        end: old(window).output().len() + m_len as nat,
    });
    match read_compressed(stream, window, ring, constants, dictionary, sink, m_len) {
        Ok(()) => Ok(last),
        Err(e) => Err(e),
    }
}

/// The number of bytes that the meta-block at `pos` stands for: MLEN, or
/// none for a meta-block that is skipped or that only ends the stream.
pub open spec fn block_length(bytes: Seq<u8>, pos: nat) -> nat {
    match take_meta_block_header(bytes, pos) {
        Err(e) => 0,
        Ok((header, next)) => match header.m_len {
            None => 0,
            Some(m_len) => m_len as nat,
        },
    }
}

/// A meta-block adds exactly as many bytes to the output as its header
/// says, and leaves what the output held.
pub proof fn lemma_meta_block_extends(window_size: nat, words: Seq<u8>, transforms: Seq<Transform>, bytes: Seq<u8>, pos: nat, output: Seq<u8>, ring: DistanceRing)
    ensures
        take_meta_block(window_size, words, transforms, bytes, pos, output, ring) matches Ok(block)
            ==> extends(block.output, output) && block.output.len() == output.len() + block_length(
            bytes,
            pos,
        ),
{
    reveal(take_skipped);
    reveal(take_uncompressed);
    reveal(take_compressed);
    reveal(take_meta_block);
    assert(output.subrange(0, output.len() as int) =~= output);
    match take_meta_block_header(bytes, pos) {
        Err(e) => {},
        Ok((header, p1)) => {
            crate::header::lemma_header_wf(bytes, pos);
            if header.ends_stream() {
            } else if header.is_skip() {
            } else if header.is_uncompressed == Some(true) {
                match take_uncompressed(bytes, p1, header.m_len->Some_0) {
                    Err(e) => {},
                    Ok((literals, p2)) => {
                        assert((output + literals).subrange(0, output.len() as int) =~= output);
                    },
                }
            } else {
                let env = Env {
                    window_size,
                    words,
                    transforms,
                    end: output.len() + header.m_len->Some_0 as nat,
                };
                match take_codes(bytes, p1) {
                    Err(e) => {},
                    Ok(((codes, states), p2)) => {
                        let m = Machine { pos: p2, output, ring, blocks: states };
                        crate::commands::lemma_commands_fill(env, codes, bytes, m);
                        crate::commands::lemma_commands_extend(env, codes, bytes, m);
                    },
                }
            }
        },
    }
}

/// A meta-block takes at least one bit and ends within the stream.
pub proof fn lemma_meta_block_within(window_size: nat, words: Seq<u8>, transforms: Seq<Transform>, bytes: Seq<u8>, pos: nat, output: Seq<u8>, ring: DistanceRing)
    ensures
        take_meta_block(window_size, words, transforms, bytes, pos, output, ring) matches Ok(block)
            ==> pos < block.pos <= stream_len(bytes),
{
    reveal(take_skipped);
    reveal(take_uncompressed);
    reveal(take_compressed);
    reveal(take_meta_block);
    crate::header::lemma_header_wf(bytes, pos);
    match take_meta_block_header(bytes, pos) {
        Err(e) => {},
        Ok((header, p1)) => {
            lemma_fill_within(bytes, p1);
            if header.ends_stream() {
            } else if header.is_skip() {
            } else if header.is_uncompressed == Some(true) {
            } else {
                let env = Env {
                    window_size,
                    words,
                    transforms,
                    end: output.len() + header.m_len->Some_0 as nat,
                };
                lemma_codes_within(bytes, p1);
                match take_codes(bytes, p1) {
                    Err(e) => {},
                    Ok(((codes, states), p2)) => {
                        let m = Machine { pos: p2, output, ring, blocks: states };
                        crate::commands::lemma_commands_fill(env, codes, bytes, m);
                    },
                }
            }
        },
    }
}

} // verus!
