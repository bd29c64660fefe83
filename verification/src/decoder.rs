//! The decoder: a compressed stream goes in, and the bytes that it stands
//! for come out, meta-block by meta-block.

use vstd::prelude::*;
use crate::bits::{BitStream, fill_len, stream_len, stream_uint};
use crate::codes::{parse_wbits, take_wbits, window_size_of, lemma_wbits_range};
use crate::command::{MAX_WINDOW, ring_wf};
use crate::dictionary::{Dictionary, Transform};
use crate::error::DecompressorError;
use crate::header::{Header, window_size};
use crate::literals::{extends, tail};
use crate::metablock::{
    block_length, decode_meta_block, take_meta_block, lemma_meta_block_extends,
    lemma_meta_block_within,
};
use crate::tables::Constants;
use crate::window::{DistanceRing, WindowBuffer, initial_ring};

verus! {

/// What a stream comes to: the bytes of the meta-blocks that could be
/// decoded, and the error that ended the decoding, if one did.
pub struct Outcome {
    pub output: Seq<u8>,
    pub error: Option<DecompressorError>,
}

/// What the end of the stream gives behind the last meta-block: the bits
/// up to the next byte boundary are zero, and no byte follows.
pub open spec fn take_trailer(bytes: Seq<u8>, pos: nat) -> Option<DecompressorError> {
    if stream_uint(bytes, pos as int, fill_len(pos)) != 0 {
        Some(DecompressorError::NonZeroTrailer)
    } else if pos + fill_len(pos) < stream_len(bytes) {
        Some(DecompressorError::UnexpectedExtraInput)
    } else {
        None
    }
}

/// What the meta-blocks from `pos` on come to: meta-block follows
/// meta-block up to the last one, behind which the stream ends. The first
/// error ends the decoding; the meta-block in which it lies gives no
/// bytes.
pub open spec fn take_meta_blocks(window_size: nat, words: Seq<u8>, transforms: Seq<Transform>, bytes: Seq<u8>, pos: nat, output: Seq<u8>, ring: DistanceRing) -> Outcome
    decreases stream_len(bytes) - pos,
{
    match take_meta_block(window_size, words, transforms, bytes, pos, output, ring) {
        Err(e) => Outcome { output, error: Some(e) },
        Ok(block) => if block.last {
            Outcome { output: block.output, error: take_trailer(bytes, block.pos) }
        } else {
            proof {
                lemma_meta_block_within(window_size, words, transforms, bytes, pos, output, ring);
            }
            take_meta_blocks(window_size, words, transforms, bytes, block.pos, block.output, block.ring)
        },
    }
}

/// What the stream that starts at bit `pos` of `bytes` comes to: the
/// stream header gives the window size, and the meta-blocks follow, with
/// no output yet and the ring as it is at the start.
pub open spec fn decoded(words: Seq<u8>, transforms: Seq<Transform>, bytes: Seq<u8>, pos: nat) -> Outcome {
    match take_wbits(bytes, pos) {
        Err(e) => Outcome { output: Seq::empty(), error: Some(e) },
        Ok((wbits, next)) => take_meta_blocks(
            window_size_of(wbits),
            words,
            transforms,
            bytes,
            next,
            Seq::empty(),
            initial_ring(),
        ),
    }
}

/// What `header` holds was read from the stream that starts at `start`.
pub open spec fn header_read(header: Header, bytes: Seq<u8>, start: nat) -> bool {
    match header.wbits {
        None => header.window_size is None,
        Some(wbits) => {
            &&& take_wbits(bytes, start) matches Ok((read, next))
            &&& read == wbits
            &&& header.window_size matches Some(size)
            &&& size == window_size_of(wbits)
        },
    }
}

/// Where the decoder stands.
#[derive(Debug, Clone, Copy, PartialEq, Eq, Structural)]
pub enum State {
    /// Nothing was read yet.
    StreamBegin,
    /// The stream header was read, and a meta-block comes next.
    MetaBlockBegin,
    /// The stream has ended as it should.
    StreamEnd,
    /// An error has ended the decoding.
    Failed(DecompressorError),
}

/// A decoder over a compressed stream.
pub struct Decompressor {
    in_stream: BitStream,
    header: Header,
    buf: Vec<u8>,
    taken: usize,
    output_window: WindowBuffer,
    ring: DistanceRing,
    state: State,
    constants: Constants,
    dictionary: Dictionary,
    start: Ghost<nat>,
    done: Ghost<Seq<u8>>,
}

impl Decompressor {
    /// The bytes of the compressed stream.
    pub closed spec fn input(&self) -> Seq<u8> {
        self.in_stream.bytes()
    }

    /// The bit at which the stream started.
    pub closed spec fn start(&self) -> nat {
        self.start@
    }

    /// The number of bits that were read.
    pub closed spec fn position(&self) -> nat {
        self.in_stream.pos()
    }

    /// The words of the dictionary.
    pub closed spec fn words(&self) -> Seq<u8> {
        self.dictionary.words()
    }

    /// The transforms of the dictionary.
    pub closed spec fn transforms(&self) -> Seq<Transform> {
        self.dictionary.transforms()
    }

    /// What the whole stream comes to.
    pub open spec fn total(&self) -> Outcome {
        decoded(self.words(), self.transforms(), self.input(), self.start())
    }

    /// The decoded bytes that wait to be handed out.
    pub closed spec fn pending(&self) -> Seq<u8> {
        self.buf@.subrange(self.taken as int, self.buf@.len() as int)
    }

    /// The number of bytes that were handed out.
    pub closed spec fn delivered(&self) -> nat {
        (self.done@.len() - (self.buf@.len() - self.taken)) as nat
    }

    /// The decoder has gone to work: it has tried to read the stream
    /// header.
    pub closed spec fn begun(&self) -> bool {
        !(self.state is StreamBegin)
    }

    /// The decoder has come to the end of the stream, or to the error in
    /// it.
    pub closed spec fn finished(&self) -> bool {
        self.state is StreamEnd || self.state is Failed
    }

    /// What the decoder will have given when it is done, seen from where
    /// it stands.
    #[verifier::opaque]
    pub closed spec fn ahead(&self) -> Outcome {
        match self.state {
            State::StreamBegin => decoded(
                self.dictionary.words(),
                self.dictionary.transforms(),
                self.in_stream.bytes(),
                self.in_stream.pos(),
            ),
            State::MetaBlockBegin => take_meta_blocks(
                self.output_window.size(),
                self.dictionary.words(),
                self.dictionary.transforms(),
                self.in_stream.bytes(),
                self.in_stream.pos(),
                self.output_window.output(),
                self.ring,
            ),
            State::StreamEnd => Outcome { output: self.done@, error: None },
            State::Failed(e) => Outcome { output: self.done@, error: Some(e) },
        }
    }

    /// The parts of the decoder fit together, and what it has done so far
    /// is the beginning of what the stream comes to.
    pub closed spec fn wf(&self) -> bool {
        &&& self.in_stream.wf()
        &&& self.constants.wf()
        &&& self.dictionary.wf()
        &&& self.output_window.wf()
        &&& self.output_window.size() <= MAX_WINDOW
        &&& ring_wf(self.ring)
        &&& self.taken <= self.buf@.len()
        &&& self.buf@.len() - self.taken <= self.done@.len()
        &&& self.pending() == tail(self.done@, self.delivered())
        &&& self.ahead() == self.total()
        &&& self.state is StreamBegin ==> self.done@.len() == 0 && self.in_stream.pos()
            == self.start@
        &&& self.state is MetaBlockBegin ==> self.done@ == self.output_window.output()
        &&& self.state is StreamEnd ==> self.in_stream.pos() == stream_len(self.in_stream.bytes())
        &&& header_read(self.header, self.in_stream.bytes(), self.start@)
        &&& self.header.wbits is Some <==> !(self.state is StreamBegin) && take_wbits(
            self.in_stream.bytes(),
            self.start@,
        ) is Ok
    }

    /// A decoder for the stream `in_stream`, from the place where it
    /// stands, with a dictionary that holds no word.
    pub fn new(in_stream: BitStream) -> (decoder: Decompressor)
        requires
            in_stream.wf(),
        ensures
            decoder.wf(),
            decoder.input() == in_stream.bytes(),
            decoder.start() == in_stream.pos(),
            decoder.words() == Seq::<u8>::empty(),
            decoder.transforms() == Seq::<Transform>::empty(),
            !decoder.begun(),
            decoder.delivered() == 0,
            decoder.pending() == Seq::<u8>::empty(),
    {
        Decompressor::with_dictionary(in_stream, Dictionary::new(Vec::new(), Vec::new()))
    }

    /// A decoder for the stream `in_stream`, from the place where it
    /// stands, with the dictionary `dictionary`.
    pub fn with_dictionary(in_stream: BitStream, dictionary: Dictionary) -> (decoder: Decompressor)
        requires
            in_stream.wf(),
            dictionary.wf(),
        ensures
            decoder.wf(),
            decoder.input() == in_stream.bytes(),
            decoder.start() == in_stream.pos(),
            decoder.words() == dictionary.words(),
            decoder.transforms() == dictionary.transforms(),
            !decoder.begun(),
            decoder.delivered() == 0,
            decoder.pending() == Seq::<u8>::empty(),
    {
        reveal(Decompressor::ahead);
        let ghost start = in_stream.pos();
        let decoder = Decompressor {
            in_stream,
            header: Header::new(),
            buf: Vec::new(),
            taken: 0,
            output_window: WindowBuffer::new(1),
            ring: DistanceRing::new(),
            state: State::StreamBegin,
            constants: Constants::new(),
            dictionary,
            start: Ghost(start),
            done: Ghost(Seq::empty()),
        };
        assert(decoder.pending() =~= Seq::<u8>::empty());
        assert(decoder.pending() =~= tail(decoder.done@, decoder.delivered()));
        decoder
    }

    /// What is known of the stream header: nothing before the decoder has
    /// gone to work, and nothing where the stream header cannot be read;
    /// otherwise the exponent of the window size that the stream header
    /// gives, and the window size that belongs to it.
    pub fn header(&self) -> (header: Header)
        requires
            self.wf(),
        ensures
            header_read(header, self.input(), self.start()),
            header.wbits is Some <==> self.begun() && take_wbits(self.input(), self.start()) is Ok,
    {
        self.header
    }

    /// The number of bits of the input that were read.
    pub fn bits_read(&self) -> (n: u64)
        requires
            self.wf(),
        ensures
            n == self.position(),
            n <= stream_len(self.input()),
    {
        self.in_stream.position()
    }

    /// Reads the stream header and makes the window.
    fn begin_stream(&mut self)
        requires
            old(self).wf(),
            old(self).state is StreamBegin,
        ensures
            final(self).wf(),
            final(self).input() == old(self).input(),
            final(self).start() == old(self).start(),
            final(self).words() == old(self).words(),
            final(self).transforms() == old(self).transforms(),
            final(self).delivered() == old(self).delivered(),
            final(self).pending() == old(self).pending(),
            !(final(self).state is StreamBegin),
    {
        reveal(Decompressor::ahead);
        proof {
            lemma_wbits_range(self.in_stream.bytes(), self.in_stream.pos());
        }
        match parse_wbits(&mut self.in_stream, &self.constants.wbits_codes) {
            Ok(wbits) => {
                let size = window_size(wbits);
                self.header.wbits = Some(wbits);
                self.header.window_size = Some(size);
                self.output_window = WindowBuffer::new(size);
                self.ring = DistanceRing::new();
                self.state = State::MetaBlockBegin;
                assert(self.done@ =~= self.output_window.output());
            },
            Err(e) => {
                self.state = State::Failed(e);
                assert(self.done@ =~= Seq::<u8>::empty());
            },
        }
    }

    /// Decodes the next meta-block; behind the last one, looks at the end
    /// of the stream.
    fn next_meta_block(&mut self)
        requires
            old(self).wf(),
            old(self).state is MetaBlockBegin,
            old(self).pending().len() == 0,
        ensures
            final(self).wf(),
            final(self).input() == old(self).input(),
            final(self).start() == old(self).start(),
            final(self).words() == old(self).words(),
            final(self).transforms() == old(self).transforms(),
            final(self).delivered() == old(self).delivered(),
            !(final(self).state is StreamBegin),
            final(self).state is MetaBlockBegin ==> final(self).position() > old(self).position(),
    {
        reveal(Decompressor::ahead);
        self.buf.clear();
        self.taken = 0;
        let ghost before = self.output_window.output();
        assert(tail(self.done@, self.delivered()) =~= Seq::<u8>::empty());
        match decode_meta_block(
            &mut self.in_stream,
            &mut self.output_window,
            &mut self.ring,
            &self.constants,
            &self.dictionary,
            &mut self.buf,
        ) {
            Ok(last) => {
                self.done = Ghost(self.output_window.output());
                assert(self.buf@ =~= tail(self.done@, before.len()));
                assert(self.pending() =~= self.buf@);
                if last {
                    if self.in_stream.read_u8_from_byte_tail() != 0 {
                        self.state = State::Failed(DecompressorError::NonZeroTrailer);
                    } else if self.in_stream.remaining() > 0 {
                        self.state = State::Failed(DecompressorError::UnexpectedExtraInput);
                    } else {
                        self.state = State::StreamEnd;
                    }
                }
            },
            Err(e) => {
                self.buf.clear();
                self.state = State::Failed(e);
                assert(self.pending() =~= tail(self.done@, self.delivered()));
            },
        }
    }

    /// Decodes until there are bytes to hand out, or until the stream has
    /// ended. The result is the number of bytes that wait; it is 0 only
    /// when the stream has ended as it should and every byte was handed
    /// out. An error is reported when every byte before it was handed out.
    pub fn decompress(&mut self) -> (r: Result<usize, DecompressorError>)
        requires
            old(self).wf(),
        ensures
            final(self).wf(),
            final(self).input() == old(self).input(),
            final(self).start() == old(self).start(),
            final(self).words() == old(self).words(),
            final(self).transforms() == old(self).transforms(),
            final(self).begun(),
            final(self).delivered() == old(self).delivered(),
            final(self).delivered() + final(self).pending().len() <= final(self).total().output.len(),
            final(self).pending() == final(self).total().output.subrange(
                final(self).delivered() as int,
                (final(self).delivered() + final(self).pending().len()) as int,
            ),
            match r {
                Ok(n) => {
                    &&& n == final(self).pending().len()
                    &&& n == 0 ==> {
                        &&& final(self).total().error is None
                        &&& final(self).delivered() == final(self).total().output.len()
                        &&& final(self).position() == stream_len(final(self).input())
                    }
                },
                Err(e) => {
                    &&& final(self).total().error == Some(e)
                    &&& final(self).delivered() == final(self).total().output.len()
                    &&& final(self).pending().len() == 0
                },
            },
    {
        loop
            invariant
                self.wf(),
                self.input() == old(self).input(),
                self.start() == old(self).start(),
                self.words() == old(self).words(),
                self.transforms() == old(self).transforms(),
                self.delivered() == old(self).delivered(),
            decreases
                    if self.state is StreamBegin {
                        2nat
                    } else if self.state is MetaBlockBegin {
                        1nat
                    } else {
                        0nat
                    },
                    stream_len(self.in_stream.bytes()) - self.in_stream.pos(),
        {
            proof {
                self.lemma_on_track();
            }
            if self.taken < self.buf.len() {
                return Ok(self.buf.len() - self.taken);
            }
            match self.state {
                State::StreamEnd => {
                    return Ok(0);
                },
                State::Failed(e) => {
                    return Err(e);
                },
                State::StreamBegin => {
                    self.begin_stream();
                },
                State::MetaBlockBegin => {
                    self.next_meta_block();
                },
            }
        }
    }

    /// Hands out the first `n` of the bytes that wait.
    fn take(&mut self, n: usize) -> (bytes: Vec<u8>)
        requires
            old(self).wf(),
            n <= old(self).pending().len(),
        ensures
            final(self).wf(),
            final(self).input() == old(self).input(),
            final(self).start() == old(self).start(),
            final(self).words() == old(self).words(),
            final(self).transforms() == old(self).transforms(),
            final(self).begun() == old(self).begun(),
            final(self).position() == old(self).position(),
            bytes@ == old(self).pending().subrange(0, n as int),
            final(self).pending() == old(self).pending().subrange(
                n as int,
                old(self).pending().len() as int,
            ),
            final(self).delivered() == old(self).delivered() + n,
    {
        let mut bytes: Vec<u8> = Vec::new();
        let size = self.buf.len();
        let from = self.taken;
        let to = from + n;
        let mut k: usize = from;
        assert(bytes@ =~= self.buf@.subrange(from as int, k as int));
        while k < to
            invariant
                from <= k <= to <= self.buf@.len(),
                bytes@ == self.buf@.subrange(from as int, k as int),
            decreases to - k,
        {
            bytes.push(self.buf[k]);
            k = k + 1;
            assert(bytes@ =~= self.buf@.subrange(from as int, k as int));
        }
        self.taken = to;
        proof {
            reveal(Decompressor::ahead);
            assert(bytes@ =~= old(self).pending().subrange(0, n as int));
            assert(self.pending() =~= old(self).pending().subrange(
                n as int,
                old(self).pending().len() as int,
            ));
            assert(self.pending() =~= tail(self.done@, self.delivered()));
        }
        bytes
    }

    /// Hands out all the bytes that wait.
    pub fn take_pending(&mut self) -> (bytes: Vec<u8>)
        requires
            old(self).wf(),
        ensures
            final(self).wf(),
            final(self).input() == old(self).input(),
            final(self).start() == old(self).start(),
            final(self).words() == old(self).words(),
            final(self).transforms() == old(self).transforms(),
            final(self).begun() == old(self).begun(),
            final(self).position() == old(self).position(),
            bytes@ == old(self).pending(),
            final(self).pending().len() == 0,
            final(self).delivered() == old(self).delivered() + bytes@.len(),
    {
        let n = self.buf.len() - self.taken;
        let bytes = self.take(n);
        assert(bytes@ =~= old(self).pending());
        bytes
    }

    /// Hands out the next bytes of the output into the beginning of
    /// `out`, at most as many as `out` holds, and says how many they are.
    /// The result is 0 only where `out` holds nothing, or where the stream
    /// has ended as it should and every byte was handed out. An error is
    /// reported when every byte before it was handed out.
    pub fn read(&mut self, out: &mut [u8]) -> (r: Result<usize, DecompressorError>)
        requires
            old(self).wf(),
        ensures
            final(self).wf(),
            final(self).input() == old(self).input(),
            final(self).start() == old(self).start(),
            final(self).words() == old(self).words(),
            final(self).begun(),
            final(self).transforms() == old(self).transforms(),
            match r {
                Ok(n) => {
                    &&& n <= old(out)@.len()
                    &&& old(self).delivered() + n <= final(self).total().output.len()
                    &&& final(out)@ == final(self).total().output.subrange(
                        old(self).delivered() as int,
                        old(self).delivered() + n,
                    ) + old(out)@.subrange(n as int, old(out)@.len() as int)
                    &&& final(self).delivered() == old(self).delivered() + n
                    &&& n == 0 ==> old(out)@.len() == 0 || {
                        &&& final(self).total().error is None
                        &&& old(self).delivered() == final(self).total().output.len()
                        &&& final(self).position() == stream_len(final(self).input())
                    }
                },
                Err(e) => {
                    &&& final(self).total().error == Some(e)
                    &&& old(self).delivered() == final(self).total().output.len()
                    &&& final(self).delivered() == old(self).delivered()
                    &&& final(out)@ == old(out)@
                },
            },
    {
        let available = match self.decompress() {
            Ok(n) => n,
            Err(e) => {
                return Err(e);
            },
        };
        let n = if available < out.len() {
            available
        } else {
            out.len()
        };
        let ghost first = self.delivered();
        let ghost total = self.total().output;
        let bytes = self.take(n);
        copy_into(out, &bytes);
        proof {
            assert(bytes@ =~= total.subrange(first as int, first + n));
        }
        Ok(n)
    }

    /// Hands out all that is left of the output, behind what `out` holds,
    /// and says how many bytes that were. Where an error ends the
    /// decoding, the bytes before it are handed out, and the error is the
    /// result.
    pub fn read_to_end(&mut self, out: &mut Vec<u8>) -> (r: Result<usize, DecompressorError>)
        requires
            old(self).wf(),
        ensures
            final(self).wf(),
            final(self).input() == old(self).input(),
            final(self).start() == old(self).start(),
            final(self).words() == old(self).words(),
            final(self).begun(),
            final(self).transforms() == old(self).transforms(),
            old(self).delivered() <= final(self).total().output.len(),
            final(self).delivered() == final(self).total().output.len(),
            final(out)@ == old(out)@ + tail(final(self).total().output, old(self).delivered()),
            match final(self).total().error {
                None => {
                    &&& r matches Ok(n)
                    &&& n == final(self).total().output.len() - old(self).delivered()
                    &&& final(self).position() == stream_len(final(self).input())
                },
                Some(e) => r matches Err(x) && x == e,
            },
    {
        let ghost total = self.total().output;
        let ghost first = self.delivered();
        let mut count: usize = 0;
        proof {
            self.lemma_on_track();
            assert(out@ =~= old(out)@ + total.subrange(first as int, first as int));
        }
        loop
            invariant
                self.wf(),
                self.input() == old(self).input(),
                self.start() == old(self).start(),
                self.words() == old(self).words(),
                self.transforms() == old(self).transforms(),
                self.total().output == total,
                first == old(self).delivered(),
                first <= self.delivered() <= total.len(),
                count == self.delivered() - first,
                count <= out@.len(),
                out@ == old(out)@ + total.subrange(first as int, self.delivered() as int),
            decreases total.len() - self.delivered(),
        {
            let n = match self.decompress() {
                Ok(n) => n,
                Err(e) => {
                    assert(total.subrange(first as int, self.delivered() as int) =~= tail(
                        total,
                        first,
                    ));
                    return Err(e);
                },
            };
            if n == 0 {
                assert(total.subrange(first as int, self.delivered() as int) =~= tail(total, first));
                return Ok(count);
            }
            let ghost was = self.delivered();
            let mut bytes = self.take_pending();
            out.append(&mut bytes);
            proof {
                lemma_subrange_join(total, first as int, was as int, self.delivered() as int);
            }
            let size = out.len();
            count = count + n;
        }
    }

    /// What waits to be handed out is a part of what the stream comes to,
    /// behind what was handed out.
    proof fn lemma_on_track(&self)
        requires
            self.wf(),
        ensures
            self.delivered() + self.pending().len() <= self.total().output.len(),
            self.pending() == self.total().output.subrange(
                self.delivered() as int,
                (self.delivered() + self.pending().len()) as int,
            ),
            self.finished() ==> self.delivered() + self.pending().len()
                == self.total().output.len(),
            self.state is StreamEnd ==> self.total().error is None && self.position() == stream_len(
                self.input(),
            ),
            self.state matches State::Failed(e) ==> self.total().error == Some(e),
    {
        self.lemma_done_is_prefix();
        assert(self.pending() =~= self.total().output.subrange(
            self.delivered() as int,
            (self.delivered() + self.pending().len()) as int,
        ));
    }

    /// What was decoded so far is the beginning of what the stream comes
    /// to.
    proof fn lemma_done_is_prefix(&self)
        requires
            self.wf(),
        ensures
            extends(self.total().output, self.done@),
            self.finished() ==> self.total().output == self.done@,
            self.state is StreamEnd ==> self.total().error is None && self.position() == stream_len(
                self.input(),
            ),
            self.state matches State::Failed(e) ==> self.total().error == Some(e),
    {
        reveal(Decompressor::ahead);
        match self.state {
            State::StreamBegin => {
                assert(self.total().output.subrange(0, 0) =~= self.done@);
            },
            State::MetaBlockBegin => {
                lemma_meta_blocks_extend(
                    self.output_window.size(),
                    self.dictionary.words(),
                    self.dictionary.transforms(),
                    self.in_stream.bytes(),
                    self.in_stream.pos(),
                    self.output_window.output(),
                    self.ring,
                );
            },
            State::StreamEnd => {
                assert(self.done@.subrange(0, self.done@.len() as int) =~= self.done@);
            },
            State::Failed(e) => {
                assert(self.done@.subrange(0, self.done@.len() as int) =~= self.done@);
            },
        }
    }
}

/// Copies `bytes` over the beginning of `out`.
fn copy_into(out: &mut [u8], bytes: &Vec<u8>)
    requires
        bytes@.len() <= old(out)@.len(),
    ensures
        final(out)@ == bytes@ + old(out)@.subrange(bytes@.len() as int, old(out)@.len() as int),
{
    let n = bytes.len();
    let mut k: usize = 0;
    assert(out@ =~= bytes@.subrange(0, 0) + old(out)@.subrange(0, old(out)@.len() as int));
    while k < n
        invariant
            k <= n,
            n == bytes@.len(),
            n <= out@.len(),
            out@.len() == old(out)@.len(),
            out@ == bytes@.subrange(0, k as int) + old(out)@.subrange(
                k as int,
                old(out)@.len() as int,
            ),
        decreases n - k,
    {
        out[k] = bytes[k];
        k = k + 1;
        assert(out@ =~= bytes@.subrange(0, k as int) + old(out)@.subrange(
            k as int,
            old(out)@.len() as int,
        ));
    }
    assert(bytes@.subrange(0, n as int) =~= bytes@);
}

/// Two parts of a sequence that meet are one part.
proof fn lemma_subrange_join(s: Seq<u8>, a: int, b: int, c: int)
    requires
        0 <= a <= b <= c <= s.len(),
    ensures
        s.subrange(a, b) + s.subrange(b, c) == s.subrange(a, c),
{
    assert(s.subrange(a, b) + s.subrange(b, c) =~= s.subrange(a, c));
}

/// The sum of the lengths that the headers of the meta-blocks from `pos`
/// on give, as far as the meta-blocks can be decoded. A meta-block that is
/// skipped gives no length.
pub open spec fn total_length(window_size: nat, words: Seq<u8>, transforms: Seq<Transform>, bytes: Seq<u8>, pos: nat, output: Seq<u8>, ring: DistanceRing) -> nat
    decreases stream_len(bytes) - pos,
{
    match take_meta_block(window_size, words, transforms, bytes, pos, output, ring) {
        Err(e) => 0,
        Ok(block) => block_length(bytes, pos) + if !block.last {
            proof {
                lemma_meta_block_within(window_size, words, transforms, bytes, pos, output, ring);
            }
            total_length(window_size, words, transforms, bytes, block.pos, block.output, block.ring)
        } else {
            0
        },
    }
}

/// The meta-blocks add as many bytes to the output as their headers say:
/// the output grows by the sum of the MLEN of the meta-blocks that were
/// decoded.
pub proof fn lemma_total_length(window_size: nat, words: Seq<u8>, transforms: Seq<Transform>, bytes: Seq<u8>, pos: nat, output: Seq<u8>, ring: DistanceRing)
    ensures
        take_meta_blocks(window_size, words, transforms, bytes, pos, output, ring).output.len()
            == output.len() + total_length(window_size, words, transforms, bytes, pos, output, ring),
    decreases stream_len(bytes) - pos,
{
    match take_meta_block(window_size, words, transforms, bytes, pos, output, ring) {
        Err(e) => {},
        Ok(block) => {
            lemma_meta_block_extends(window_size, words, transforms, bytes, pos, output, ring);
            lemma_meta_block_within(window_size, words, transforms, bytes, pos, output, ring);
            if !block.last {
                lemma_total_length(
                    window_size,
                    words,
                    transforms,
                    bytes,
                    block.pos,
                    block.output,
                    block.ring,
                );
            }
        },
    }
}

/// The number of bytes that a whole stream gives is the sum of the MLEN
/// of its meta-blocks, as far as they can be decoded.
pub proof fn lemma_decoded_length(words: Seq<u8>, transforms: Seq<Transform>, bytes: Seq<u8>, pos: nat)
    ensures
        decoded(words, transforms, bytes, pos).output.len() == match take_wbits(bytes, pos) {
            Err(e) => 0,
            Ok((wbits, next)) => total_length(
                window_size_of(wbits),
                words,
                transforms,
                bytes,
                next,
                Seq::empty(),
                initial_ring(),
            ),
        },
{
    match take_wbits(bytes, pos) {
        Err(e) => {},
        Ok((wbits, next)) => {
            lemma_total_length(
                window_size_of(wbits),
                words,
                transforms,
                bytes,
                next,
                Seq::empty(),
                initial_ring(),
            );
        },
    }
}

/// A stream that ends as it should ends at a byte boundary, with no bit
/// set before the boundary and no byte behind it.
pub proof fn lemma_clean_trailer(bytes: Seq<u8>, pos: nat)
    requires
        pos <= stream_len(bytes),
        take_trailer(bytes, pos) is None,
    ensures
        stream_uint(bytes, pos as int, fill_len(pos)) == 0,
        pos + fill_len(pos) == stream_len(bytes),
        (pos + fill_len(pos)) % 8 == 0,
{
}

/// The meta-blocks add to the output and leave what it held.
pub proof fn lemma_meta_blocks_extend(window_size: nat, words: Seq<u8>, transforms: Seq<Transform>, bytes: Seq<u8>, pos: nat, output: Seq<u8>, ring: DistanceRing)
    ensures
        extends(
            take_meta_blocks(window_size, words, transforms, bytes, pos, output, ring).output,
            output,
        ),
    decreases stream_len(bytes) - pos,
{
    assert(output.subrange(0, output.len() as int) =~= output);
    match take_meta_block(window_size, words, transforms, bytes, pos, output, ring) {
        Err(e) => {},
        Ok(block) => {
            lemma_meta_block_extends(
                window_size,
                words,
                transforms,
                bytes,
                pos,
                output,
                ring,
            );
            lemma_meta_block_within(window_size, words, transforms, bytes, pos, output, ring);
            if !block.last {
                lemma_meta_blocks_extend(
                    window_size,
                    words,
                    transforms,
                    bytes,
                    block.pos,
                    block.output,
                    block.ring,
                );
                crate::literals::lemma_extends_trans(
                    output,
                    block.output,
                    take_meta_blocks(
                        window_size,
                        words,
                        transforms,
                        bytes,
                        block.pos,
                        block.output,
                        block.ring,
                    ).output,
                );
            }
        },
    }
}

} // verus!
