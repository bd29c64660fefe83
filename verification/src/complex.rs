//! The complex kind of description of a prefix code: the code lengths of
//! the symbols, themselves written with a prefix code and with run lengths.

use vstd::prelude::*;
use crate::bits::{
    BitStream, exp2, stream_len, take_bits, took, within, lemma_stream_uint_bound, lemma_exp2_values,
    lemma_exp2_table, lemma_exp2_monotone,
};
use crate::codes::{
    CodeEntry, codes_wf, lookup_symbol, take_symbol, first_match, lemma_symbol_within,
};
use crate::error::DecompressorError;
use crate::prefix::{
    PrefixTree, TreeModel, lengths_wf, model_below, take_prefix_symbol, lemma_exp2_14,
    lemma_prefix_symbol_pos,
};
use crate::simple::{
    PrefixCode, PrefixCodeKind, parse_prefix_code_kind, parse_simple_code, create_simple_tree,
    take_prefix_code_kind, take_simple_code, simple_tree, lemma_simple_code_within,
};

verus! {

/// The fixed code in which the lengths of the code length code are
/// written: the symbol is a length from 0 to 5.
pub open spec fn code_length_codes() -> Seq<CodeEntry> {
    seq![
        CodeEntry { length: 2, bits: 0x0, symbol: 0 },
        CodeEntry { length: 4, bits: 0x7, symbol: 1 },
        CodeEntry { length: 3, bits: 0x3, symbol: 2 },
        CodeEntry { length: 2, bits: 0x2, symbol: 3 },
        CodeEntry { length: 2, bits: 0x1, symbol: 4 },
        CodeEntry { length: 4, bits: 0xf, symbol: 5 },
    ]
}

/// Builds the fixed code for the lengths of the code length code.
pub fn create_code_length_codes() -> (codes: Vec<CodeEntry>)
    ensures
        codes@ == code_length_codes(),
        codes_wf(codes@),
{
    let mut codes: Vec<CodeEntry> = Vec::new();
    codes.push(CodeEntry { length: 2, bits: 0x0, symbol: 0 });
    codes.push(CodeEntry { length: 4, bits: 0x7, symbol: 1 });
    codes.push(CodeEntry { length: 3, bits: 0x3, symbol: 2 });
    codes.push(CodeEntry { length: 2, bits: 0x2, symbol: 3 });
    codes.push(CodeEntry { length: 2, bits: 0x1, symbol: 4 });
    codes.push(CodeEntry { length: 4, bits: 0xf, symbol: 5 });
    assert(codes@ =~= code_length_codes());
    codes
}

/// The order in which the lengths of the code length code stand in the
/// stream.
pub open spec fn code_length_order() -> Seq<u8> {
    seq![1u8, 2, 3, 4, 0, 5, 17, 6, 16, 7, 8, 9, 10, 11, 12, 13, 14, 15]
}

/// Builds the order of the lengths of the code length code.
pub fn create_code_length_order() -> (order: Vec<u8>)
    ensures
        order@ == code_length_order(),
{
    let mut order: Vec<u8> = Vec::new();
    order.push(1);
    order.push(2);
    order.push(3);
    order.push(4);
    order.push(0);
    order.push(5);
    order.push(17);
    order.push(6);
    order.push(16);
    order.push(7);
    order.push(8);
    order.push(9);
    order.push(10);
    order.push(11);
    order.push(12);
    order.push(13);
    order.push(14);
    order.push(15);
    assert(order@ =~= code_length_order());
    order
}

/// Two to the power of `k`.
pub fn power_of_two(k: u8) -> (p: u32)
    requires
        k <= 24,
    ensures
        p == exp2(k as nat),
        1 <= p <= 0x100_0000,
{
    let mut p: u32 = 1;
    let mut i: u8 = 0;
    while i < k
        invariant
            i <= k <= 24,
            p == exp2(i as nat),
            1 <= p <= 0x100_0000,
        decreases k - i,
    {
        proof {
            lemma_exp2_monotone((i + 1) as nat, 24);
            lemma_exp2_table();
        }
        p = p * 2;
        i = i + 1;
    }
    p
}

/// The lengths of the code length code while they are read.
pub struct CodeLengthCode {
    /// The length of the codeword of each of the 18 symbols.
    pub lengths: Seq<u8>,
    /// What is left of the 32 units of code space.
    pub space: int,
    /// The number of symbols with a codeword.
    pub count: nat,
    /// A symbol with a codeword, if there is any.
    pub last: u8,
}

/// No length of the code length code is known yet.
pub open spec fn blank_code_length_code() -> CodeLengthCode {
    CodeLengthCode { lengths: Seq::new(18, |s: int| 0u8), space: 32, count: 0, last: 0 }
}

/// What reading the lengths of the code length code from place `i` of
/// their order on gives. Reading stops after the 18th length, and as soon
/// as the code space is used up. A codeword of `v` bits uses 32 / 2^v
/// units.
pub open spec fn take_code_length_code(bytes: Seq<u8>, pos: nat, i: nat, code: CodeLengthCode) -> Result<
    (CodeLengthCode, nat),
    DecompressorError,
>
    decreases 18 - i,
{
    if i >= 18 || code.space <= 0 {
        Ok((code, pos))
    } else {
        match take_symbol(code_length_codes(), bytes, pos) {
            Err(e) => Err(e),
            Ok((v, next)) => if v == 0 {
                take_code_length_code(bytes, next, i + 1, code)
            } else {
                take_code_length_code(
                    bytes,
                    next,
                    i + 1,
                    CodeLengthCode {
                        lengths: code.lengths.update(code_length_order()[i as int] as int, v),
                        space: code.space - exp2((5 - v) as nat),
                        count: code.count + 1,
                        last: code_length_order()[i as int],
                    },
                )
            },
        }
    }
}

/// The code length code that the lengths stand for. One symbol alone
/// takes no bits; otherwise the code space must be used up exactly.
pub open spec fn code_length_tree(code: CodeLengthCode) -> Result<TreeModel, DecompressorError> {
    if code.count == 1 {
        Ok(TreeModel::Single(code.last as u16))
    } else if code.space == 0 {
        Ok(TreeModel::Lengths(code.lengths))
    } else {
        Err(DecompressorError::MalformedCode)
    }
}

/// Reads the lengths of the code length code, of which the first `skip`
/// are left out, and builds the code.
pub fn parse_code_length_code(stream: &mut BitStream, skip: u8) -> (r: Result<PrefixTree, DecompressorError>)
    requires
        old(stream).wf(),
        skip <= 3,
    ensures
        final(stream).same_input(old(stream)),
        final(stream).pos() >= old(stream).pos(),
        match take_code_length_code(
            old(stream).bytes(),
            old(stream).pos(),
            skip as nat,
            blank_code_length_code(),
        ) {
            Err(e) => r matches Err(x) && x == e,
            Ok((code, next)) => match code_length_tree(code) {
                Err(e) => r matches Err(x) && x == e,
                Ok(model) => {
                    &&& r matches Ok(tree)
                    &&& tree.wf()
                    &&& tree.model() == model
                    &&& model_below(model, 18)
                    &&& final(stream).pos() == next
                },
            },
        },
{
    let codes = create_code_length_codes();
    let order = create_code_length_order();
    let mut lengths: Vec<u8> = vec![0u8; 18];
    let mut space: i32 = 32;
    let mut count: u8 = 0;
    let mut last: u8 = 0;
    let mut i: usize = skip as usize;
    assert(lengths@ =~= blank_code_length_code().lengths);
    while i < 18 && space > 0
        invariant
            stream.same_input(old(stream)),
            stream.pos() >= old(stream).pos(),
            codes@ == code_length_codes(),
            codes_wf(codes@),
            order@ == code_length_order(),
            i <= 18,
            count <= i,
            -32 <= space <= 32,
            last <= 17,
            lengths@.len() == 18,
            forall|s: int| 0 <= s < 18 ==> #[trigger] lengths@[s] <= 5,
            take_code_length_code(
                old(stream).bytes(),
                old(stream).pos(),
                skip as nat,
                blank_code_length_code(),
            ) == take_code_length_code(
                stream.bytes(),
                stream.pos(),
                i as nat,
                CodeLengthCode {
                    lengths: lengths@,
                    space: space as int,
                    count: count as nat,
                    last: last,
                },
            ),
        decreases 18 - i,
    {
        proof {
            reveal_with_fuel(first_match, 7);
            lemma_exp2_values();
        }
        let v = match lookup_symbol(stream, &codes) {
            Ok(v) => v,
            Err(e) => {
                return Err(e);
            },
        };
        if v != 0 {
            let symbol = order[i];
            lengths.set(symbol as usize, v);
            space = space - power_of_two(5 - v) as i32;
            count = count + 1;
            last = symbol;
        }
        i = i + 1;
    }
    if count == 1 {
        Ok(PrefixTree::new_single(last as u16))
    } else if space == 0 {
        Ok(PrefixTree::from_lengths(lengths))
    } else {
        Err(DecompressorError::MalformedCode)
    }
}

/// The code lengths of an alphabet while they are read.
pub struct LengthRun {
    /// The symbol that gets the next length.
    pub symbol: nat,
    /// The lengths so far; 0 for the symbols that have none yet.
    pub lengths: Seq<u8>,
    /// The last length that was not 0; 8 at the start.
    pub prev: u8,
    /// The length of the run that is being continued, 0 if none is.
    pub repeat: nat,
    /// The code length that the run repeats.
    pub repeat_len: u8,
    /// What is left of the 32768 units of code space.
    pub space: int,
}

/// No length is known yet.
pub open spec fn blank_run(alphabet_size: nat) -> LengthRun {
    LengthRun {
        symbol: 0,
        lengths: Seq::new(alphabet_size, |s: int| 0u8),
        prev: 8,
        repeat: 0,
        repeat_len: 0,
        space: 32768,
    }
}

/// `lengths` with `value` at the places from `from` up to `to`.
pub open spec fn filled(lengths: Seq<u8>, from: int, to: int, value: u8) -> Seq<u8> {
    Seq::new(
        lengths.len(),
        |i: int|
            if from <= i < to {
                value
            } else {
                lengths[i]
            },
    )
}

/// What one symbol of the code length code does to the lengths. A symbol
/// below 16 is the next length. Symbol 16 repeats the last length that
/// was not 0, and symbol 17 repeats 0; the run is 3 plus what the extra
/// bits (2 for symbol 16, 3 for symbol 17) hold, and where the symbol
/// before was the same, the run so far less 2 is first multiplied by 4 or
/// by 8. A run may not leave the alphabet. A codeword of `v` bits uses
/// 32768 / 2^v units of code space.
#[verifier::opaque]
pub open spec fn run_step(tree: TreeModel, bytes: Seq<u8>, pos: nat, run: LengthRun) -> Result<
    (LengthRun, nat),
    DecompressorError,
> {
    match take_prefix_symbol(tree, bytes, pos) {
        Err(e) => Err(e),
        Ok((code, next)) => if code < 16 {
            Ok(
                (
                    LengthRun {
                        symbol: run.symbol + 1,
                        lengths: run.lengths.update(run.symbol as int, code as u8),
                        prev: if code != 0 {
                            code as u8
                        } else {
                            run.prev
                        },
                        repeat: 0,
                        repeat_len: run.repeat_len,
                        space: if code != 0 {
                            run.space - exp2((15 - code) as nat)
                        } else {
                            run.space
                        },
                    },
                    next,
                ),
            )
        } else {
            let extra_bits = (code - 14) as nat;
            let new_len = if code == 16 {
                run.prev
            } else {
                0
            };
            let so_far = if run.repeat_len != new_len {
                0
            } else {
                run.repeat
            };
            match take_bits(bytes, next, extra_bits) {
                Err(e) => Err(e),
                Ok((extra, after)) => {
                    let repeat = (if so_far > 0 {
                        (so_far - 2) * exp2(extra_bits)
                    } else {
                        0
                    }) + extra + 3;
                    let more = repeat - so_far;
                    if run.symbol + more > run.lengths.len() {
                        Err(DecompressorError::MalformedCode)
                    } else {
                        Ok(
                            (
                                LengthRun {
                                    symbol: (run.symbol + more) as nat,
                                    lengths: filled(
                                        run.lengths,
                                        run.symbol as int,
                                        run.symbol + more,
                                        new_len,
                                    ),
                                    prev: run.prev,
                                    repeat: repeat as nat,
                                    repeat_len: new_len,
                                    space: if new_len != 0 {
                                        run.space - more * exp2((15 - new_len) as nat)
                                    } else {
                                        run.space
                                    },
                                },
                                after,
                            ),
                        )
                    }
                },
            }
        }
    }
}

/// What reading the code lengths of an alphabet gives. Reading stops when
/// every symbol has its length, and as soon as the code space is used up;
/// the symbols that are left then have no codeword. The code space must be
/// used up exactly. (From the start on every step gives at least one
/// symbol its length and stays within the alphabet.)
pub open spec fn take_symbol_lengths(tree: TreeModel, bytes: Seq<u8>, pos: nat, run: LengthRun) -> Result<
    (Seq<u8>, nat),
    DecompressorError,
>
    decreases run.lengths.len() - run.symbol,
{
    if run.symbol >= run.lengths.len() || run.space <= 0 {
        if run.space == 0 {
            Ok((run.lengths, pos))
        } else {
            Err(DecompressorError::MalformedCode)
        }
    } else {
        match run_step(tree, bytes, pos, run) {
            Err(e) => Err(e),
            Ok((after, next)) => if run.symbol < after.symbol <= after.lengths.len()
                && after.lengths.len() == run.lengths.len() {
                take_symbol_lengths(tree, bytes, next, after)
            } else {
                Err(DecompressorError::MalformedCode)
            },
        }
    }
}

/// Writes `value` to the places from `from` up to `to`.
fn fill(lengths: &mut Vec<u8>, from: usize, to: usize, value: u8)
    requires
        from <= to <= old(lengths)@.len(),
    ensures
        final(lengths)@ == filled(old(lengths)@, from as int, to as int, value),
        final(lengths)@.len() == old(lengths)@.len(),
{
    let mut k: usize = from;
    assert(lengths@ =~= filled(old(lengths)@, from as int, k as int, value));
    while k < to
        invariant
            from <= k <= to <= lengths@.len(),
            lengths@ == filled(old(lengths)@, from as int, k as int, value),
            old(lengths)@.len() == lengths@.len(),
        decreases to - k,
    {
        lengths.set(k, value);
        k = k + 1;
        assert(lengths@ =~= filled(old(lengths)@, from as int, k as int, value));
    }
}

/// The code lengths of an alphabet while they are read.
pub struct LengthReader {
    symbol: usize,
    lengths: Vec<u8>,
    prev: u8,
    repeat: u32,
    repeat_len: u8,
    space: i64,
}

impl LengthReader {
    /// The state as the contracts see it.
    pub closed spec fn view(&self) -> LengthRun {
        LengthRun {
            symbol: self.symbol as nat,
            lengths: self.lengths@,
            prev: self.prev,
            repeat: self.repeat as nat,
            repeat_len: self.repeat_len,
            space: self.space as int,
        }
    }

    /// The lengths and the run lie in their ranges.
    pub closed spec fn wf(&self) -> bool {
        &&& lengths_wf(self.lengths@)
        &&& self.symbol <= self.lengths@.len()
        &&& 1 <= self.prev <= 15
        &&& self.repeat_len <= 15
        &&& self.repeat == 0 || 3 <= self.repeat
        &&& self.repeat <= self.symbol
        &&& -0x1_0000_0000 <= self.space <= 32768
    }

    /// No length is known yet.
    fn new(alphabet_size: usize) -> (reader: LengthReader)
        requires
            alphabet_size <= 0x1_0000,
        ensures
            reader.wf(),
            reader@ == blank_run(alphabet_size as nat),
    {
        let reader = LengthReader {
            symbol: 0,
            lengths: vec![0u8; alphabet_size],
            prev: 8,
            repeat: 0,
            repeat_len: 0,
            space: 32768,
        };
        assert(reader.lengths@ =~= blank_run(alphabet_size as nat).lengths);
        reader
    }

    /// Takes the length `code`, which is below 16, as the length of the
    /// next symbol.
    fn take_length(&mut self, code: u16)
        requires
            old(self).wf(),
            old(self)@.symbol < old(self)@.lengths.len(),
            old(self)@.space > 0,
            code < 16,
        ensures
            final(self).wf(),
            final(self)@ == (LengthRun {
                symbol: old(self)@.symbol + 1,
                lengths: old(self)@.lengths.update(old(self)@.symbol as int, code as u8),
                prev: if code != 0 {
                    code as u8
                } else {
                    old(self)@.prev
                },
                repeat: 0,
                repeat_len: old(self)@.repeat_len,
                space: if code != 0 {
                    old(self)@.space - exp2((15 - code) as nat)
                } else {
                    old(self)@.space
                },
            }),
    {
        self.lengths.set(self.symbol, code as u8);
        self.symbol = self.symbol + 1;
        self.repeat = 0;
        if code != 0 {
            self.prev = code as u8;
            self.space = self.space - power_of_two(15 - code as u8) as i64;
        }
    }

    /// Takes a run into the lengths: `new_len` is the length that it
    /// repeats, and `extra` the value of the `extra_bits` bits that
    /// give its length.
    fn take_run(&mut self, new_len: u8, extra: u32, extra_bits: u8) -> (ok: bool)
        requires
            old(self).wf(),
            old(self)@.symbol < old(self)@.lengths.len(),
            old(self)@.space > 0,
            new_len == 0 || new_len == old(self)@.prev,
            2 <= extra_bits <= 3,
            extra < exp2(extra_bits as nat),
        ensures
            final(self).wf(),
            ({
                let run = old(self)@;
                let so_far = if run.repeat_len != new_len {
                    0
                } else {
                    run.repeat
                };
                let repeat = (if so_far > 0 {
                    (so_far - 2) * exp2(extra_bits as nat)
                } else {
                    0
                }) + extra + 3;
                let more = repeat - so_far;
                &&& more >= 1
                &&& ok == (run.symbol + more <= run.lengths.len())
                &&& ok ==> final(self)@ == (LengthRun {
                    symbol: (run.symbol + more) as nat,
                    lengths: filled(run.lengths, run.symbol as int, run.symbol + more, new_len),
                    prev: run.prev,
                    repeat: repeat as nat,
                    repeat_len: new_len,
                    space: if new_len != 0 {
                        run.space - more * exp2((15 - new_len) as nat)
                    } else {
                        run.space
                    },
                })
            }),
    {
        if self.repeat_len != new_len {
            self.repeat = 0;
            self.repeat_len = new_len;
        }
        proof {
            lemma_exp2_values();
        }
        let so_far: u32 = self.repeat;
        let scale: u32 = power_of_two(extra_bits);
        assert(so_far <= 0x1_0000);
        let repeat: u32 = if so_far > 0 {
            assert((so_far - 2) * scale <= 0x1_0000 * 8) by (nonlinear_arith)
                requires
                    3 <= so_far <= 0x1_0000,
                    1 <= scale <= 8,
            ;
            (so_far - 2) * scale + extra + 3
        } else {
            extra + 3
        };
        assert(repeat > so_far) by (nonlinear_arith)
            requires
                so_far == 0 || 3 <= so_far,
                scale == 4 || scale == 8,
                repeat == (if so_far > 0 {
                    (so_far - 2) * scale
                } else {
                    0
                }) + extra + 3,
        ;
        let more: usize = (repeat - so_far) as usize;
        if more > self.lengths.len() - self.symbol {
            return false;
        }
        let from = self.symbol;
        let to = from + more;
        fill(&mut self.lengths, from, to, new_len);
        self.symbol = to;
        self.repeat = repeat;
        if new_len != 0 {
            let unit = power_of_two(15 - new_len) as i64;
            proof {
                lemma_exp2_monotone((15 - new_len) as nat, 14);
                lemma_exp2_14();
            }
            assert(more * unit <= 0x1_0000 * 0x4000) by (nonlinear_arith)
                requires
                    0 <= more <= 0x1_0000,
                    0 <= unit <= 0x4000,
            ;
            self.space = self.space - (more as i64) * unit;
        }
        true
    }

    /// Reads one symbol of the code length code and takes it into the
    /// lengths.
    fn step(&mut self, tree: &PrefixTree, stream: &mut BitStream) -> (r: Result<(), DecompressorError>)
        requires
            old(self).wf(),
            old(self)@.symbol < old(self)@.lengths.len(),
            old(self)@.space > 0,
            tree.wf(),
            model_below(tree.model(), 18),
            old(stream).wf(),
        ensures
            final(stream).same_input(old(stream)),
            final(stream).pos() >= old(stream).pos(),
            final(self).wf(),
            match run_step(tree.model(), old(stream).bytes(), old(stream).pos(), old(self)@) {
                Err(e) => r matches Err(x) && x == e,
                Ok((after, next)) => {
                    &&& r is Ok
                    &&& final(self)@ == after
                    &&& final(stream).pos() == next
                    &&& after.symbol > old(self)@.symbol
                    &&& after.lengths.len() == old(self)@.lengths.len()
                },
            },
    {
        reveal(run_step);
        let code = match tree.lookup_symbol(stream) {
            Ok(code) => code,
            Err(e) => {
                return Err(e);
            },
        };
        assert(code < 18);
        if code < 16 {
            self.take_length(code);
            return Ok(());
        }
        let extra_bits: u8 = (code - 14) as u8;
        let new_len: u8 = if code == 16 {
            self.prev
        } else {
            0
        };
        proof {
            lemma_stream_uint_bound(stream.bytes(), stream.pos() as int, extra_bits as nat);
            lemma_exp2_values();
        }
        let extra = match stream.read_u32_from_n_bits(extra_bits) {
            Ok(extra) => extra,
            Err(e) => {
                return Err(e);
            },
        };
        if self.take_run(new_len, extra, extra_bits) {
            Ok(())
        } else {
            Err(DecompressorError::MalformedCode)
        }
    }
}

/// What reading a complex description gives, of which the first `skip`
/// lengths of the code length code are left out: the code length of every
/// symbol of the alphabet.
#[verifier::opaque]
pub open spec fn take_complex_code(bytes: Seq<u8>, pos: nat, skip: u8, alphabet_size: nat) -> Result<
    (Seq<u8>, nat),
    DecompressorError,
> {
    match take_code_length_code(bytes, pos, skip as nat, blank_code_length_code()) {
        Err(e) => Err(e),
        Ok((code, next)) => match code_length_tree(code) {
            Err(e) => Err(e),
            Ok(tree) => take_symbol_lengths(tree, bytes, next, blank_run(alphabet_size)),
        },
    }
}

/// Reads a complex description.
pub fn parse_complex_code(stream: &mut BitStream, skip: u8, alphabet_size: usize) -> (r: Result<
    PrefixCode,
    DecompressorError,
>)
    requires
        old(stream).wf(),
        skip <= 3,
        alphabet_size <= 0x1_0000,
    ensures
        final(stream).same_input(old(stream)),
        final(stream).pos() >= old(stream).pos(),
        match take_complex_code(old(stream).bytes(), old(stream).pos(), skip, alphabet_size as nat) {
            Ok((lengths, next)) => {
                &&& r matches Ok(PrefixCode::Complex(v))
                &&& v@ == lengths
                &&& r->Ok_0.wf(alphabet_size as nat)
                &&& final(stream).pos() == next
            },
            Err(e) => r matches Err(x) && x == e,
        },
{
    reveal(take_complex_code);
    let tree = match parse_code_length_code(stream, skip) {
        Ok(tree) => tree,
        Err(e) => {
            return Err(e);
        },
    };
    let mut reader = LengthReader::new(alphabet_size);
    while reader.symbol < reader.lengths.len() && reader.space > 0
        invariant
            stream.same_input(old(stream)),
            stream.pos() >= old(stream).pos(),
            tree.wf(),
            model_below(tree.model(), 18),
            reader.wf(),
            reader@.lengths.len() == alphabet_size,
            take_complex_code(old(stream).bytes(), old(stream).pos(), skip, alphabet_size as nat)
                == take_symbol_lengths(tree.model(), stream.bytes(), stream.pos(), reader@),
        decreases reader@.lengths.len() - reader@.symbol,
    {
        match reader.step(&tree, stream) {
            Ok(()) => {},
            Err(e) => {
                return Err(e);
            },
        }
    }
    if reader.space != 0 {
        return Err(DecompressorError::MalformedCode);
    }
    Ok(PrefixCode::Complex(reader.lengths))
}

/// What reading the description of a prefix code over an alphabet of
/// `alphabet_size` symbols gives: the code.
#[verifier::opaque]
pub open spec fn take_prefix_code(bytes: Seq<u8>, pos: nat, alphabet_size: nat) -> Result<
    (TreeModel, nat),
    DecompressorError,
> {
    match take_prefix_code_kind(bytes, pos) {
        Err(e) => Err(e),
        Ok((PrefixCodeKind::Simple, next)) => match take_simple_code(bytes, next, alphabet_size) {
            Err(e) => Err(e),
            Ok(((symbols, tree_select), after)) => Ok(
                (simple_tree(symbols, tree_select == Some(true), alphabet_size), after),
            ),
        },
        Ok((PrefixCodeKind::Complex(skip), next)) => match take_complex_code(
            bytes,
            next,
            skip,
            alphabet_size,
        ) {
            Err(e) => Err(e),
            Ok((lengths, after)) => Ok((TreeModel::Lengths(lengths), after)),
        },
    }
}

/// `took` for a result that is a prefix tree.
pub open spec fn took_tree(r: Result<PrefixTree, DecompressorError>, pos: nat, expected: Result<
    (TreeModel, nat),
    DecompressorError,
>) -> bool {
    match expected {
        Ok((model, next)) => r matches Ok(tree) && tree.wf() && tree.model() == model && pos == next,
        Err(e) => r matches Err(x) && x == e,
    }
}

/// Builds the tree of a description.
pub fn create_prefix_tree(code: PrefixCode, alphabet_size: usize) -> (tree: PrefixTree)
    requires
        code.wf(alphabet_size as nat),
    ensures
        tree.wf(),
        tree.model() == code.tree_model(alphabet_size as nat),
        model_below(tree.model(), alphabet_size as nat),
{
    match code {
        PrefixCode::Simple(simple) => {
            let tree_select = match simple.tree_select {
                Some(bit) => bit,
                None => false,
            };
            match simple.symbols {
                Some(symbols) => create_simple_tree(&symbols, tree_select, alphabet_size),
                None => PrefixTree::new_single(0),
            }
        },
        PrefixCode::Complex(lengths) => PrefixTree::from_lengths(lengths),
    }
}

/// Reads the description of a prefix code over an alphabet of
/// `alphabet_size` symbols and builds its tree.
pub fn parse_prefix_code(stream: &mut BitStream, alphabet_size: usize) -> (r: Result<PrefixTree, DecompressorError>)
    requires
        old(stream).wf(),
        alphabet_size <= 0x1_0000,
    ensures
        final(stream).same_input(old(stream)),
        final(stream).pos() >= old(stream).pos(),
        took_tree(
            r,
            final(stream).pos(),
            take_prefix_code(old(stream).bytes(), old(stream).pos(), alphabet_size as nat),
        ),
        r matches Ok(tree) ==> model_below(tree.model(), alphabet_size as nat),
{
    reveal(take_prefix_code);
    let kind = match parse_prefix_code_kind(stream) {
        Ok(kind) => kind,
        Err(e) => {
            return Err(e);
        },
    };
    let code = match kind {
        PrefixCodeKind::Simple => match parse_simple_code(stream, alphabet_size) {
            Ok(code) => code,
            Err(e) => {
                return Err(e);
            },
        },
        PrefixCodeKind::Complex(skip) => match parse_complex_code(stream, skip, alphabet_size) {
            Ok(code) => code,
            Err(e) => {
                return Err(e);
            },
        },
    };
    Ok(create_prefix_tree(code, alphabet_size))
}

/// The lengths of the code length code that were read lie within the
/// stream.
pub proof fn lemma_code_length_code_within(bytes: Seq<u8>, pos: nat, i: nat, code: CodeLengthCode)
    requires
        pos <= stream_len(bytes),
    ensures
        take_code_length_code(bytes, pos, i, code) matches Ok((full, next)) ==> within(
            bytes,
            pos,
            next,
        ),
    decreases 18 - i,
{
    if !(i >= 18 || code.space <= 0) {
        lemma_symbol_within(code_length_codes(), bytes, pos);
        match take_symbol(code_length_codes(), bytes, pos) {
            Err(e) => {},
            Ok((v, next)) => {
                if v == 0 {
                    lemma_code_length_code_within(bytes, next, i + 1, code);
                } else {
                    lemma_code_length_code_within(
                        bytes,
                        next,
                        i + 1,
                        CodeLengthCode {
                            lengths: code.lengths.update(code_length_order()[i as int] as int, v),
                            space: code.space - exp2((5 - v) as nat),
                            count: code.count + 1,
                            last: code_length_order()[i as int],
                        },
                    );
                }
            },
        }
    }
}

/// One symbol of the code length code that was read lies within the
/// stream.
pub proof fn lemma_run_step_within(tree: TreeModel, bytes: Seq<u8>, pos: nat, run: LengthRun)
    requires
        pos <= stream_len(bytes),
    ensures
        run_step(tree, bytes, pos, run) matches Ok((after, next)) ==> within(bytes, pos, next),
{
    reveal(run_step);
    lemma_prefix_symbol_pos(tree, bytes, pos);
}

/// The code lengths that were read lie within the stream.
pub proof fn lemma_symbol_lengths_within(tree: TreeModel, bytes: Seq<u8>, pos: nat, run: LengthRun)
    requires
        pos <= stream_len(bytes),
    ensures
        take_symbol_lengths(tree, bytes, pos, run) matches Ok((lengths, next)) ==> within(
            bytes,
            pos,
            next,
        ),
    decreases run.lengths.len() - run.symbol,
{
    if !(run.symbol >= run.lengths.len() || run.space <= 0) {
        lemma_run_step_within(tree, bytes, pos, run);
        match run_step(tree, bytes, pos, run) {
            Err(e) => {},
            Ok((after, next)) => {
                if run.symbol < after.symbol <= after.lengths.len() && after.lengths.len()
                    == run.lengths.len() {
                    lemma_symbol_lengths_within(tree, bytes, next, after);
                }
            },
        }
    }
}

/// The description of a prefix code that was read lies within the
/// stream.
pub proof fn lemma_prefix_code_within(bytes: Seq<u8>, pos: nat, alphabet_size: nat)
    requires
        pos <= stream_len(bytes),
    ensures
        take_prefix_code(bytes, pos, alphabet_size) matches Ok((model, next)) ==> within(
            bytes,
            pos,
            next,
        ),
{
    reveal(take_complex_code);
    reveal(take_prefix_code);
    match take_prefix_code_kind(bytes, pos) {
        Err(e) => {},
        Ok((PrefixCodeKind::Simple, p1)) => {
            lemma_simple_code_within(bytes, p1, alphabet_size);
        },
        Ok((PrefixCodeKind::Complex(skip), p1)) => {
            lemma_code_length_code_within(bytes, p1, skip as nat, blank_code_length_code());
            match take_code_length_code(bytes, p1, skip as nat, blank_code_length_code()) {
                Err(e) => {},
                Ok((code, p2)) => match code_length_tree(code) {
                    Err(e) => {},
                    Ok(tree) => {
                        lemma_symbol_lengths_within(tree, bytes, p2, blank_run(alphabet_size));
                    },
                },
            }
        },
    }
}

} // verus!
