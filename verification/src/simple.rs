//! The description of a prefix code in the stream, and the simple kind of
//! it: up to four symbols, written out, with lengths that the format fixes.

use vstd::prelude::*;
use crate::bits::{
    BitStream, exp2, stream_len, take_bit, take_bits, take_u16, took, within,
    lemma_stream_uint_bound,
    lemma_exp2_values, lemma_exp2_table, lemma_exp2_monotone,
};
use crate::error::DecompressorError;
use crate::prefix::{PrefixTree, TreeModel, lengths_wf, model_below};

verus! {

/// The two kinds of description. A complex one says how many of its first
/// code lengths it leaves out: none, two or three.
#[derive(Debug, Clone, Copy, PartialEq, Eq, Structural)]
pub enum PrefixCodeKind {
    Simple,
    Complex(u8),
}

/// A simple description. A field that was not read is `None`.
#[derive(Debug, PartialEq)]
pub struct PrefixCodeSimple {
    /// NSYM: the number of symbols, from 1 to 4.
    pub n_sym: Option<u8>,
    /// The symbols in the order of the stream.
    pub symbols: Option<Vec<u16>>,
    /// The bit that chooses between the two shapes of a code of four
    /// symbols. Present if NSYM is 4.
    pub tree_select: Option<bool>,
}

/// The description of a prefix code.
#[derive(Debug, PartialEq)]
pub enum PrefixCode {
    /// A simple description.
    Simple(PrefixCodeSimple),
    /// A complex description, as the code lengths that it came to.
    Complex(Vec<u8>),
}

impl PrefixCode {
    /// A simple description of which nothing was read yet.
    pub fn new_simple() -> (code: PrefixCode)
        ensures
            code matches PrefixCode::Simple(simple) && simple.n_sym is None && simple.symbols is None
                && simple.tree_select is None,
    {
        PrefixCode::Simple(PrefixCodeSimple { n_sym: None, symbols: None, tree_select: None })
    }

    /// The description is complete and stands for a code over an alphabet
    /// of `alphabet_size` symbols.
    pub open spec fn wf(&self, alphabet_size: nat) -> bool {
        match *self {
            PrefixCode::Simple(simple) => {
                &&& simple.n_sym matches Some(n_sym)
                &&& simple.symbols matches Some(symbols)
                &&& symbols@.len() == n_sym
                &&& simple.tree_select is Some <==> n_sym == 4
                &&& simple_valid(symbols@, alphabet_size)
            },
            PrefixCode::Complex(lengths) => lengths@.len() == alphabet_size && lengths_wf(lengths@),
        }
    }

    /// The code that the description stands for.
    pub open spec fn tree_model(&self, alphabet_size: nat) -> TreeModel {
        match *self {
            PrefixCode::Simple(simple) => simple_tree(
                simple.symbols->Some_0@,
                simple.tree_select == Some(true),
                alphabet_size,
            ),
            PrefixCode::Complex(lengths) => TreeModel::Lengths(lengths@),
        }
    }
}

/// The kind for the two bits that stand for it: 1 is the simple kind, and
/// any other value is the number of code lengths that a complex
/// description leaves out.
pub open spec fn kind_of(v: nat) -> PrefixCodeKind {
    if v == 1 {
        PrefixCodeKind::Simple
    } else {
        PrefixCodeKind::Complex(v as u8)
    }
}

/// What reading the kind of a description gives.
pub open spec fn take_prefix_code_kind(bytes: Seq<u8>, pos: nat) -> Result<
    (PrefixCodeKind, nat),
    DecompressorError,
> {
    match take_bits(bytes, pos, 2) {
        Err(e) => Err(e),
        Ok((v, next)) => Ok((kind_of(v), next)),
    }
}

/// Reads the kind of a description.
pub fn parse_prefix_code_kind(stream: &mut BitStream) -> (r: Result<PrefixCodeKind, DecompressorError>)
    requires
        old(stream).wf(),
    ensures
        final(stream).same_input(old(stream)),
        final(stream).pos() >= old(stream).pos(),
        took(r, final(stream).pos(), take_prefix_code_kind(old(stream).bytes(), old(stream).pos())),
        r matches Ok(PrefixCodeKind::Complex(skip)) ==> skip == 0 || skip == 2 || skip == 3,
{
    proof {
        lemma_stream_uint_bound(stream.bytes(), stream.pos() as int, 2);
        lemma_exp2_values();
    }
    match stream.read_u8_from_n_bits(2) {
        Ok(v) => if v == 1 {
            Ok(PrefixCodeKind::Simple)
        } else {
            Ok(PrefixCodeKind::Complex(v))
        },
        Err(e) => Err(e),
    }
}

/// The number of bits of a symbol in a simple description: as many as the
/// greatest symbol of the alphabet needs.
pub open spec fn alphabet_bits(alphabet_size: nat) -> nat
    decreases alphabet_size,
{
    if alphabet_size <= 1 {
        0
    } else {
        1 + alphabet_bits((alphabet_size + 1) / 2)
    }
}

/// An alphabet of at most two to the power of `bound` symbols needs at
/// most `bound` bits for a symbol.
pub proof fn lemma_alphabet_bits_bound(alphabet_size: nat, bound: nat)
    requires
        alphabet_size <= exp2(bound),
    ensures
        alphabet_bits(alphabet_size) <= bound,
    decreases alphabet_size,
{
    if alphabet_size > 1 {
        reveal_with_fuel(exp2, 2);
        if bound == 0 {
        } else {
            lemma_alphabet_bits_bound((alphabet_size + 1) / 2, (bound - 1) as nat);
        }
    }
}

/// Computes the number of bits of a symbol in a simple description.
pub fn symbol_bits(alphabet_size: usize) -> (bits: u8)
    requires
        alphabet_size <= 0x1_0000,
    ensures
        bits == alphabet_bits(alphabet_size as nat),
        bits <= 16,
{
    proof {
        lemma_exp2_table();
        lemma_alphabet_bits_bound(alphabet_size as nat, 16);
    }
    let mut size = alphabet_size;
    let mut bits: u8 = 0;
    while size > 1
        invariant
            bits + alphabet_bits(size as nat) == alphabet_bits(alphabet_size as nat),
            alphabet_bits(alphabet_size as nat) <= 16,
            size <= 0x1_0000,
        decreases size,
    {
        size = (size + 1) / 2;
        bits = bits + 1;
    }
    bits
}

/// What reading NSYM gives.
pub open spec fn take_n_sym(bytes: Seq<u8>, pos: nat) -> Result<(u8, nat), DecompressorError> {
    match take_bits(bytes, pos, 2) {
        Err(e) => Err(e),
        Ok((v, next)) => Ok(((v + 1) as u8, next)),
    }
}

/// Reads NSYM.
pub fn parse_n_sym(stream: &mut BitStream) -> (r: Result<u8, DecompressorError>)
    requires
        old(stream).wf(),
    ensures
        final(stream).same_input(old(stream)),
        final(stream).pos() >= old(stream).pos(),
        took(r, final(stream).pos(), take_n_sym(old(stream).bytes(), old(stream).pos())),
        r matches Ok(n) ==> 1 <= n <= 4,
{
    proof {
        lemma_stream_uint_bound(stream.bytes(), stream.pos() as int, 2);
        lemma_exp2_values();
    }
    match stream.read_u8_from_n_bits(2) {
        Ok(v) => Ok(v + 1),
        Err(e) => Err(e),
    }
}

/// What reading `count` more symbols of `width` bits each gives, `front`
/// being the symbols read so far.
pub open spec fn take_symbols(bytes: Seq<u8>, pos: nat, count: nat, width: nat, front: Seq<u16>) -> Result<
    (Seq<u16>, nat),
    DecompressorError,
>
    decreases count,
{
    if count == 0 {
        Ok((front, pos))
    } else {
        match take_u16(bytes, pos, width) {
            Err(e) => Err(e),
            Ok((symbol, next)) => take_symbols(bytes, next, (count - 1) as nat, width, front.push(symbol)),
        }
    }
}

/// `took` for a result that is a vector of symbols.
pub open spec fn took_symbols(r: Result<Vec<u16>, DecompressorError>, pos: nat, expected: Result<
    (Seq<u16>, nat),
    DecompressorError,
>) -> bool {
    match expected {
        Ok((v, next)) => r is Ok && r->Ok_0@ == v && pos == next,
        Err(e) => r == Err::<Vec<u16>, DecompressorError>(e),
    }
}

/// Reads the `n_sym` symbols of a simple description, `width` bits each.
pub fn parse_symbols(stream: &mut BitStream, n_sym: u8, width: u8) -> (r: Result<Vec<u16>, DecompressorError>)
    requires
        old(stream).wf(),
        width <= 16,
    ensures
        final(stream).same_input(old(stream)),
        final(stream).pos() >= old(stream).pos(),
        took_symbols(
            r,
            final(stream).pos(),
            take_symbols(
                old(stream).bytes(),
                old(stream).pos(),
                n_sym as nat,
                width as nat,
                Seq::empty(),
            ),
        ),
        r matches Ok(symbols) ==> symbols@.len() == n_sym,
{
    let mut symbols: Vec<u16> = Vec::new();
    let mut k: u8 = 0;
    while k < n_sym
        invariant
            stream.same_input(old(stream)),
            stream.pos() >= old(stream).pos(),
            width <= 16,
            k <= n_sym,
            symbols@.len() == k,
            take_symbols(
                old(stream).bytes(),
                old(stream).pos(),
                n_sym as nat,
                width as nat,
                Seq::empty(),
            ) == take_symbols(
                stream.bytes(),
                stream.pos(),
                (n_sym - k) as nat,
                width as nat,
                symbols@,
            ),
        decreases n_sym - k,
    {
        match stream.read_u16_from_n_bits(width) {
            Ok(symbol) => {
                symbols.push(symbol);
            },
            Err(e) => {
                return Err(e);
            },
        }
        k = k + 1;
    }
    Ok(symbols)
}

/// The symbols of a simple description are symbols of the alphabet, and no
/// two of them are the same.
pub open spec fn simple_valid(symbols: Seq<u16>, alphabet_size: nat) -> bool {
    &&& 1 <= symbols.len() <= 4
    &&& alphabet_size <= 0x1_0000
    &&& forall|i: int| 0 <= i < symbols.len() ==> (#[trigger] symbols[i] as nat) < alphabet_size
    &&& forall|i: int, j: int|
        0 <= i < j < symbols.len() ==> #[trigger] symbols[i] != #[trigger] symbols[j]
}

/// The shapes that a simple code can have: one symbol; two symbols; three
/// symbols; four symbols with codewords of one length; four symbols with
/// codewords of three lengths.
#[derive(Debug, Clone, Copy, PartialEq, Eq, Structural)]
pub enum SimpleShape {
    NSym1,
    NSym2,
    NSym3,
    NSym4Flat,
    NSym4Skew,
}

/// The shape of a simple code of `n_sym` symbols, of which `tree_select`
/// chooses between the two shapes of four symbols.
pub open spec fn shape_of(n_sym: nat, tree_select: bool) -> SimpleShape {
    if n_sym == 1 {
        SimpleShape::NSym1
    } else if n_sym == 2 {
        SimpleShape::NSym2
    } else if n_sym == 3 {
        SimpleShape::NSym3
    } else if tree_select {
        SimpleShape::NSym4Skew
    } else {
        SimpleShape::NSym4Flat
    }
}

/// The length of the codeword of the symbol that stands at place `i` in
/// the description of a simple code: no bit for one symbol; 1, 1 for two
/// symbols; 1, 2, 2 for three; for four 2, 2, 2, 2, or 1, 2, 3, 3.
pub open spec fn shape_length(shape: SimpleShape, i: int) -> u8 {
    match shape {
        SimpleShape::NSym1 => 0,
        SimpleShape::NSym2 => 1,
        SimpleShape::NSym3 => if i == 0 {
            1
        } else {
            2
        },
        SimpleShape::NSym4Flat => 2,
        SimpleShape::NSym4Skew => if i == 0 {
            1
        } else if i == 1 {
            2
        } else {
            3
        },
    }
}

/// The length of the codeword of the symbol that stands at place `i` in a
/// simple description of `n_sym` symbols.
pub open spec fn simple_length(n_sym: nat, tree_select: bool, i: int) -> u8 {
    shape_length(shape_of(n_sym, tree_select), i)
}

/// Gives the shape of a simple code.
pub fn simple_shape(n_sym: usize, tree_select: bool) -> (shape: SimpleShape)
    ensures
        shape == shape_of(n_sym as nat, tree_select),
{
    if n_sym == 1 {
        SimpleShape::NSym1
    } else if n_sym == 2 {
        SimpleShape::NSym2
    } else if n_sym == 3 {
        SimpleShape::NSym3
    } else if tree_select {
        SimpleShape::NSym4Skew
    } else {
        SimpleShape::NSym4Flat
    }
}

/// Gives the length of the codeword of the symbol at place `i` of the
/// description.
pub fn length_in_shape(shape: SimpleShape, i: usize) -> (length: u8)
    ensures
        length == shape_length(shape, i as int),
        length <= 3,
{
    match shape {
        SimpleShape::NSym1 => 0,
        SimpleShape::NSym2 => 1,
        SimpleShape::NSym3 => if i == 0 {
            1
        } else {
            2
        },
        SimpleShape::NSym4Flat => 2,
        SimpleShape::NSym4Skew => if i == 0 {
            1
        } else if i == 1 {
            2
        } else {
            3
        },
    }
}

/// The code lengths over the alphabet after the first `upto` symbols of a
/// simple description got theirs.
pub open spec fn simple_lengths(symbols: Seq<u16>, tree_select: bool, alphabet_size: nat, upto: nat) -> Seq<
    u8,
>
    decreases upto,
{
    if upto == 0 {
        Seq::new(alphabet_size, |s: int| 0u8)
    } else {
        simple_lengths(symbols, tree_select, alphabet_size, (upto - 1) as nat).update(
            symbols[upto - 1] as int,
            simple_length(symbols.len(), tree_select, upto - 1),
        )
    }
}

/// The code that a simple description stands for: its one symbol, or the
/// canonical code of the lengths that the format fixes for its symbols.
pub open spec fn simple_tree(symbols: Seq<u16>, tree_select: bool, alphabet_size: nat) -> TreeModel {
    if symbols.len() == 1 {
        TreeModel::Single(symbols[0])
    } else {
        TreeModel::Lengths(simple_lengths(symbols, tree_select, alphabet_size, symbols.len()))
    }
}

/// What reading a simple description from NSYM on gives: the symbols and,
/// for four symbols, the bit that chooses the shape. A symbol outside the
/// alphabet or one that stands twice makes the code malformed.
#[verifier::opaque]
pub open spec fn take_simple_code(bytes: Seq<u8>, pos: nat, alphabet_size: nat) -> Result<
    ((Seq<u16>, Option<bool>), nat),
    DecompressorError,
> {
    match take_n_sym(bytes, pos) {
        Err(e) => Err(e),
        Ok((n_sym, p1)) => match take_symbols(
            bytes,
            p1,
            n_sym as nat,
            alphabet_bits(alphabet_size),
            Seq::empty(),
        ) {
            Err(e) => Err(e),
            Ok((symbols, p2)) => if n_sym == 4 {
                match take_bit(bytes, p2) {
                    Err(e) => Err(e),
                    Ok((tree_select, p3)) => if simple_valid(symbols, alphabet_size) {
                        Ok(((symbols, Some(tree_select)), p3))
                    } else {
                        Err(DecompressorError::MalformedCode)
                    },
                }
            } else if simple_valid(symbols, alphabet_size) {
                Ok(((symbols, None), p2))
            } else {
                Err(DecompressorError::MalformedCode)
            },
        },
    }
}

/// Tells whether the symbols of a simple description are symbols of the
/// alphabet and differ from each other.
pub fn check_symbols(symbols: &Vec<u16>, alphabet_size: usize) -> (ok: bool)
    requires
        1 <= symbols@.len() <= 4,
        alphabet_size <= 0x1_0000,
    ensures
        ok == simple_valid(symbols@, alphabet_size as nat),
{
    let n = symbols.len();
    let mut i: usize = 0;
    while i < n
        invariant
            i <= n,
            n == symbols@.len(),
            n <= 4,
            forall|a: int| 0 <= a < i ==> (#[trigger] symbols@[a] as nat) < alphabet_size,
            forall|a: int, b: int|
                0 <= a < b < n && a < i ==> #[trigger] symbols@[a] != #[trigger] symbols@[b],
        decreases n - i,
    {
        if symbols[i] as usize >= alphabet_size {
            return false;
        }
        let mut j: usize = i + 1;
        while j < n
            invariant
                i < j <= n,
                n == symbols@.len(),
                forall|b: int| i < b < j ==> symbols@[i as int] != #[trigger] symbols@[b],
            decreases n - j,
        {
            if symbols[i] == symbols[j] {
                return false;
            }
            j = j + 1;
        }
        i = i + 1;
    }
    true
}

/// Reads a simple description from NSYM on.
pub fn parse_simple_code(stream: &mut BitStream, alphabet_size: usize) -> (r: Result<PrefixCode, DecompressorError>)
    requires
        old(stream).wf(),
        alphabet_size <= 0x1_0000,
    ensures
        final(stream).same_input(old(stream)),
        final(stream).pos() >= old(stream).pos(),
        match take_simple_code(old(stream).bytes(), old(stream).pos(), alphabet_size as nat) {
            Ok(((symbols, tree_select), next)) => {
                &&& r matches Ok(PrefixCode::Simple(simple))
                &&& simple.symbols is Some
                &&& simple.symbols->Some_0@ == symbols
                &&& simple.tree_select == tree_select
                &&& r->Ok_0.wf(alphabet_size as nat)
                &&& final(stream).pos() == next
            },
            Err(e) => r matches Err(x) && x == e,
        },
{
    reveal(take_simple_code);
    let n_sym = match parse_n_sym(stream) {
        Ok(v) => v,
        Err(e) => {
            return Err(e);
        },
    };
    let symbols = match parse_symbols(stream, n_sym, symbol_bits(alphabet_size)) {
        Ok(v) => v,
        Err(e) => {
            return Err(e);
        },
    };
    let mut tree_select: Option<bool> = None;
    if n_sym == 4 {
        match stream.read_bit() {
            Ok(bit) => {
                tree_select = Some(bit);
            },
            Err(e) => {
                return Err(e);
            },
        }
    }
    if !check_symbols(&symbols, alphabet_size) {
        return Err(DecompressorError::MalformedCode);
    }
    match PrefixCode::new_simple() {
        PrefixCode::Simple(blank) => {
            let mut simple = blank;
            simple.n_sym = Some(n_sym);
            simple.symbols = Some(symbols);
            simple.tree_select = tree_select;
            Ok(PrefixCode::Simple(simple))
        },
        PrefixCode::Complex(_) => Err(DecompressorError::MalformedCode),
    }
}

/// Builds the tree of a simple description.
pub fn create_simple_tree(symbols: &Vec<u16>, tree_select: bool, alphabet_size: usize) -> (tree: PrefixTree)
    requires
        simple_valid(symbols@, alphabet_size as nat),
    ensures
        tree.wf(),
        tree.model() == simple_tree(symbols@, tree_select, alphabet_size as nat),
        model_below(tree.model(), alphabet_size as nat),
{
    let n = symbols.len();
    if n == 1 {
        return PrefixTree::new_single(symbols[0]);
    }
    let shape = simple_shape(n, tree_select);
    let mut lengths: Vec<u8> = vec![0u8; alphabet_size];
    assert(lengths@ =~= simple_lengths(symbols@, tree_select, alphabet_size as nat, 0));
    let mut k: usize = 0;
    while k < n
        invariant
            k <= n,
            2 <= n <= 4,
            n == symbols@.len(),
            simple_valid(symbols@, alphabet_size as nat),
            lengths@.len() == alphabet_size,
            lengths@ == simple_lengths(symbols@, tree_select, alphabet_size as nat, k as nat),
            lengths_wf(lengths@),
            shape == shape_of(n as nat, tree_select),
        decreases n - k,
    {
        let length = length_in_shape(shape, k);
        lengths.set(symbols[k] as usize, length);
        k = k + 1;
    }
    PrefixTree::from_lengths(lengths)
}

/// Symbols that were read lie within the stream.
pub proof fn lemma_symbols_within(bytes: Seq<u8>, pos: nat, count: nat, width: nat, front: Seq<u16>)
    requires
        pos <= stream_len(bytes),
    ensures
        take_symbols(bytes, pos, count, width, front) matches Ok((symbols, next)) ==> within(
            bytes,
            pos,
            next,
        ),
    decreases count,
{
    if count > 0 {
        match take_u16(bytes, pos, width) {
            Err(e) => {},
            Ok((symbol, next)) => {
                lemma_symbols_within(bytes, next, (count - 1) as nat, width, front.push(symbol));
            },
        }
    }
}

/// A simple description that was read lies within the stream.
pub proof fn lemma_simple_code_within(bytes: Seq<u8>, pos: nat, alphabet_size: nat)
    ensures
        take_simple_code(bytes, pos, alphabet_size) matches Ok((code, next)) ==> within(
            bytes,
            pos,
            next,
        ),
{
    reveal(take_simple_code);
    match take_n_sym(bytes, pos) {
        Err(e) => {},
        Ok((n_sym, p1)) => {
            lemma_symbols_within(bytes, p1, n_sym as nat, alphabet_bits(alphabet_size), Seq::empty());
        },
    }
}

} // verus!
