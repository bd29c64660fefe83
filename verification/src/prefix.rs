//! Prefix codes: the canonical code that a list of code lengths stands
//! for, and the reading of one symbol.
//!
//! A code is given by the length of each symbol's codeword, 0 for a symbol
//! that has none. Among the codewords of one length the symbols go up with
//! the codewords, and the codewords of a greater length follow those of a
//! smaller one. A codeword's first bit in the stream is its most
//! significant one.

use vstd::prelude::*;
use crate::bits::{BitStream, exp2, stream_len, take_bit, took, lemma_exp2_monotone, lemma_exp2_table, lemma_exp2_values};
use crate::error::DecompressorError;

verus! {

/// The greatest length of a codeword.
pub const MAX_CODE_LENGTH: u8 = 15;

/// The number of symbols below `upto` whose codeword has `length` bits.
pub open spec fn count_of(lengths: Seq<u8>, length: nat, upto: nat) -> nat
    decreases upto,
{
    if upto == 0 {
        0
    } else {
        count_of(lengths, length, (upto - 1) as nat) + if lengths[upto - 1] == length {
            1nat
        } else {
            0nat
        }
    }
}

/// The number of symbols whose codeword has `length` bits.
pub open spec fn total_of(lengths: Seq<u8>, length: nat) -> nat {
    count_of(lengths, length, lengths.len())
}

/// The least codeword of `length` bits, as a number.
pub open spec fn first_code(lengths: Seq<u8>, length: nat) -> nat
    decreases length,
{
    if length <= 1 {
        0
    } else {
        2 * (first_code(lengths, (length - 1) as nat) + total_of(lengths, (length - 1) as nat))
    }
}

/// `symbol` has a codeword of `length` bits, and `rank` symbols below it
/// have one of that length too.
pub open spec fn is_ranked(lengths: Seq<u8>, length: nat, rank: nat, symbol: nat) -> bool {
    &&& symbol < lengths.len()
    &&& lengths[symbol as int] == length
    &&& count_of(lengths, length, symbol) == rank
}

/// The symbol whose codeword is the one of `length` bits with `rank`
/// codewords of that length below it.
pub open spec fn ranked_symbol(lengths: Seq<u8>, length: nat, rank: nat) -> nat {
    choose|symbol: nat| is_ranked(lengths, length, rank, symbol)
}

/// A prefix code as the contracts see it.
pub enum TreeModel {
    /// A code of one symbol, which takes no bits.
    Single(u16),
    /// A code of several symbols, given by the length of each codeword.
    Lengths(Seq<u8>),
}

/// What reading a symbol of the code `lengths` gives when the `depth` bits
/// before `pos + depth` have the value `code` and no codeword is among
/// their beginnings: one more bit is taken, and the bits are either a
/// codeword, whose symbol is the result, or the walk goes on. No codeword
/// is longer than 15 bits.
pub open spec fn walk(lengths: Seq<u8>, bytes: Seq<u8>, pos: nat, depth: nat, code: nat) -> Result<
    (u16, nat),
    DecompressorError,
>
    decreases MAX_CODE_LENGTH - depth,
{
    if depth >= MAX_CODE_LENGTH {
        Err(DecompressorError::MalformedCode)
    } else {
        match take_bit(bytes, pos + depth) {
            Err(e) => Err(e),
            Ok((bit, next)) => {
                let longer = 2 * code + if bit {
                    1nat
                } else {
                    0nat
                };
                let first = first_code(lengths, depth + 1);
                if first <= longer < first + total_of(lengths, depth + 1) {
                    Ok((ranked_symbol(lengths, depth + 1, (longer - first) as nat) as u16, next))
                } else {
                    walk(lengths, bytes, pos, depth + 1, longer)
                }
            },
        }
    }
}

/// What reading one symbol of a prefix code at `pos` gives.
pub open spec fn take_prefix_symbol(model: TreeModel, bytes: Seq<u8>, pos: nat) -> Result<
    (u16, nat),
    DecompressorError,
> {
    match model {
        TreeModel::Single(symbol) => Ok((symbol, pos)),
        TreeModel::Lengths(lengths) => walk(lengths, bytes, pos, 0, 0),
    }
}

/// Reading a symbol moves the stream forward or leaves it.
pub proof fn lemma_walk_pos(lengths: Seq<u8>, bytes: Seq<u8>, pos: nat, depth: nat, code: nat)
    ensures
        walk(lengths, bytes, pos, depth, code) matches Ok((symbol, next)) ==> pos + depth < next
            <= pos + MAX_CODE_LENGTH && next <= stream_len(bytes),
    decreases MAX_CODE_LENGTH - depth,
{
    if depth < MAX_CODE_LENGTH {
        match take_bit(bytes, pos + depth) {
            Err(e) => {},
            Ok((bit, next)) => {
                let longer = 2 * code + if bit {
                    1nat
                } else {
                    0nat
                };
                lemma_walk_pos(lengths, bytes, pos, depth + 1, longer);
            },
        }
    }
}

/// Reading a symbol moves the stream forward or leaves it.
pub proof fn lemma_prefix_symbol_pos(model: TreeModel, bytes: Seq<u8>, pos: nat)
    ensures
        take_prefix_symbol(model, bytes, pos) matches Ok((symbol, next)) ==> pos <= next <= pos
            + MAX_CODE_LENGTH && (pos <= stream_len(bytes) ==> next <= stream_len(bytes)),
{
    match model {
        TreeModel::Single(symbol) => {},
        TreeModel::Lengths(lengths) => {
            lemma_walk_pos(lengths, bytes, pos, 0, 0);
        },
    }
}

/// Every symbol that the code can give is below `bound`.
pub open spec fn model_below(model: TreeModel, bound: nat) -> bool {
    match model {
        TreeModel::Single(symbol) => (symbol as nat) < bound,
        TreeModel::Lengths(lengths) => lengths.len() <= bound,
    }
}

/// The lengths of a code: at most 65536 symbols, no codeword longer than
/// 15 bits.
pub open spec fn lengths_wf(lengths: Seq<u8>) -> bool {
    &&& lengths.len() <= 0x1_0000
    &&& forall|s: int| 0 <= s < lengths.len() ==> #[trigger] lengths[s] <= MAX_CODE_LENGTH
}

/// There are no more codewords of a length among the symbols below `upto`
/// than there are symbols.
pub proof fn lemma_count_of_bound(lengths: Seq<u8>, length: nat, upto: nat)
    ensures
        count_of(lengths, length, upto) <= upto,
    decreases upto,
{
    if upto > 0 {
        lemma_count_of_bound(lengths, length, (upto - 1) as nat);
    }
}

/// The more symbols are counted, the more codewords of a length there
/// are.
pub proof fn lemma_count_of_monotone(lengths: Seq<u8>, length: nat, a: nat, b: nat)
    requires
        a <= b,
    ensures
        count_of(lengths, length, a) <= count_of(lengths, length, b),
    decreases b,
{
    if a < b {
        lemma_count_of_monotone(lengths, length, a, (b - 1) as nat);
    }
}

/// Two symbols with codewords of one length and the same rank are one
/// symbol.
pub proof fn lemma_rank_unique(lengths: Seq<u8>, length: nat, rank: nat, a: nat, b: nat)
    requires
        is_ranked(lengths, length, rank, a),
        is_ranked(lengths, length, rank, b),
    ensures
        a == b,
{
    if a < b {
        lemma_count_of_monotone(lengths, length, a + 1, b);
    } else if b < a {
        lemma_count_of_monotone(lengths, length, b + 1, a);
    }
}

/// The codewords of up to `length` bits are fewer than the symbols times
/// two to the power of `length`.
pub proof fn lemma_first_code_bound(lengths: Seq<u8>, length: nat)
    requires
        length >= 1,
    ensures
        first_code(lengths, length) + total_of(lengths, length) <= (exp2(length) - 1)
            * lengths.len(),
    decreases length,
{
    let n = lengths.len();
    lemma_count_of_bound(lengths, length, n);
    reveal_with_fuel(exp2, 2);
    if length > 1 {
        lemma_first_code_bound(lengths, (length - 1) as nat);
        let e = exp2((length - 1) as nat);
        let s = first_code(lengths, (length - 1) as nat) + total_of(lengths, (length - 1) as nat);
        assert(2 * s + n <= (2 * e - 1) * n) by (nonlinear_arith)
            requires
                s <= (e - 1) * n,
        ;
    } else {
        assert((exp2(1) - 1) * n == n) by (nonlinear_arith)
            requires
                exp2(1) == 2,
        ;
    }
}

/// A prefix code, with the tables by which a symbol is found.
pub struct PrefixTree {
    lengths: Vec<u8>,
    single: Option<u16>,
    count: Vec<u32>,
    first: Vec<u32>,
    offset: Vec<usize>,
    sorted: Vec<u16>,
}

impl PrefixTree {
    /// The code that the tree stands for.
    pub closed spec fn model(&self) -> TreeModel {
        match self.single {
            Some(symbol) => TreeModel::Single(symbol),
            None => TreeModel::Lengths(self.lengths@),
        }
    }

    /// The tables are those of the code.
    pub closed spec fn wf(&self) -> bool {
        self.single is None ==> {
            &&& lengths_wf(self.lengths@)
            &&& self.count@.len() == 16
            &&& self.first@.len() == 16
            &&& self.offset@.len() == 16
            &&& forall|l: int|
                1 <= l <= 15 ==> {
                    &&& #[trigger] self.count@[l] == total_of(self.lengths@, l as nat)
                    &&& self.first@[l] == first_code(self.lengths@, l as nat)
                    &&& self.offset@[l] + self.count@[l] <= self.sorted@.len()
                }
            &&& forall|l: int, k: int|
                1 <= l <= 15 && 0 <= k < self.count@[l] ==> is_ranked(
                    self.lengths@,
                    l as nat,
                    k as nat,
                    #[trigger] self.sorted@[self.offset@[l] + k] as nat,
                )
        }
    }

    /// The code of the one symbol `symbol`, which takes no bits.
    pub fn new_single(symbol: u16) -> (tree: PrefixTree)
        ensures
            tree.wf(),
            tree.model() == TreeModel::Single(symbol),
    {
        PrefixTree {
            lengths: Vec::new(),
            single: Some(symbol),
            count: Vec::new(),
            first: Vec::new(),
            offset: Vec::new(),
            sorted: Vec::new(),
        }
    }

    /// The code that gives each symbol a codeword of the length that
    /// `lengths` holds for it.
    pub fn from_lengths(lengths: Vec<u8>) -> (tree: PrefixTree)
        requires
            lengths_wf(lengths@),
        ensures
            tree.wf(),
            tree.model() == TreeModel::Lengths(lengths@),
    {
        let n = lengths.len();
        let count = count_lengths(&lengths);
        let first = first_codes(&lengths, &count);
        let mut offset: Vec<usize> = vec![0usize; 16];
        let mut sorted: Vec<u16> = Vec::new();
        let mut l: usize = 1;
        while l <= 15
            invariant
                1 <= l <= 16,
                n == lengths@.len(),
                lengths_wf(lengths@),
                count@.len() == 16,
                offset@.len() == 16,
                forall|j: int| 1 <= j <= 15 ==> #[trigger] count@[j] == total_of(lengths@, j as nat),
                sorted@.len() <= (l - 1) * n,
                forall|j: int| 1 <= j < l ==> #[trigger] offset@[j] + count@[j] <= sorted@.len(),
                forall|j: int, k: int|
                    1 <= j < l && 0 <= k < count@[j] ==> is_ranked(
                        lengths@,
                        j as nat,
                        k as nat,
                        #[trigger] sorted@[offset@[j] + k] as nat,
                    ),
            decreases 16 - l,
        {
            let start = sorted.len();
            offset.set(l, start);
            let mut s: usize = 0;
            while s < n
                invariant
                    1 <= l <= 15,
                    s <= n,
                    n == lengths@.len(),
                    lengths_wf(lengths@),
                    count@.len() == 16,
                    offset@.len() == 16,
                    offset@[l as int] == start,
                    start <= (l - 1) * n,
                    sorted@.len() == start + count_of(lengths@, l as nat, s as nat),
                    forall|j: int| 1 <= j < l ==> #[trigger] offset@[j] + count@[j] <= start,
                    forall|j: int, k: int|
                        1 <= j < l && 0 <= k < count@[j] ==> is_ranked(
                            lengths@,
                            j as nat,
                            k as nat,
                            #[trigger] sorted@[offset@[j] + k] as nat,
                        ),
                    forall|k: int|
                        0 <= k < count_of(lengths@, l as nat, s as nat) ==> is_ranked(
                            lengths@,
                            l as nat,
                            k as nat,
                            #[trigger] sorted@[start + k] as nat,
                        ),
                decreases n - s,
            {
                proof {
                    lemma_count_of_bound(lengths@, l as nat, s as nat);
                }
                if lengths[s] as usize == l {
                    sorted.push(s as u16);
                }
                s = s + 1;
            }
            proof {
                lemma_count_of_bound(lengths@, l as nat, n as nat);
                assert(sorted@.len() <= l * n) by (nonlinear_arith)
                    requires
                        sorted@.len() <= start + n,
                        start <= (l - 1) * n,
                ;
            }
            l = l + 1;
        }
        PrefixTree { lengths, single: None, count, first, offset, sorted }
    }

    /// Reads one symbol.
    pub fn lookup_symbol(&self, stream: &mut BitStream) -> (r: Result<u16, DecompressorError>)
        requires
            self.wf(),
            old(stream).wf(),
        ensures
            final(stream).same_input(old(stream)),
            took(
                r,
                final(stream).pos(),
                take_prefix_symbol(self.model(), old(stream).bytes(), old(stream).pos()),
            ),
            forall|bound: nat|
                r is Ok && model_below(self.model(), bound) ==> (r->Ok_0 as nat) < bound,
            r is Ok ==> final(stream).pos() <= old(stream).pos() + MAX_CODE_LENGTH,
            final(stream).pos() >= old(stream).pos(),
    {
        match self.single {
            Some(symbol) => {
                return Ok(symbol);
            },
            None => {},
        }
        let ghost start = stream.pos();
        let mut code: u32 = 0;
        let mut depth: usize = 0;
        while depth < 15
            invariant
                self.wf(),
                self.single is None,
                stream.same_input(old(stream)),
                start == old(stream).pos(),
                depth <= 15,
                stream.pos() == start + depth,
                code < exp2(depth as nat),
                walk(self.lengths@, stream.bytes(), start, 0, 0) == walk(
                    self.lengths@,
                    stream.bytes(),
                    start,
                    depth as nat,
                    code as nat,
                ),
            decreases 15 - depth,
        {
            proof {
                lemma_exp2_monotone((depth + 1) as nat, 16);
                lemma_exp2_table();
                reveal_with_fuel(exp2, 2);
            }
            let bit = match stream.read_bit() {
                Ok(bit) => bit,
                Err(e) => {
                    return Err(e);
                },
            };
            code = 2 * code + if bit {
                1
            } else {
                0
            };
            depth = depth + 1;
            let first = self.first[depth];
            let count = self.count[depth];
            if first <= code && code - first < count {
                let total = self.sorted.len();
                assert(self.offset@[depth as int] + self.count@[depth as int] <= total);
                let at = self.offset[depth] + (code - first) as usize;
                let symbol = self.sorted[at];
                proof {
                    let rank = (code - first) as nat;
                    assert(is_ranked(self.lengths@, depth as nat, rank, symbol as nat));
                    let chosen = ranked_symbol(self.lengths@, depth as nat, rank);
                    lemma_rank_unique(self.lengths@, depth as nat, rank, symbol as nat, chosen);
                }
                return Ok(symbol);
            }
        }
        Err(DecompressorError::MalformedCode)
    }
}

/// Counts the codewords of each length.
fn count_lengths(lengths: &Vec<u8>) -> (count: Vec<u32>)
    requires
        lengths_wf(lengths@),
    ensures
        count@.len() == 16,
        forall|l: int| 0 <= l <= 15 ==> #[trigger] count@[l] == total_of(lengths@, l as nat),
{
    let n = lengths.len();
    let mut count: Vec<u32> = vec![0u32; 16];
    let mut s: usize = 0;
    while s < n
        invariant
            s <= n,
            n == lengths@.len(),
            lengths_wf(lengths@),
            count@.len() == 16,
            forall|l: int| 0 <= l <= 15 ==> #[trigger] count@[l] == count_of(lengths@, l as nat, s as nat),
        decreases n - s,
    {
        let l = lengths[s] as usize;
        proof {
            lemma_count_of_bound(lengths@, l as nat, s as nat);
        }
        let c = count[l];
        count.set(l, c + 1);
        s = s + 1;
    }
    count
}

/// Computes the least codeword of each length.
fn first_codes(lengths: &Vec<u8>, count: &Vec<u32>) -> (first: Vec<u32>)
    requires
        lengths_wf(lengths@),
        count@.len() == 16,
        forall|l: int| 0 <= l <= 15 ==> #[trigger] count@[l] == total_of(lengths@, l as nat),
    ensures
        first@.len() == 16,
        forall|l: int| 1 <= l <= 15 ==> #[trigger] first@[l] == first_code(lengths@, l as nat),
{
    let mut first: Vec<u32> = vec![0u32; 16];
    let mut l: usize = 2;
    while l <= 15
        invariant
            2 <= l <= 16,
            lengths_wf(lengths@),
            count@.len() == 16,
            first@.len() == 16,
            forall|j: int| 0 <= j <= 15 ==> #[trigger] count@[j] == total_of(lengths@, j as nat),
            forall|j: int| 1 <= j < l ==> #[trigger] first@[j] == first_code(lengths@, j as nat),
        decreases 16 - l,
    {
        proof {
            lemma_first_code_bound(lengths@, (l - 1) as nat);
            lemma_exp2_monotone((l - 1) as nat, 14);
            lemma_exp2_14();
            let e = exp2((l - 1) as nat);
            let n = lengths@.len();
            assert((e - 1) * n <= 0x4000 * 0x1_0000) by (nonlinear_arith)
                requires
                    1 <= e <= 0x4000,
                    n <= 0x1_0000,
            ;
        }
        let value = 2 * (first[l - 1] + count[l - 1]);
        first.set(l, value);
        l = l + 1;
    }
    first
}

/// Two to the power of 14 and of 15.
pub proof fn lemma_exp2_14()
    ensures
        exp2(14) == 0x4000,
        exp2(15) == 0x8000,
{
    lemma_exp2_table();
    assert(exp2(14) == 64 * exp2(8)) by {
        reveal_with_fuel(exp2, 7);
    }
    assert(exp2(15) == 2 * exp2(14)) by {
        reveal_with_fuel(exp2, 2);
    }
}

} // verus!
