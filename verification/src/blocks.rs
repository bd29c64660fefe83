//! Block switching. The literals, the commands and the distances of a
//! meta-block are each cut into blocks; a block has a type, which chooses
//! the prefix trees, and a count of the items that it holds.

use vstd::prelude::*;
use crate::bits::{
    BitStream, exp2, stream_len, take_bits, within, lemma_stream_uint_bound, lemma_exp2_table,
    lemma_exp2_monotone,
};
use crate::codes::{
    CodeEntry, parse_n_bltypes, take_n_bltypes, bltype_codes, lemma_n_bltypes_within,
};
use crate::command::LengthCode;
use crate::complex::{parse_prefix_code, take_prefix_code, lemma_prefix_code_within};
use crate::error::DecompressorError;
use crate::prefix::{
    PrefixTree, TreeModel, model_below, take_prefix_symbol, lemma_prefix_symbol_pos,
};

verus! {

/// The block count codes, from 0 to 25.
pub open spec fn block_count_codes() -> Seq<LengthCode> {
    seq![
        LengthCode { base: 1, extra_bits: 2 },
        LengthCode { base: 5, extra_bits: 2 },
        LengthCode { base: 9, extra_bits: 2 },
        LengthCode { base: 13, extra_bits: 2 },
        LengthCode { base: 17, extra_bits: 3 },
        LengthCode { base: 25, extra_bits: 3 },
        LengthCode { base: 33, extra_bits: 3 },
        LengthCode { base: 41, extra_bits: 3 },
        LengthCode { base: 49, extra_bits: 4 },
        LengthCode { base: 65, extra_bits: 4 },
        LengthCode { base: 81, extra_bits: 4 },
        LengthCode { base: 97, extra_bits: 4 },
        LengthCode { base: 113, extra_bits: 5 },
        LengthCode { base: 145, extra_bits: 5 },
        LengthCode { base: 177, extra_bits: 5 },
        LengthCode { base: 209, extra_bits: 5 },
        LengthCode { base: 241, extra_bits: 6 },
        LengthCode { base: 305, extra_bits: 6 },
        LengthCode { base: 369, extra_bits: 7 },
        LengthCode { base: 497, extra_bits: 8 },
        LengthCode { base: 753, extra_bits: 9 },
        LengthCode { base: 1265, extra_bits: 10 },
        LengthCode { base: 2289, extra_bits: 11 },
        LengthCode { base: 4337, extra_bits: 12 },
        LengthCode { base: 8433, extra_bits: 13 },
        LengthCode { base: 16625, extra_bits: 24 },
    ]
}

/// The number of block count codes.
pub const BLOCK_COUNT_SYMBOLS: usize = 26;

/// Builds the table of the block count codes.
pub fn create_block_count_codes() -> (codes: Vec<LengthCode>)
    ensures
        codes@ == block_count_codes(),
{
    let mut codes: Vec<LengthCode> = Vec::new();
    codes.push(LengthCode { base: 1, extra_bits: 2 });
    codes.push(LengthCode { base: 5, extra_bits: 2 });
    codes.push(LengthCode { base: 9, extra_bits: 2 });
    codes.push(LengthCode { base: 13, extra_bits: 2 });
    codes.push(LengthCode { base: 17, extra_bits: 3 });
    codes.push(LengthCode { base: 25, extra_bits: 3 });
    codes.push(LengthCode { base: 33, extra_bits: 3 });
    codes.push(LengthCode { base: 41, extra_bits: 3 });
    codes.push(LengthCode { base: 49, extra_bits: 4 });
    codes.push(LengthCode { base: 65, extra_bits: 4 });
    codes.push(LengthCode { base: 81, extra_bits: 4 });
    codes.push(LengthCode { base: 97, extra_bits: 4 });
    codes.push(LengthCode { base: 113, extra_bits: 5 });
    codes.push(LengthCode { base: 145, extra_bits: 5 });
    codes.push(LengthCode { base: 177, extra_bits: 5 });
    codes.push(LengthCode { base: 209, extra_bits: 5 });
    codes.push(LengthCode { base: 241, extra_bits: 6 });
    codes.push(LengthCode { base: 305, extra_bits: 6 });
    codes.push(LengthCode { base: 369, extra_bits: 7 });
    codes.push(LengthCode { base: 497, extra_bits: 8 });
    codes.push(LengthCode { base: 753, extra_bits: 9 });
    codes.push(LengthCode { base: 1265, extra_bits: 10 });
    codes.push(LengthCode { base: 2289, extra_bits: 11 });
    codes.push(LengthCode { base: 4337, extra_bits: 12 });
    codes.push(LengthCode { base: 8433, extra_bits: 13 });
    codes.push(LengthCode { base: 16625, extra_bits: 24 });
    assert(codes@ =~= block_count_codes());
    codes
}

/// What a category of a meta-block fixes: the number of block types and,
/// where there are several, the prefix codes of the types and of the
/// counts.
pub struct BlockCodes {
    pub n_types: u16,
    pub type_tree: TreeModel,
    pub count_tree: TreeModel,
}

/// Where a category stands: the type of the block, the type of the block
/// before it, and the number of items that the block still holds.
pub struct BlockState {
    pub current: u16,
    pub previous: u16,
    pub remaining: u32,
}

/// What reading a block count gives: the least count of the symbol's row
/// plus the value of the extra bits.
#[verifier::opaque]
pub open spec fn take_block_count(count_tree: TreeModel, bytes: Seq<u8>, pos: nat) -> Result<
    (u32, nat),
    DecompressorError,
> {
    match take_prefix_symbol(count_tree, bytes, pos) {
        Err(e) => Err(e),
        Ok((symbol, p1)) => {
            let row = block_count_codes()[symbol as int];
            match take_bits(bytes, p1, row.extra_bits as nat) {
                Err(e) => Err(e),
                Ok((extra, p2)) => Ok(((row.base + extra) as u32, p2)),
            }
        },
    }
}

/// The type of the next block for a symbol of the type code: symbol 0 is
/// the type of the block before this one, symbol 1 the type after this
/// one, going round to 0 behind the last type, and any other symbol is
/// the type that is 2 less.
pub open spec fn next_block_type(symbol: u16, state: BlockState, n_types: u16) -> u16 {
    let chosen = if symbol == 0 {
        state.previous as int
    } else if symbol == 1 {
        state.current + 1
    } else {
        symbol - 2
    };
    if chosen >= n_types {
        (chosen - n_types) as u16
    } else {
        chosen as u16
    }
}

/// What reading a block switch gives: the symbol of the next type, then
/// the count of the next block.
#[verifier::opaque]
pub open spec fn take_block_switch(codes: BlockCodes, bytes: Seq<u8>, pos: nat, state: BlockState) -> Result<
    (BlockState, nat),
    DecompressorError,
> {
    match take_prefix_symbol(codes.type_tree, bytes, pos) {
        Err(e) => Err(e),
        Ok((symbol, p1)) => match take_block_count(codes.count_tree, bytes, p1) {
            Err(e) => Err(e),
            Ok((count, p2)) => Ok(
                (
                    BlockState {
                        current: next_block_type(symbol, state, codes.n_types),
                        previous: state.current,
                        remaining: count,
                    },
                    p2,
                ),
            ),
        },
    }
}

/// What one item of a category does to its blocks. With one block type
/// nothing is read and nothing changes. Otherwise a block that holds no
/// more items is followed by a block switch, and the item is taken off the
/// count.
#[verifier::opaque]
pub open spec fn take_block_item(codes: BlockCodes, bytes: Seq<u8>, pos: nat, state: BlockState) -> Result<
    (BlockState, nat),
    DecompressorError,
> {
    if codes.n_types < 2 {
        Ok((state, pos))
    } else if state.remaining == 0 {
        match take_block_switch(codes, bytes, pos, state) {
            Err(e) => Err(e),
            Ok((switched, next)) => Ok(
                (BlockState { remaining: (switched.remaining - 1) as u32, ..switched }, next),
            ),
        }
    } else {
        Ok((BlockState { remaining: (state.remaining - 1) as u32, ..state }, pos))
    }
}

/// A block count that was read lies within the stream.
pub proof fn lemma_block_count_within(count_tree: TreeModel, bytes: Seq<u8>, pos: nat)
    requires
        pos <= stream_len(bytes),
    ensures
        take_block_count(count_tree, bytes, pos) matches Ok((count, next)) ==> within(
            bytes,
            pos,
            next,
        ),
{
    reveal(take_block_count);
    lemma_prefix_symbol_pos(count_tree, bytes, pos);
}

/// An item of a category moves the stream forward or leaves it.
pub proof fn lemma_block_item_pos(codes: BlockCodes, bytes: Seq<u8>, pos: nat, state: BlockState)
    ensures
        take_block_item(codes, bytes, pos, state) matches Ok((after, next)) ==> next >= pos && (pos
            <= stream_len(bytes) ==> next <= stream_len(bytes)),
{
    reveal(take_block_switch);
    reveal(take_block_count);
    reveal(take_block_item);
    if codes.n_types >= 2 && state.remaining == 0 {
        lemma_prefix_symbol_pos(codes.type_tree, bytes, pos);
        match take_prefix_symbol(codes.type_tree, bytes, pos) {
            Err(e) => {},
            Ok((symbol, p1)) => {
                lemma_prefix_symbol_pos(codes.count_tree, bytes, p1);
            },
        }
    }
}

/// The block types of a category that were read lie within the stream.
pub proof fn lemma_block_setup_within(bytes: Seq<u8>, pos: nat)
    requires
        pos <= stream_len(bytes),
    ensures
        take_block_setup(bytes, pos) matches Ok((setup, next)) ==> within(bytes, pos, next),
{
    reveal(take_block_setup);
    lemma_n_bltypes_within(bytes, pos);
    match take_n_bltypes(bytes, pos) {
        Err(e) => {},
        Ok((n_types, p1)) => {
            if n_types >= 2 {
                lemma_prefix_code_within(bytes, p1, (n_types + 2) as nat);
                match take_prefix_code(bytes, p1, (n_types + 2) as nat) {
                    Err(e) => {},
                    Ok((type_tree, p2)) => {
                        lemma_prefix_code_within(bytes, p2, BLOCK_COUNT_SYMBOLS as nat);
                        match take_prefix_code(bytes, p2, BLOCK_COUNT_SYMBOLS as nat) {
                            Err(e) => {},
                            Ok((count_tree, p3)) => {
                                lemma_block_count_within(count_tree, bytes, p3);
                            },
                        }
                    },
                }
            }
        },
    }
}

/// What reading the block types of a category at the start of a
/// meta-block gives: the number of types and, where there are several, the
/// prefix code of the types, over the types and two more symbols, the
/// prefix code of the counts, and the count of the first block. The first
/// block has type 0, and type 1 counts as the type before it.
#[verifier::opaque]
pub open spec fn take_block_setup(bytes: Seq<u8>, pos: nat) -> Result<
    ((BlockCodes, BlockState), nat),
    DecompressorError,
> {
    match take_n_bltypes(bytes, pos) {
        Err(e) => Err(e),
        Ok((n_types, p1)) => if n_types < 2 {
            Ok(
                (
                    (
                        BlockCodes {
                            n_types,
                            type_tree: TreeModel::Single(0),
                            count_tree: TreeModel::Single(0),
                        },
                        BlockState { current: 0, previous: 1, remaining: 0 },
                    ),
                    p1,
                ),
            )
        } else {
            match take_prefix_code(bytes, p1, (n_types + 2) as nat) {
                Err(e) => Err(e),
                Ok((type_tree, p2)) => match take_prefix_code(bytes, p2, BLOCK_COUNT_SYMBOLS as nat) {
                    Err(e) => Err(e),
                    Ok((count_tree, p3)) => match take_block_count(count_tree, bytes, p3) {
                        Err(e) => Err(e),
                        Ok((count, p4)) => Ok(
                            (
                                (
                                    BlockCodes { n_types, type_tree, count_tree },
                                    BlockState { current: 0, previous: 1, remaining: count },
                                ),
                                p4,
                            ),
                        ),
                    },
                },
            }
        },
    }
}

/// The blocks of one category of a meta-block.
pub struct BlockSwitch {
    n_types: u16,
    type_tree: PrefixTree,
    count_tree: PrefixTree,
    current: u16,
    previous: u16,
    remaining: u32,
}

/// Reads a block count.
fn parse_block_count(stream: &mut BitStream, count_tree: &PrefixTree, counts: &Vec<LengthCode>) -> (r: Result<
    u32,
    DecompressorError,
>)
    requires
        old(stream).wf(),
        count_tree.wf(),
        model_below(count_tree.model(), BLOCK_COUNT_SYMBOLS as nat),
        counts@ == block_count_codes(),
    ensures
        final(stream).same_input(old(stream)),
        final(stream).pos() >= old(stream).pos(),
        crate::bits::took(
            r,
            final(stream).pos(),
            take_block_count(count_tree.model(), old(stream).bytes(), old(stream).pos()),
        ),
        r matches Ok(count) ==> 1 <= count <= 0x0100_40f0,
        final(stream).pos() >= old(stream).pos(),
{
    reveal(take_block_count);
    let symbol = match count_tree.lookup_symbol(stream) {
        Ok(symbol) => symbol,
        Err(e) => {
            return Err(e);
        },
    };
    assert(symbol < 26);
    let row = counts[symbol as usize];
    proof {
        lemma_stream_uint_bound(stream.bytes(), stream.pos() as int, row.extra_bits as nat);
        lemma_exp2_monotone(row.extra_bits as nat, 24);
        lemma_exp2_table();
    }
    match stream.read_u32_from_n_bits(row.extra_bits) {
        Ok(extra) => Ok(row.base + extra),
        Err(e) => Err(e),
    }
}

impl BlockSwitch {
    /// What the category fixes.
    pub closed spec fn codes(&self) -> BlockCodes {
        BlockCodes {
            n_types: self.n_types,
            type_tree: self.type_tree.model(),
            count_tree: self.count_tree.model(),
        }
    }

    /// Where the category stands.
    pub closed spec fn state(&self) -> BlockState {
        BlockState { current: self.current, previous: self.previous, remaining: self.remaining }
    }

    /// The types lie below their number, and the trees give symbols of
    /// their alphabets only.
    pub closed spec fn wf(&self) -> bool {
        &&& 1 <= self.n_types <= 256
        &&& self.type_tree.wf()
        &&& self.count_tree.wf()
        &&& self.current < self.n_types
        &&& self.n_types >= 2 ==> {
            &&& self.previous < self.n_types
            &&& model_below(self.type_tree.model(), (self.n_types + 2) as nat)
            &&& model_below(self.count_tree.model(), BLOCK_COUNT_SYMBOLS as nat)
        }
    }

    /// The number of block types.
    pub open spec fn n_types(&self) -> u16 {
        self.codes().n_types
    }

    /// Reads the block types of a category at the start of a meta-block.
    pub fn parse(stream: &mut BitStream, bltype_codes: &Vec<CodeEntry>, counts: &Vec<LengthCode>) -> (r: Result<
        BlockSwitch,
        DecompressorError,
    >)
        requires
            old(stream).wf(),
            bltype_codes@ == crate::codes::bltype_codes(),
            counts@ == block_count_codes(),
        ensures
            final(stream).same_input(old(stream)),
            final(stream).pos() >= old(stream).pos(),
            match take_block_setup(old(stream).bytes(), old(stream).pos()) {
                Err(e) => r matches Err(x) && x == e,
                Ok(((codes, state), next)) => {
                    &&& r matches Ok(blocks)
                    &&& blocks.wf()
                    &&& blocks.codes() == codes
                    &&& blocks.state() == state
                    &&& final(stream).pos() == next
                },
            },
    {
        reveal(take_block_setup);
        let n_types = match parse_n_bltypes(stream, bltype_codes) {
            Ok(n) => n,
            Err(e) => {
                return Err(e);
            },
        };
        if n_types < 2 {
            return Ok(
                BlockSwitch {
                    n_types,
                    type_tree: PrefixTree::new_single(0),
                    count_tree: PrefixTree::new_single(0),
                    current: 0,
                    previous: 1,
                    remaining: 0,
                },
            );
        }
        let type_tree = match parse_prefix_code(stream, n_types as usize + 2) {
            Ok(tree) => tree,
            Err(e) => {
                return Err(e);
            },
        };
        let count_tree = match parse_prefix_code(stream, BLOCK_COUNT_SYMBOLS) {
            Ok(tree) => tree,
            Err(e) => {
                return Err(e);
            },
        };
        let count = match parse_block_count(stream, &count_tree, counts) {
            Ok(count) => count,
            Err(e) => {
                return Err(e);
            },
        };
        Ok(BlockSwitch { n_types, type_tree, count_tree, current: 0, previous: 1, remaining: count })
    }

    /// The number of block types.
    pub fn count_types(&self) -> (n: u16)
        requires
            self.wf(),
        ensures
            n == self.codes().n_types,
            1 <= n <= 256,
    {
        self.n_types
    }

    /// The type of the block that the category is in.
    pub fn current_type(&self) -> (t: u16)
        requires
            self.wf(),
        ensures
            t == self.state().current,
            t < self.codes().n_types,
    {
        self.current
    }

    /// Takes one item of the category into account: switches to the next
    /// block where this one holds no more, and counts the item.
    pub fn item(&mut self, stream: &mut BitStream, counts: &Vec<LengthCode>) -> (r: Result<(), DecompressorError>)
        requires
            old(self).wf(),
            old(stream).wf(),
            counts@ == block_count_codes(),
        ensures
            final(stream).same_input(old(stream)),
            final(stream).pos() >= old(stream).pos(),
            final(self).wf(),
            final(self).codes() == old(self).codes(),
            match take_block_item(
                old(self).codes(),
                old(stream).bytes(),
                old(stream).pos(),
                old(self).state(),
            ) {
                Err(e) => r matches Err(x) && x == e,
                Ok((state, next)) => r is Ok && final(self).state() == state && final(stream).pos()
                    == next,
            },
            final(stream).pos() >= old(stream).pos(),
    {
        reveal(take_block_switch);
        reveal(take_block_item);
        if self.n_types < 2 {
            return Ok(());
        }
        if self.remaining == 0 {
            let symbol = match self.type_tree.lookup_symbol(stream) {
                Ok(symbol) => symbol,
                Err(e) => {
                    return Err(e);
                },
            };
            assert(symbol < self.n_types + 2);
            let count = match parse_block_count(stream, &self.count_tree, counts) {
                Ok(count) => count,
                Err(e) => {
                    return Err(e);
                },
            };
            let chosen: u16 = if symbol == 0 {
                self.previous
            } else if symbol == 1 {
                self.current + 1
            } else {
                symbol - 2
            };
            let next: u16 = if chosen >= self.n_types {
                chosen - self.n_types
            } else {
                chosen
            };
            self.previous = self.current;
            self.current = next;
            self.remaining = count;
        }
        self.remaining = self.remaining - 1;
        Ok(())
    }
}

} // verus!
