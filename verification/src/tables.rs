//! What a compressed meta-block fixes before its commands: the block
//! types of the three categories, the parameters of the distances, the
//! context modes and maps, and the prefix trees.

use vstd::prelude::*;
use crate::bits::{
    BitStream, exp2, stream_len, take_bits, took, within, lemma_stream_uint_bound,
    lemma_exp2_values,
};
use crate::blocks::{
    BlockCodes, BlockState, BlockSwitch, block_count_codes, create_block_count_codes,
    take_block_setup,
};
use crate::codes::{
    CodeEntry, bltype_codes, create_block_type_codes, create_wbits_codes, parse_n_bltypes,
    take_n_bltypes, wbits_codes,
};
use crate::command::{CommandTables, LengthCode, distance_alphabet_size};
use crate::complex::{parse_prefix_code, power_of_two, take_prefix_code};
use crate::context::{
    ContextTables, entries_below, parse_context_map, parse_context_modes_literals,
    take_context_map, take_context_modes,
};
use crate::error::DecompressorError;
use crate::prefix::{PrefixTree, TreeModel, model_below};

verus! {

/// The tables that the format fixes once and for all.
pub struct Constants {
    pub wbits_codes: Vec<CodeEntry>,
    pub bltype_codes: Vec<CodeEntry>,
    pub block_counts: Vec<LengthCode>,
    pub command: CommandTables,
    pub context: ContextTables,
}

impl Constants {
    /// The tables hold what the format fixes.
    pub open spec fn wf(&self) -> bool {
        &&& self.wbits_codes@ == wbits_codes()
        &&& self.bltype_codes@ == bltype_codes()
        &&& self.block_counts@ == block_count_codes()
        &&& self.command.wf()
        &&& self.context.wf()
    }

    /// Builds the tables.
    pub fn new() -> (constants: Constants)
        ensures
            constants.wf(),
    {
        Constants {
            wbits_codes: create_wbits_codes(),
            bltype_codes: create_block_type_codes(),
            block_counts: create_block_count_codes(),
            command: CommandTables::new(),
            context: ContextTables::new(),
        }
    }
}

/// The number of literals.
pub const LITERAL_SYMBOLS: usize = 256;

/// The codes of a trees' list.
pub open spec fn tree_models(trees: Seq<PrefixTree>) -> Seq<TreeModel> {
    Seq::new(trees.len(), |k: int| trees[k].model())
}

/// Every tree of the list is well formed and gives symbols below `bound`
/// only.
pub open spec fn trees_wf(trees: Seq<PrefixTree>, bound: nat) -> bool {
    forall|k: int|
        0 <= k < trees.len() ==> (#[trigger] trees[k]).wf() && model_below(trees[k].model(), bound)
}

/// What reading the descriptions of `count` more prefix codes over an
/// alphabet of `alphabet_size` symbols gives, `front` being the codes read
/// so far.
pub open spec fn take_trees(bytes: Seq<u8>, pos: nat, count: nat, alphabet_size: nat, front: Seq<TreeModel>) -> Result<
    (Seq<TreeModel>, nat),
    DecompressorError,
>
    decreases count,
{
    if count == 0 {
        Ok((front, pos))
    } else {
        match take_prefix_code(bytes, pos, alphabet_size) {
            Err(e) => Err(e),
            Ok((tree, next)) => take_trees(
                bytes,
                next,
                (count - 1) as nat,
                alphabet_size,
                front.push(tree),
            ),
        }
    }
}

/// Reads the descriptions of `count` prefix codes and builds their trees.
pub fn parse_trees(stream: &mut BitStream, count: u16, alphabet_size: usize) -> (r: Result<Vec<PrefixTree>, DecompressorError>)
    requires
        old(stream).wf(),
        alphabet_size <= 0x1_0000,
    ensures
        final(stream).same_input(old(stream)),
        final(stream).pos() >= old(stream).pos(),
        match take_trees(
            old(stream).bytes(),
            old(stream).pos(),
            count as nat,
            alphabet_size as nat,
            Seq::empty(),
        ) {
            Err(e) => r matches Err(x) && x == e,
            Ok((models, next)) => {
                &&& r matches Ok(trees)
                &&& tree_models(trees@) == models
                &&& trees@.len() == count
                &&& trees_wf(trees@, alphabet_size as nat)
                &&& final(stream).pos() == next
            },
        },
{
    let mut trees: Vec<PrefixTree> = Vec::new();
    let mut k: u16 = 0;
    assert(tree_models(trees@) =~= Seq::empty());
    while k < count
        invariant
            stream.same_input(old(stream)),
            stream.pos() >= old(stream).pos(),
            alphabet_size <= 0x1_0000,
            k <= count,
            trees@.len() == k,
            trees_wf(trees@, alphabet_size as nat),
            take_trees(
                old(stream).bytes(),
                old(stream).pos(),
                count as nat,
                alphabet_size as nat,
                Seq::empty(),
            ) == take_trees(
                stream.bytes(),
                stream.pos(),
                (count - k) as nat,
                alphabet_size as nat,
                tree_models(trees@),
            ),
        decreases count - k,
    {
        let tree = match parse_prefix_code(stream, alphabet_size) {
            Ok(tree) => tree,
            Err(e) => {
                return Err(e);
            },
        };
        let ghost before = trees@;
        trees.push(tree);
        assert(tree_models(trees@) =~= tree_models(before).push(tree.model()));
        k = k + 1;
    }
    Ok(trees)
}

/// The block types of the three categories.
pub struct CategoryCodes {
    pub literal: BlockCodes,
    pub command: BlockCodes,
    pub distance: BlockCodes,
}

/// Where the three categories stand.
pub struct BlockStates {
    pub literal: BlockState,
    pub command: BlockState,
    pub distance: BlockState,
}

/// The context modes of the literals' block types, and the context maps
/// of the literals and of the distances.
pub struct ContextModel {
    pub modes: Seq<u8>,
    pub map_l: Seq<u8>,
    pub map_d: Seq<u8>,
}

/// The prefix codes of the literals, of the insert-and-copy symbols and of
/// the distances.
pub struct TreeModels {
    pub literal: Seq<TreeModel>,
    pub command: Seq<TreeModel>,
    pub distance: Seq<TreeModel>,
}

/// What a compressed meta-block fixes before its commands, as the
/// contracts see it.
pub struct Codes {
    pub blocks: CategoryCodes,
    /// NPOSTFIX and NDIRECT.
    pub n_postfix: u8,
    pub n_direct: u8,
    pub contexts: ContextModel,
    pub trees: TreeModels,
}

/// What reading NPOSTFIX and NDIRECT gives: two bits are NPOSTFIX, and
/// four bits times two to the power of NPOSTFIX are NDIRECT.
#[verifier::opaque]
pub open spec fn take_distance_parameters(bytes: Seq<u8>, pos: nat) -> Result<
    ((u8, u8), nat),
    DecompressorError,
> {
    match take_bits(bytes, pos, 2) {
        Err(e) => Err(e),
        Ok((n_postfix, p1)) => match take_bits(bytes, p1, 4) {
            Err(e) => Err(e),
            Ok((direct, p2)) => Ok(
                ((n_postfix as u8, (direct * exp2(n_postfix)) as u8), p2),
            ),
        },
    }
}

/// Reads NPOSTFIX.
pub fn parse_n_postfix(stream: &mut BitStream) -> (r: Result<u8, DecompressorError>)
    requires
        old(stream).wf(),
    ensures
        final(stream).same_input(old(stream)),
        final(stream).pos() >= old(stream).pos(),
        took(r, final(stream).pos(), crate::bits::take_u8(old(stream).bytes(), old(stream).pos(), 2)),
        r matches Ok(n) ==> n <= 3,
{
    proof {
        lemma_stream_uint_bound(stream.bytes(), stream.pos() as int, 2);
        lemma_exp2_values();
    }
    stream.read_u8_from_n_bits(2)
}

/// Reads NDIRECT, which is written in units of two to the power of
/// NPOSTFIX.
pub fn parse_n_direct(stream: &mut BitStream, n_postfix: u8) -> (r: Result<u8, DecompressorError>)
    requires
        old(stream).wf(),
        n_postfix <= 3,
    ensures
        final(stream).same_input(old(stream)),
        final(stream).pos() >= old(stream).pos(),
        match take_bits(old(stream).bytes(), old(stream).pos(), 4) {
            Err(e) => r matches Err(x) && x == e,
            Ok((direct, next)) => {
                &&& r matches Ok(n)
                &&& n == direct * exp2(n_postfix as nat)
                &&& final(stream).pos() == next
            },
        },
        r matches Ok(n) ==> n <= 120,
{
    proof {
        lemma_stream_uint_bound(stream.bytes(), stream.pos() as int, 4);
        lemma_exp2_values();
    }
    match stream.read_u8_from_n_bits(4) {
        Ok(direct) => {
            let unit = power_of_two(n_postfix);
            assert(direct * unit <= 120) by (nonlinear_arith)
                requires
                    direct <= 15,
                    unit <= 8,
            ;
            Ok(direct * unit as u8)
        },
        Err(e) => Err(e),
    }
}

/// What reading the block types of the three categories gives: those of
/// the literals, then those of the commands, then those of the distances.
#[verifier::opaque]
pub open spec fn take_block_setups(bytes: Seq<u8>, pos: nat) -> Result<
    ((CategoryCodes, BlockStates), nat),
    DecompressorError,
> {
    match take_block_setup(bytes, pos) {
        Err(e) => Err(e),
        Ok(((literal, literal_state), p1)) => match take_block_setup(bytes, p1) {
            Err(e) => Err(e),
            Ok(((command, command_state), p2)) => match take_block_setup(bytes, p2) {
                Err(e) => Err(e),
                Ok(((distance, distance_state), p3)) => Ok(
                    (
                        (
                            CategoryCodes { literal, command, distance },
                            BlockStates {
                                literal: literal_state,
                                command: command_state,
                                distance: distance_state,
                            },
                        ),
                        p3,
                    ),
                ),
            },
        },
    }
}

/// The blocks of the three categories of a meta-block.
pub struct Blocks {
    pub literal: BlockSwitch,
    pub command: BlockSwitch,
    pub distance: BlockSwitch,
}

impl Blocks {
    /// The three categories are well formed.
    pub open spec fn wf(&self) -> bool {
        self.literal.wf() && self.command.wf() && self.distance.wf()
    }

    /// What the categories fix.
    pub open spec fn codes(&self) -> CategoryCodes {
        CategoryCodes {
            literal: self.literal.codes(),
            command: self.command.codes(),
            distance: self.distance.codes(),
        }
    }

    /// Where the categories stand.
    pub open spec fn states(&self) -> BlockStates {
        BlockStates {
            literal: self.literal.state(),
            command: self.command.state(),
            distance: self.distance.state(),
        }
    }

    /// Reads the block types of the three categories.
    pub fn parse(stream: &mut BitStream, constants: &Constants) -> (r: Result<Blocks, DecompressorError>)
        requires
            old(stream).wf(),
            constants.wf(),
        ensures
            final(stream).same_input(old(stream)),
            final(stream).pos() >= old(stream).pos(),
            match take_block_setups(old(stream).bytes(), old(stream).pos()) {
                Err(e) => r matches Err(x) && x == e,
                Ok(((codes, states), next)) => {
                    &&& r matches Ok(blocks)
                    &&& blocks.wf()
                    &&& blocks.codes() == codes
                    &&& blocks.states() == states
                    &&& final(stream).pos() == next
                },
            },
    {
        reveal(take_block_setups);
        let literal = match BlockSwitch::parse(stream, &constants.bltype_codes, &constants.block_counts) {
            Ok(blocks) => blocks,
            Err(e) => {
                return Err(e);
            },
        };
        let command = match BlockSwitch::parse(stream, &constants.bltype_codes, &constants.block_counts) {
            Ok(blocks) => blocks,
            Err(e) => {
                return Err(e);
            },
        };
        let distance = match BlockSwitch::parse(stream, &constants.bltype_codes, &constants.block_counts) {
            Ok(blocks) => blocks,
            Err(e) => {
                return Err(e);
            },
        };
        Ok(Blocks { literal, command, distance })
    }
}

/// What reading the context modes and the two context maps gives, and the
/// numbers of prefix trees of the literals and of the distances, which
/// stand before their maps. The map of the literals has 64 entries for
/// each block type, the map of the distances 4.
#[verifier::opaque]
pub open spec fn take_contexts(bytes: Seq<u8>, pos: nat, n_types_l: u16, n_types_d: u16) -> Result<
    ((ContextModel, u16, u16), nat),
    DecompressorError,
> {
    match take_context_modes(bytes, pos, n_types_l as nat, Seq::empty()) {
        Err(e) => Err(e),
        Ok((modes, p1)) => match take_n_bltypes(bytes, p1) {
            Err(e) => Err(e),
            Ok((n_trees_l, p2)) => match take_context_map(bytes, p2, n_trees_l, 64 * n_types_l as nat) {
                Err(e) => Err(e),
                Ok((map_l, p3)) => match take_n_bltypes(bytes, p3) {
                    Err(e) => Err(e),
                    Ok((n_trees_d, p4)) => match take_context_map(
                        bytes,
                        p4,
                        n_trees_d,
                        4 * n_types_d as nat,
                    ) {
                        Err(e) => Err(e),
                        Ok((map_d, p5)) => Ok(
                            ((ContextModel { modes, map_l, map_d }, n_trees_l, n_trees_d), p5),
                        ),
                    },
                },
            },
        },
    }
}

/// The context modes and the context maps of a meta-block.
pub struct Contexts {
    pub modes: Vec<u8>,
    pub map_l: Vec<u8>,
    pub map_d: Vec<u8>,
    pub n_trees_l: u16,
    pub n_trees_d: u16,
}

impl Contexts {
    /// The modes and maps as the contracts see them.
    pub open spec fn view(&self) -> ContextModel {
        ContextModel { modes: self.modes@, map_l: self.map_l@, map_d: self.map_d@ }
    }

    /// There is a mode for each block type of the literals, the maps have
    /// their sizes, and their entries are numbers of trees.
    pub open spec fn wf(&self, n_types_l: u16, n_types_d: u16) -> bool {
        &&& self.modes@.len() == n_types_l
        &&& forall|k: int| 0 <= k < self.modes@.len() ==> #[trigger] self.modes@[k] < 4
        &&& self.map_l@.len() == 64 * n_types_l
        &&& self.map_d@.len() == 4 * n_types_d
        &&& 1 <= self.n_trees_l <= 256
        &&& 1 <= self.n_trees_d <= 256
        &&& entries_below(self.map_l@, self.n_trees_l as nat)
        &&& entries_below(self.map_d@, self.n_trees_d as nat)
    }

    /// Reads the context modes and the two context maps.
    pub fn parse(stream: &mut BitStream, constants: &Constants, n_types_l: u16, n_types_d: u16) -> (r: Result<
        Contexts,
        DecompressorError,
    >)
        requires
            old(stream).wf(),
            constants.wf(),
            1 <= n_types_l <= 256,
            1 <= n_types_d <= 256,
        ensures
            final(stream).same_input(old(stream)),
            final(stream).pos() >= old(stream).pos(),
            match take_contexts(old(stream).bytes(), old(stream).pos(), n_types_l, n_types_d) {
                Err(e) => r matches Err(x) && x == e,
                Ok(((model, n_trees_l, n_trees_d), next)) => {
                    &&& r matches Ok(contexts)
                    &&& contexts.wf(n_types_l, n_types_d)
                    &&& contexts@ == model
                    &&& contexts.n_trees_l == n_trees_l
                    &&& contexts.n_trees_d == n_trees_d
                    &&& final(stream).pos() == next
                },
            },
    {
        reveal(take_contexts);
        let modes = match parse_context_modes_literals(stream, n_types_l) {
            Ok(v) => v,
            Err(e) => {
                return Err(e);
            },
        };
        let n_trees_l = match parse_n_bltypes(stream, &constants.bltype_codes) {
            Ok(v) => v,
            Err(e) => {
                return Err(e);
            },
        };
        let map_l = match parse_context_map(stream, n_trees_l, 64 * n_types_l as usize) {
            Ok(v) => v,
            Err(e) => {
                return Err(e);
            },
        };
        let n_trees_d = match parse_n_bltypes(stream, &constants.bltype_codes) {
            Ok(v) => v,
            Err(e) => {
                return Err(e);
            },
        };
        let map_d = match parse_context_map(stream, n_trees_d, 4 * n_types_d as usize) {
            Ok(v) => v,
            Err(e) => {
                return Err(e);
            },
        };
        Ok(Contexts { modes, map_l, map_d, n_trees_l, n_trees_d })
    }
}

/// What reading the prefix codes of a meta-block gives: those of the
/// literals, over 256 symbols; those of the insert-and-copy symbols, one
/// for each block type of the commands, over 704 symbols; and those of the
/// distances, over the distance symbols.
#[verifier::opaque]
pub open spec fn take_code_trees(bytes: Seq<u8>, pos: nat, n_trees_l: u16, n_types_i: u16, n_trees_d: u16, distance_symbols: nat) -> Result<
    (TreeModels, nat),
    DecompressorError,
> {
    match take_trees(bytes, pos, n_trees_l as nat, LITERAL_SYMBOLS as nat, Seq::empty()) {
        Err(e) => Err(e),
        Ok((literal, p1)) => match take_trees(
            bytes,
            p1,
            n_types_i as nat,
            crate::command::INSERT_AND_COPY_SYMBOLS as nat,
            Seq::empty(),
        ) {
            Err(e) => Err(e),
            Ok((command, p2)) => match take_trees(
                bytes,
                p2,
                n_trees_d as nat,
                distance_symbols,
                Seq::empty(),
            ) {
                Err(e) => Err(e),
                Ok((distance, p3)) => Ok((TreeModels { literal, command, distance }, p3)),
            },
        },
    }
}

/// The prefix trees of a meta-block.
pub struct Trees {
    pub literal: Vec<PrefixTree>,
    pub command: Vec<PrefixTree>,
    pub distance: Vec<PrefixTree>,
}

impl Trees {
    /// The codes of the trees.
    pub open spec fn view(&self) -> TreeModels {
        TreeModels {
            literal: tree_models(self.literal@),
            command: tree_models(self.command@),
            distance: tree_models(self.distance@),
        }
    }

    /// The lists have their lengths, and each tree gives symbols of its
    /// alphabet only.
    pub open spec fn wf(&self, n_trees_l: u16, n_types_i: u16, n_trees_d: u16, distance_symbols: nat) -> bool {
        &&& self.literal@.len() == n_trees_l
        &&& self.command@.len() == n_types_i
        &&& self.distance@.len() == n_trees_d
        &&& trees_wf(self.literal@, LITERAL_SYMBOLS as nat)
        &&& trees_wf(self.command@, crate::command::INSERT_AND_COPY_SYMBOLS as nat)
        &&& trees_wf(self.distance@, distance_symbols)
    }

    /// Reads the prefix codes of a meta-block.
    pub fn parse(stream: &mut BitStream, n_trees_l: u16, n_types_i: u16, n_trees_d: u16, distance_symbols: usize) -> (r: Result<
        Trees,
        DecompressorError,
    >)
        requires
            old(stream).wf(),
            distance_symbols <= 0x1_0000,
        ensures
            final(stream).same_input(old(stream)),
            final(stream).pos() >= old(stream).pos(),
            match take_code_trees(
                old(stream).bytes(),
                old(stream).pos(),
                n_trees_l,
                n_types_i,
                n_trees_d,
                distance_symbols as nat,
            ) {
                Err(e) => r matches Err(x) && x == e,
                Ok((models, next)) => {
                    &&& r matches Ok(trees)
                    &&& trees.wf(n_trees_l, n_types_i, n_trees_d, distance_symbols as nat)
                    &&& trees@ == models
                    &&& final(stream).pos() == next
                },
            },
    {
        reveal(take_code_trees);
        let literal = match parse_trees(stream, n_trees_l, LITERAL_SYMBOLS) {
            Ok(v) => v,
            Err(e) => {
                return Err(e);
            },
        };
        let command = match parse_trees(stream, n_types_i, crate::command::INSERT_AND_COPY_SYMBOLS) {
            Ok(v) => v,
            Err(e) => {
                return Err(e);
            },
        };
        let distance = match parse_trees(stream, n_trees_d, distance_symbols) {
            Ok(v) => v,
            Err(e) => {
                return Err(e);
            },
        };
        Ok(Trees { literal, command, distance })
    }
}

/// What reading all that a compressed meta-block fixes before its
/// commands gives: the block types, NPOSTFIX and NDIRECT, the context
/// modes and maps, and the prefix codes.
#[verifier::opaque]
pub open spec fn take_codes(bytes: Seq<u8>, pos: nat) -> Result<
    ((Codes, BlockStates), nat),
    DecompressorError,
> {
    match take_block_setups(bytes, pos) {
        Err(e) => Err(e),
        Ok(((blocks, states), p1)) => match take_distance_parameters(bytes, p1) {
            Err(e) => Err(e),
            Ok(((n_postfix, n_direct), p2)) => match take_contexts(
                bytes,
                p2,
                blocks.literal.n_types,
                blocks.distance.n_types,
            ) {
                Err(e) => Err(e),
                Ok(((contexts, n_trees_l, n_trees_d), p3)) => match take_code_trees(
                    bytes,
                    p3,
                    n_trees_l,
                    blocks.command.n_types,
                    n_trees_d,
                    distance_alphabet_size(n_postfix, n_direct),
                ) {
                    Err(e) => Err(e),
                    Ok((trees, p4)) => Ok(
                        ((Codes { blocks, n_postfix, n_direct, contexts, trees }, states), p4),
                    ),
                },
            },
        },
    }
}

/// What a compressed meta-block fixes before its commands, apart from the
/// blocks.
pub struct MetaBlockTables {
    pub n_postfix: u8,
    pub n_direct: u8,
    pub contexts: Contexts,
    pub trees: Trees,
}

impl MetaBlockTables {
    /// The tables fit the numbers of block types.
    pub open spec fn wf(&self, blocks: CategoryCodes) -> bool {
        &&& self.n_postfix <= 3
        &&& self.n_direct <= 120
        &&& self.contexts.wf(blocks.literal.n_types, blocks.distance.n_types)
        &&& self.trees.wf(
            self.contexts.n_trees_l,
            blocks.command.n_types,
            self.contexts.n_trees_d,
            distance_alphabet_size(self.n_postfix, self.n_direct),
        )
    }

    /// The tables and the blocks' codes as the contracts see them.
    pub open spec fn codes(&self, blocks: CategoryCodes) -> Codes {
        Codes {
            blocks,
            n_postfix: self.n_postfix,
            n_direct: self.n_direct,
            contexts: self.contexts@,
            trees: self.trees@,
        }
    }
}

/// Reads NPOSTFIX and NDIRECT.
pub fn parse_distance_parameters(stream: &mut BitStream) -> (r: Result<(u8, u8), DecompressorError>)
    requires
        old(stream).wf(),
    ensures
        final(stream).same_input(old(stream)),
        final(stream).pos() >= old(stream).pos(),
        took(r, final(stream).pos(), take_distance_parameters(old(stream).bytes(), old(stream).pos())),
        r matches Ok((n_postfix, n_direct)) ==> n_postfix <= 3 && n_direct <= 120,
{
    reveal(take_distance_parameters);
    proof {
        lemma_stream_uint_bound(stream.bytes(), stream.pos() as int, 2);
        lemma_stream_uint_bound(stream.bytes(), stream.pos() as int + 2, 4);
        lemma_exp2_values();
    }
    let n_postfix = match parse_n_postfix(stream) {
        Ok(v) => v,
        Err(e) => {
            return Err(e);
        },
    };
    let n_direct = match parse_n_direct(stream, n_postfix) {
        Ok(v) => v,
        Err(e) => {
            return Err(e);
        },
    };
    Ok((n_postfix, n_direct))
}

/// Computes the number of distance symbols.
pub fn count_distance_symbols(n_postfix: u8, n_direct: u8) -> (n: usize)
    requires
        n_postfix <= 3,
        n_direct <= 120,
    ensures
        n == distance_alphabet_size(n_postfix, n_direct),
        n <= 520,
{
    proof {
        lemma_exp2_values();
    }
    16 + n_direct as usize + 48 * power_of_two(n_postfix) as usize
}

/// Reads all that a compressed meta-block fixes before its commands.
pub fn parse_codes(stream: &mut BitStream, constants: &Constants) -> (r: Result<
    (Blocks, MetaBlockTables),
    DecompressorError,
>)
    requires
        old(stream).wf(),
        constants.wf(),
    ensures
        final(stream).same_input(old(stream)),
        final(stream).pos() >= old(stream).pos(),
        match take_codes(old(stream).bytes(), old(stream).pos()) {
            Err(e) => r matches Err(x) && x == e,
            Ok(((codes, states), next)) => {
                &&& r matches Ok((blocks, tables))
                &&& blocks.wf()
                &&& tables.wf(blocks.codes())
                &&& tables.codes(blocks.codes()) == codes
                &&& blocks.states() == states
                &&& final(stream).pos() == next
            },
        },
{
    reveal(take_codes);
    let blocks = match Blocks::parse(stream, constants) {
        Ok(v) => v,
        Err(e) => {
            return Err(e);
        },
    };
    let (n_postfix, n_direct) = match parse_distance_parameters(stream) {
        Ok(v) => v,
        Err(e) => {
            return Err(e);
        },
    };
    let n_types_l = blocks.literal.count_types();
    let n_types_i = blocks.command.count_types();
    let n_types_d = blocks.distance.count_types();
    let contexts = match Contexts::parse(stream, constants, n_types_l, n_types_d) {
        Ok(v) => v,
        Err(e) => {
            return Err(e);
        },
    };
    let distance_symbols = count_distance_symbols(n_postfix, n_direct);
    let trees = match Trees::parse(
        stream,
        contexts.n_trees_l,
        n_types_i,
        contexts.n_trees_d,
        distance_symbols,
    ) {
        Ok(v) => v,
        Err(e) => {
            return Err(e);
        },
    };
    Ok((blocks, MetaBlockTables { n_postfix, n_direct, contexts, trees }))
}

/// The descriptions of prefix codes that were read lie within the stream.
pub proof fn lemma_trees_within(bytes: Seq<u8>, pos: nat, count: nat, alphabet_size: nat, front: Seq<TreeModel>)
    requires
        pos <= stream_len(bytes),
    ensures
        take_trees(bytes, pos, count, alphabet_size, front) matches Ok((trees, next)) ==> within(
            bytes,
            pos,
            next,
        ),
    decreases count,
{
    if count > 0 {
        crate::complex::lemma_prefix_code_within(bytes, pos, alphabet_size);
        match take_prefix_code(bytes, pos, alphabet_size) {
            Err(e) => {},
            Ok((tree, next)) => {
                lemma_trees_within(bytes, next, (count - 1) as nat, alphabet_size, front.push(tree));
            },
        }
    }
}

/// All that a compressed meta-block fixes before its commands, once it
/// was read, lies within the stream.
pub proof fn lemma_codes_within(bytes: Seq<u8>, pos: nat)
    requires
        pos <= stream_len(bytes),
    ensures
        take_codes(bytes, pos) matches Ok((found, next)) ==> within(bytes, pos, next),
{
    reveal(take_block_setups);
    reveal(take_codes);
    crate::blocks::lemma_block_setup_within(bytes, pos);
    match take_block_setup(bytes, pos) {
        Err(e) => {},
        Ok(((literal, literal_state), p1)) => {
            crate::blocks::lemma_block_setup_within(bytes, p1);
            match take_block_setup(bytes, p1) {
                Err(e) => {},
                Ok(((command, command_state), p2)) => {
                    crate::blocks::lemma_block_setup_within(bytes, p2);
                    match take_block_setup(bytes, p2) {
                        Err(e) => {},
                        Ok(((distance, distance_state), p3)) => {
                            lemma_codes_tail_within(bytes, p3, literal.n_types, command.n_types, distance.n_types);
                        },
                    }
                },
            }
        },
    }
}

/// What follows the block types, once it was read, lies within the
/// stream.
proof fn lemma_codes_tail_within(bytes: Seq<u8>, pos: nat, n_types_l: u16, n_types_i: u16, n_types_d: u16)
    requires
        pos <= stream_len(bytes),
    ensures
        take_distance_parameters(bytes, pos) matches Ok(((n_postfix, n_direct), p1)) ==> (
        take_contexts(bytes, p1, n_types_l, n_types_d) matches Ok(((contexts, n_trees_l, n_trees_d), p2))
            ==> (take_code_trees(
            bytes,
            p2,
            n_trees_l,
            n_types_i,
            n_trees_d,
            distance_alphabet_size(n_postfix, n_direct),
        ) matches Ok((trees, p3)) ==> within(bytes, pos, p3))),
{
    reveal(take_distance_parameters);
    reveal(take_contexts);
    reveal(take_code_trees);
    match take_distance_parameters(bytes, pos) {
        Err(e) => {},
        Ok(((n_postfix, n_direct), p1)) => {
            lemma_contexts_within(bytes, p1, n_types_l, n_types_d);
            match take_contexts(bytes, p1, n_types_l, n_types_d) {
                Err(e) => {},
                Ok(((contexts, n_trees_l, n_trees_d), p2)) => {
                    lemma_code_trees_within(
                        bytes,
                        p2,
                        n_trees_l,
                        n_types_i,
                        n_trees_d,
                        distance_alphabet_size(n_postfix, n_direct),
                    );
                },
            }
        },
    }
}

/// The context modes and maps that were read lie within the stream.
pub proof fn lemma_contexts_within(bytes: Seq<u8>, pos: nat, n_types_l: u16, n_types_d: u16)
    requires
        pos <= stream_len(bytes),
    ensures
        take_contexts(bytes, pos, n_types_l, n_types_d) matches Ok((found, next)) ==> within(
            bytes,
            pos,
            next,
        ),
{
    reveal(take_contexts);
    crate::context::lemma_context_modes_within(bytes, pos, n_types_l as nat, Seq::empty());
    match take_context_modes(bytes, pos, n_types_l as nat, Seq::empty()) {
        Err(e) => {},
        Ok((modes, p1)) => {
            crate::codes::lemma_n_bltypes_within(bytes, p1);
            match take_n_bltypes(bytes, p1) {
                Err(e) => {},
                Ok((n_trees_l, p2)) => {
                    crate::context::lemma_context_map_within(bytes, p2, n_trees_l, 64 * n_types_l as nat);
                    match take_context_map(bytes, p2, n_trees_l, 64 * n_types_l as nat) {
                        Err(e) => {},
                        Ok((map_l, p3)) => {
                            crate::codes::lemma_n_bltypes_within(bytes, p3);
                            match take_n_bltypes(bytes, p3) {
                                Err(e) => {},
                                Ok((n_trees_d, p4)) => {
                                    crate::context::lemma_context_map_within(
                                        bytes,
                                        p4,
                                        n_trees_d,
                                        4 * n_types_d as nat,
                                    );
                                },
                            }
                        },
                    }
                },
            }
        },
    }
}

/// The prefix codes of a meta-block that were read lie within the stream.
pub proof fn lemma_code_trees_within(bytes: Seq<u8>, pos: nat, n_trees_l: u16, n_types_i: u16, n_trees_d: u16, distance_symbols: nat)
    requires
        pos <= stream_len(bytes),
    ensures
        take_code_trees(bytes, pos, n_trees_l, n_types_i, n_trees_d, distance_symbols) matches Ok(
            (trees, next),
        ) ==> within(bytes, pos, next),
{
    reveal(take_code_trees);
    lemma_trees_within(bytes, pos, n_trees_l as nat, LITERAL_SYMBOLS as nat, Seq::empty());
    match take_trees(bytes, pos, n_trees_l as nat, LITERAL_SYMBOLS as nat, Seq::empty()) {
        Err(e) => {},
        Ok((literal, p1)) => {
            lemma_trees_within(
                bytes,
                p1,
                n_types_i as nat,
                crate::command::INSERT_AND_COPY_SYMBOLS as nat,
                Seq::empty(),
            );
            match take_trees(
                bytes,
                p1,
                n_types_i as nat,
                crate::command::INSERT_AND_COPY_SYMBOLS as nat,
                Seq::empty(),
            ) {
                Err(e) => {},
                Ok((command, p2)) => {
                    lemma_trees_within(bytes, p2, n_trees_d as nat, distance_symbols, Seq::empty());
                },
            }
        },
    }
}

} // verus!
