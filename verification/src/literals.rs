//! The literals of a command: each is read with the prefix tree that its
//! block type and its context choose.

use vstd::prelude::*;
use crate::bits::BitStream;
use crate::blocks::{BlockState, take_block_item};
use crate::context::context_id;
use crate::error::DecompressorError;
use crate::prefix::take_prefix_symbol;
use crate::tables::{Blocks, Codes, Constants, MetaBlockTables};
use crate::window::{WindowBuffer, last_byte, second_last_byte};

verus! {

/// `after` is `before` with bytes added at its end.
pub open spec fn extends(after: Seq<u8>, before: Seq<u8>) -> bool {
    before.len() <= after.len() && after.subrange(0, before.len() as int) == before
}

/// The output from byte `from` on.
pub open spec fn tail(output: Seq<u8>, from: nat) -> Seq<u8> {
    output.subrange(from as int, output.len() as int)
}

/// A sink that has taken the output from `start` up to a first state, and
/// then what the output gained up to a second state, has taken the output
/// from `start` on.
pub proof fn lemma_sink_step(sink0: Seq<u8>, sink1: Seq<u8>, sink2: Seq<u8>, start: nat, out1: Seq<u8>, out2: Seq<u8>)
    requires
        start <= out1.len(),
        sink1 == sink0 + tail(out1, start),
        sink2 == sink1 + tail(out2, out1.len()),
        extends(out2, out1),
    ensures
        sink2 == sink0 + tail(out2, start),
        extends(sink2, sink0),
        extends(sink1, sink0),
{
    assert(tail(out1, start) =~= out2.subrange(start as int, out1.len() as int));
    assert(tail(out2, start) =~= out2.subrange(start as int, out1.len() as int) + tail(
        out2,
        out1.len(),
    ));
    assert(sink2 =~= sink0 + tail(out2, start));
    assert(sink2.subrange(0, sink0.len() as int) =~= sink0);
    assert(sink1.subrange(0, sink0.len() as int) =~= sink0);
}

/// A sink that has taken nothing yet.
pub proof fn lemma_sink_start(sink: Seq<u8>, output: Seq<u8>)
    ensures
        sink == sink + tail(output, output.len()),
        extends(sink, sink),
        extends(output, output),
{
    assert(sink =~= sink + tail(output, output.len()));
    assert(sink.subrange(0, sink.len() as int) =~= sink);
    assert(output.subrange(0, output.len() as int) =~= output);
}

/// What is added to what was added is added.
pub proof fn lemma_extends_trans(a: Seq<u8>, b: Seq<u8>, c: Seq<u8>)
    requires
        extends(b, a),
        extends(c, b),
    ensures
        extends(c, a),
{
    assert(c.subrange(0, a.len() as int) =~= c.subrange(0, b.len() as int).subrange(
        0,
        a.len() as int,
    ));
}

/// What reading one literal gives. The literal counts as an item of its
/// category. Its context comes from the two bytes before it, by the mode
/// of the block type; the context map of the literals gives, for the block
/// type and the context, the prefix tree by which it is read.
#[verifier::opaque]
pub open spec fn take_literal(codes: Codes, bytes: Seq<u8>, pos: nat, state: BlockState, output: Seq<u8>) -> Result<
    ((BlockState, u8), nat),
    DecompressorError,
> {
    match take_block_item(codes.blocks.literal, bytes, pos, state) {
        Err(e) => Err(e),
        Ok((after, p1)) => {
            let context = context_id(
                codes.contexts.modes[after.current as int],
                last_byte(output),
                second_last_byte(output),
            );
            let tree = codes.contexts.map_l[64 * after.current + context];
            match take_prefix_symbol(codes.trees.literal[tree as int], bytes, p1) {
                Err(e) => Err(e),
                Ok((symbol, p2)) => Ok(((after, symbol as u8), p2)),
            }
        },
    }
}

/// What the literals of a command change: the place in the stream, the
/// blocks of the literals, and the output.
pub struct LiteralRun {
    pub pos: nat,
    pub state: BlockState,
    pub output: Seq<u8>,
}

/// What reading `count` literals gives.
pub open spec fn take_literals(codes: Codes, bytes: Seq<u8>, run: LiteralRun, count: nat) -> Result<
    LiteralRun,
    DecompressorError,
>
    decreases count,
{
    if count == 0 {
        Ok(run)
    } else {
        match take_literal(codes, bytes, run.pos, run.state, run.output) {
            Err(e) => Err(e),
            Ok(((state, literal), next)) => take_literals(
                codes,
                bytes,
                LiteralRun { pos: next, state, output: run.output.push(literal) },
                (count - 1) as nat,
            ),
        }
    }
}

/// `count` literals make the output `count` bytes longer.
pub proof fn lemma_literals_len(codes: Codes, bytes: Seq<u8>, run: LiteralRun, count: nat)
    ensures
        take_literals(codes, bytes, run, count) matches Ok(after) ==> after.output.len()
            == run.output.len() + count && extends(after.output, run.output) && after.pos >= run.pos,
    decreases count,
{
    reveal(take_literal);
    if count > 0 {
        match take_literal(codes, bytes, run.pos, run.state, run.output) {
            Err(e) => {},
            Ok(((state, literal), next)) => {
                let step = LiteralRun { pos: next, state, output: run.output.push(literal) };
                lemma_literals_len(codes, bytes, step, (count - 1) as nat);
                match take_literals(codes, bytes, step, (count - 1) as nat) {
                    Ok(after) => {
                        assert(after.output.subrange(0, run.output.len() as int)
                            =~= after.output.subrange(0, step.output.len() as int).subrange(
                            0,
                            run.output.len() as int,
                        ));
                        assert(step.output.subrange(0, run.output.len() as int) =~= run.output);
                        crate::blocks::lemma_block_item_pos(
                            codes.blocks.literal,
                            bytes,
                            run.pos,
                            run.state,
                        );
                        crate::prefix::lemma_prefix_symbol_pos(
                            codes.trees.literal[codes.contexts.map_l[64 * state.current + context_id(
                                codes.contexts.modes[state.current as int],
                                last_byte(run.output),
                                second_last_byte(run.output),
                            )] as int],
                            bytes,
                            take_block_item(codes.blocks.literal, bytes, run.pos, run.state)->Ok_0.1,
                        );
                    },
                    Err(e) => {},
                }
            },
        }
    } else {
        assert(run.output.subrange(0, run.output.len() as int) =~= run.output);
    }
}

/// Reads one literal and emits it.
pub fn read_literal(stream: &mut BitStream, window: &mut WindowBuffer, blocks: &mut Blocks, tables: &MetaBlockTables, constants: &Constants, sink: &mut Vec<u8>) -> (r: Result<
    (),
    DecompressorError,
>)
    requires
        old(stream).wf(),
        old(window).wf(),
        old(blocks).wf(),
        tables.wf(old(blocks).codes()),
        constants.wf(),
    ensures
        final(stream).same_input(old(stream)),
        final(window).wf(),
        final(window).size() == old(window).size(),
        final(blocks).wf(),
        final(blocks).codes() == old(blocks).codes(),
        final(blocks).states().command == old(blocks).states().command,
        final(blocks).states().distance == old(blocks).states().distance,
        extends(final(sink)@, old(sink)@),
        final(stream).pos() >= old(stream).pos(),
        match take_literal(
            tables.codes(old(blocks).codes()),
            old(stream).bytes(),
            old(stream).pos(),
            old(blocks).states().literal,
            old(window).output(),
        ) {
            Err(e) => r matches Err(x) && x == e,
            Ok(((state, literal), next)) => {
                &&& r is Ok
                &&& final(blocks).states().literal == state
                &&& final(stream).pos() == next
                &&& final(window).output() == old(window).output().push(literal)
                &&& final(sink)@ == old(sink)@.push(literal)
            },
        },
{
    reveal(take_literal);
    assert(old(sink)@.subrange(0, old(sink)@.len() as int) =~= old(sink)@);
    match blocks.literal.item(stream, &constants.block_counts) {
        Ok(()) => {},
        Err(e) => {
            return Err(e);
        },
    }
    let block_type = blocks.literal.current_type() as usize;
    let mode = tables.contexts.modes[block_type];
    let context = constants.context.literal_context(mode, window.p1(), window.p2());
    let tree = tables.contexts.map_l[64 * block_type + context as usize] as usize;
    assert(tree < tables.trees.literal@.len());
    assert(tables.trees.literal@[tree as int].wf());
    let symbol = match tables.trees.literal[tree].lookup_symbol(stream) {
        Ok(symbol) => symbol,
        Err(e) => {
            return Err(e);
        },
    };
    assert(symbol < 256);
    window.emit(symbol as u8, sink);
    assert(sink@.subrange(0, old(sink)@.len() as int) =~= old(sink)@);
    Ok(())
}

/// Reads `count` literals and emits them.
pub fn read_literals(stream: &mut BitStream, window: &mut WindowBuffer, blocks: &mut Blocks, tables: &MetaBlockTables, constants: &Constants, sink: &mut Vec<u8>, count: u32) -> (r: Result<
    (),
    DecompressorError,
>)
    requires
        old(stream).wf(),
        old(window).wf(),
        old(blocks).wf(),
        tables.wf(old(blocks).codes()),
        constants.wf(),
    ensures
        final(stream).same_input(old(stream)),
        final(window).wf(),
        final(window).size() == old(window).size(),
        final(blocks).wf(),
        final(blocks).codes() == old(blocks).codes(),
        final(blocks).states().command == old(blocks).states().command,
        final(blocks).states().distance == old(blocks).states().distance,
        extends(final(sink)@, old(sink)@),
        final(stream).pos() >= old(stream).pos(),
        match take_literals(
            tables.codes(old(blocks).codes()),
            old(stream).bytes(),
            LiteralRun {
                pos: old(stream).pos(),
                state: old(blocks).states().literal,
                output: old(window).output(),
            },
            count as nat,
        ) {
            Err(e) => r matches Err(x) && x == e,
            Ok(run) => {
                &&& r is Ok
                &&& final(blocks).states().literal == run.state
                &&& final(stream).pos() == run.pos
                &&& final(window).output() == run.output
                &&& extends(run.output, old(window).output())
                &&& run.output.len() == old(window).count_output() + count
                &&& final(sink)@ == old(sink)@ + tail(run.output, old(window).count_output())
            },
        },
{
    let ghost codes = tables.codes(old(blocks).codes());
    let ghost start = old(window).count_output();
    let mut done: u32 = 0;
    proof {
        lemma_sink_start(sink@, window.output());
    }
    while done < count
        invariant
            stream.same_input(old(stream)),
            window.wf(),
            window.size() == old(window).size(),
            blocks.wf(),
            blocks.codes() == old(blocks).codes(),
            codes == tables.codes(old(blocks).codes()),
            tables.wf(old(blocks).codes()),
            constants.wf(),
            blocks.states().command == old(blocks).states().command,
            blocks.states().distance == old(blocks).states().distance,
            done <= count,
            stream.pos() >= old(stream).pos(),
            start == old(window).count_output(),
            window.output().len() == start + done,
            extends(sink@, old(sink)@),
            extends(window.output(), old(window).output()),
            sink@ == old(sink)@ + tail(window.output(), start),
            take_literals(
                codes,
                old(stream).bytes(),
                LiteralRun {
                    pos: old(stream).pos(),
                    state: old(blocks).states().literal,
                    output: old(window).output(),
                },
                count as nat,
            ) == take_literals(
                codes,
                stream.bytes(),
                LiteralRun {
                    pos: stream.pos(),
                    state: blocks.states().literal,
                    output: window.output(),
                },
                (count - done) as nat,
            ),
        decreases count - done,
    {
        let ghost sunk = sink@;
        let ghost was = window.output();
        match read_literal(stream, window, blocks, tables, constants, sink) {
            Ok(()) => {},
            Err(e) => {
                proof {
                    lemma_extends_trans(old(sink)@, sunk, sink@);
                }
                return Err(e);
            },
        }
        done = done + 1;
        proof {
            let output = window.output();
            assert(output.subrange(0, was.len() as int) =~= was);
            assert(tail(output, was.len()) =~= seq![output[was.len() as int]]);
            assert(sink@ =~= sunk + tail(output, was.len()));
            lemma_sink_step(old(sink)@, sunk, sink@, start, was, output);
            lemma_extends_trans(old(window).output(), was, output);
        }
    }
    Ok(())
}

} // verus!
