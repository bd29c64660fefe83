//! The commands of a compressed meta-block. A command inserts literals and
//! then copies bytes: from the window, or out of the dictionary where the
//! distance reaches beyond the window.

use vstd::prelude::*;
use crate::bits::{BitStream, stream_len};
use crate::blocks::{BlockState, take_block_item};
use crate::command::{
    MAX_WINDOW, decode_distance, decode_insert_and_copy_length, implicit_distance, ring_wf,
    take_distance, take_insert_and_copy_length,
};
use crate::context::{distance_context, distance_context_of};
use crate::dictionary::{Dictionary, Transform, dictionary_word};
use crate::error::DecompressorError;
use crate::literals::{
    LiteralRun, extends, read_literals, tail, take_literals, lemma_extends_trans,
    lemma_sink_start, lemma_sink_step,
};
use crate::prefix::take_prefix_symbol;
use crate::tables::{BlockStates, Blocks, Codes, Constants, MetaBlockTables};
use crate::window::{DistanceRing, WindowBuffer, copied, ring_pushed, lemma_copied_len};

verus! {

/// What a meta-block finds when it starts: the window size, the
/// dictionary, and the length that the output has when the meta-block is
/// done.
pub struct Env {
    pub window_size: nat,
    pub words: Seq<u8>,
    pub transforms: Seq<Transform>,
    pub end: nat,
}

/// What the commands change: the place in the stream, the output, the
/// ring of distances, and the blocks of the three categories.
pub struct Machine {
    pub pos: nat,
    pub output: Seq<u8>,
    pub ring: DistanceRing,
    pub blocks: BlockStates,
}

/// What reading the head of a command gives: the command counts as an
/// item of its category; its symbol is read with the prefix tree of the
/// block type, and the symbol's extra bits give the two lengths.
#[verifier::opaque]
pub open spec fn take_command_head(codes: Codes, bytes: Seq<u8>, pos: nat, state: BlockState) -> Result<
    ((BlockState, u16, u32, u32), nat),
    DecompressorError,
> {
    match take_block_item(codes.blocks.command, bytes, pos, state) {
        Err(e) => Err(e),
        Ok((after, p1)) => match take_prefix_symbol(
            codes.trees.command[after.current as int],
            bytes,
            p1,
        ) {
            Err(e) => Err(e),
            Ok((symbol, p2)) => match take_insert_and_copy_length(bytes, p2, symbol) {
                Err(e) => Err(e),
                Ok(((insert_length, copy_length), p3)) => Ok(
                    ((after, symbol, insert_length, copy_length), p3),
                ),
            },
        },
    }
}

/// Reads the head of a command.
pub fn read_command_head(stream: &mut BitStream, blocks: &mut Blocks, tables: &MetaBlockTables, constants: &Constants) -> (r: Result<
    (u16, u32, u32),
    DecompressorError,
>)
    requires
        old(stream).wf(),
        old(blocks).wf(),
        tables.wf(old(blocks).codes()),
        constants.wf(),
    ensures
        final(stream).same_input(old(stream)),
        final(stream).pos() >= old(stream).pos(),
        final(blocks).wf(),
        final(blocks).codes() == old(blocks).codes(),
        final(blocks).states().literal == old(blocks).states().literal,
        final(blocks).states().distance == old(blocks).states().distance,
        match take_command_head(
            tables.codes(old(blocks).codes()),
            old(stream).bytes(),
            old(stream).pos(),
            old(blocks).states().command,
        ) {
            Err(e) => r matches Err(x) && x == e,
            Ok(((state, symbol, insert_length, copy_length), next)) => {
                &&& r == Ok::<(u16, u32, u32), DecompressorError>((symbol, insert_length, copy_length))
                &&& final(blocks).states().command == state
                &&& final(stream).pos() == next
                &&& 2 <= copy_length <= 0x0100_0845
            },
        },
{
    reveal(take_command_head);
    match blocks.command.item(stream, &constants.block_counts) {
        Ok(()) => {},
        Err(e) => {
            return Err(e);
        },
    }
    let block_type = blocks.command.current_type() as usize;
    assert(tables.trees.command@[block_type as int].wf());
    let symbol = match tables.trees.command[block_type].lookup_symbol(stream) {
        Ok(symbol) => symbol,
        Err(e) => {
            return Err(e);
        },
    };
    assert(symbol < 704);
    match decode_insert_and_copy_length(stream, &constants.command, symbol) {
        Ok((insert_length, copy_length)) => Ok((symbol, insert_length, copy_length)),
        Err(e) => Err(e),
    }
}

/// What finding the distance of a command gives: the distance, and
/// whether it enters the ring. A command whose symbol is below 128 uses
/// the last distance again, and nothing is read. For any other the
/// distance counts as an item of its category; its symbol is read with the
/// prefix tree that the context map of the distances gives for the block
/// type and the copy length, and every symbol but 0 stands for a distance
/// that enters the ring.
#[verifier::opaque]
pub open spec fn take_command_distance(codes: Codes, bytes: Seq<u8>, pos: nat, state: BlockState, ring: DistanceRing, symbol: u16, copy_length: u32) -> Result<
    ((BlockState, u32, bool), nat),
    DecompressorError,
> {
    if implicit_distance(symbol) {
        Ok(((state, ring.d0, false), pos))
    } else {
        match take_block_item(codes.blocks.distance, bytes, pos, state) {
            Err(e) => Err(e),
            Ok((after, p1)) => {
                let tree = codes.contexts.map_d[4 * after.current + distance_context(copy_length)];
                match take_prefix_symbol(codes.trees.distance[tree as int], bytes, p1) {
                    Err(e) => Err(e),
                    Ok((distance_symbol, p2)) => match take_distance(
                        bytes,
                        p2,
                        distance_symbol,
                        codes.n_postfix,
                        codes.n_direct,
                        ring,
                    ) {
                        Err(e) => Err(e),
                        Ok((distance, p3)) => Ok(((after, distance, distance_symbol != 0), p3)),
                    },
                }
            },
        }
    }
}

/// Finds the distance of a command.
pub fn read_command_distance(stream: &mut BitStream, blocks: &mut Blocks, tables: &MetaBlockTables, constants: &Constants, ring: &DistanceRing, symbol: u16, copy_length: u32) -> (r: Result<
    (u32, bool),
    DecompressorError,
>)
    requires
        old(stream).wf(),
        old(blocks).wf(),
        tables.wf(old(blocks).codes()),
        constants.wf(),
        ring_wf(*ring),
    ensures
        final(stream).same_input(old(stream)),
        final(stream).pos() >= old(stream).pos(),
        final(blocks).wf(),
        final(blocks).codes() == old(blocks).codes(),
        final(blocks).states().literal == old(blocks).states().literal,
        final(blocks).states().command == old(blocks).states().command,
        match take_command_distance(
            tables.codes(old(blocks).codes()),
            old(stream).bytes(),
            old(stream).pos(),
            old(blocks).states().distance,
            *ring,
            symbol,
            copy_length,
        ) {
            Err(e) => r matches Err(x) && x == e,
            Ok(((state, distance, enters), next)) => {
                &&& r == Ok::<(u32, bool), DecompressorError>((distance, enters))
                &&& final(blocks).states().distance == state
                &&& final(stream).pos() == next
                &&& 1 <= distance <= 0x3fff_fffc
            },
        },
{
    reveal(take_command_distance);
    if symbol < 128 {
        return Ok((ring.d0, false));
    }
    match blocks.distance.item(stream, &constants.block_counts) {
        Ok(()) => {},
        Err(e) => {
            return Err(e);
        },
    }
    let block_type = blocks.distance.current_type() as usize;
    let context = distance_context_of(copy_length) as usize;
    let tree = tables.contexts.map_d[4 * block_type + context] as usize;
    assert(tree < tables.trees.distance@.len());
    assert(tables.trees.distance@[tree as int].wf());
    let distance_symbol = match tables.trees.distance[tree].lookup_symbol(stream) {
        Ok(symbol) => symbol,
        Err(e) => {
            return Err(e);
        },
    };
    match decode_distance(stream, distance_symbol, tables.n_postfix, tables.n_direct, ring) {
        Ok(distance) => Ok((distance, distance_symbol != 0)),
        Err(e) => Err(e),
    }
}

/// How far a copy can reach back into the output of a stream with the
/// window size `window_size`.
pub open spec fn reach_of(output: Seq<u8>, window_size: nat) -> nat {
    if output.len() < window_size {
        output.len()
    } else {
        window_size
    }
}

/// What the copy of a command does to the output and to the ring. A
/// distance within reach copies from the output, and enters the ring if
/// it is to. A distance beyond reach stands for a word of the dictionary;
/// the ring stays. Neither may give more bytes than the meta-block has
/// left.
#[verifier::opaque]
pub open spec fn copy_result(env: Env, output: Seq<u8>, ring: DistanceRing, distance: u32, enters: bool, copy_length: u32) -> Result<
    (Seq<u8>, DistanceRing),
    DecompressorError,
> {
    let reach = reach_of(output, env.window_size);
    if distance <= reach {
        if output.len() + copy_length > env.end {
            Err(DecompressorError::InvalidDistance)
        } else {
            Ok(
                (
                    copied(output, distance as nat, copy_length as nat),
                    if enters {
                        ring_pushed(ring, distance)
                    } else {
                        ring
                    },
                ),
            )
        }
    } else {
        match dictionary_word(env.words, env.transforms, copy_length, (distance - reach - 1) as nat) {
            Err(e) => Err(e),
            Ok(word) => if output.len() + word.len() > env.end {
                Err(DecompressorError::InvalidDictionaryRef)
            } else {
                Ok((output + word, ring))
            },
        }
    }
}

/// What a meta-block finds that has `left` bytes to give.
pub open spec fn env_of(window: &WindowBuffer, dictionary: &Dictionary, left: u32) -> Env {
    Env {
        window_size: window.size(),
        words: dictionary.words(),
        transforms: dictionary.transforms(),
        end: window.count_output() + left as nat,
    }
}

/// A copy from the window of `copy_length` bytes makes the output exactly
/// `copy_length` bytes longer; and where its distance enters the ring, the
/// ring behind it holds that distance and, behind it, the three that were
/// the most recent ones before.
pub proof fn lemma_copy_from_window(env: Env, output: Seq<u8>, ring: DistanceRing, distance: u32, enters: bool, copy_length: u32)
    requires
        distance <= reach_of(output, env.window_size),
    ensures
        copy_result(env, output, ring, distance, enters, copy_length) matches Ok((after, ring_after))
            ==> {
            &&& after.len() == output.len() + copy_length
            &&& extends(after, output)
            &&& enters ==> ring_after == (DistanceRing {
                d0: distance,
                d1: ring.d0,
                d2: ring.d1,
                d3: ring.d2,
            })
            &&& !enters ==> ring_after == ring
        },
{
    reveal(copy_result);
    lemma_copied_len(output, distance as nat, copy_length as nat);
}

/// Emits the bytes of `word`.
fn emit_word(window: &mut WindowBuffer, sink: &mut Vec<u8>, word: &Vec<u8>)
    requires
        old(window).wf(),
    ensures
        final(window).wf(),
        final(window).size() == old(window).size(),
        final(window).output() == old(window).output() + word@,
        final(sink)@ == old(sink)@ + word@,
{
    let n = word.len();
    let mut k: usize = 0;
    assert(window.output() =~= old(window).output() + word@.subrange(0, 0));
    assert(sink@ =~= old(sink)@ + word@.subrange(0, 0));
    while k < n
        invariant
            k <= n,
            n == word@.len(),
            window.wf(),
            window.size() == old(window).size(),
            window.output() == old(window).output() + word@.subrange(0, k as int),
            sink@ == old(sink)@ + word@.subrange(0, k as int),
        decreases n - k,
    {
        window.emit(word[k], sink);
        k = k + 1;
        assert(window.output() =~= old(window).output() + word@.subrange(0, k as int));
        assert(sink@ =~= old(sink)@ + word@.subrange(0, k as int));
    }
    assert(word@.subrange(0, n as int) =~= word@);
}

/// Carries out the copy of a command, of which `left` says how many bytes
/// the meta-block has left, and gives how many it has left then.
pub fn apply_copy(window: &mut WindowBuffer, ring: &mut DistanceRing, dictionary: &Dictionary, sink: &mut Vec<u8>, distance: u32, enters: bool, copy_length: u32, left: u32) -> (r: Result<
    u32,
    DecompressorError,
>)
    requires
        old(window).wf(),
        old(window).size() <= MAX_WINDOW,
        ring_wf(*old(ring)),
        dictionary.wf(),
        distance >= 1,
    ensures
        final(window).wf(),
        final(window).size() == old(window).size(),
        ring_wf(*final(ring)),
        extends(final(sink)@, old(sink)@),
        match copy_result(
            env_of(old(window), dictionary, left),
            old(window).output(),
            *old(ring),
            distance,
            enters,
            copy_length,
        ) {
            Err(e) => r matches Err(x) && x == e,
            Ok((output, after)) => {
                &&& r matches Ok(rest)
                &&& final(window).output() == output
                &&& *final(ring) == after
                &&& old(window).count_output() + left == output.len() + rest
                &&& extends(output, old(window).output())
                &&& final(sink)@ == old(sink)@ + tail(output, old(window).count_output())
            },
        },
{
    reveal(copy_result);
    assert(old(sink)@.subrange(0, old(sink)@.len() as int) =~= old(sink)@);
    let reach = window.max_distance();
    if distance as usize <= reach {
        if copy_length > left {
            return Err(DecompressorError::InvalidDistance);
        }
        proof {
            lemma_copied_len(window.output(), distance as nat, copy_length as nat);
        }
        window.copy(copy_length, distance as usize, sink);
        if enters {
            ring.push(distance);
        }
        assert(sink@.subrange(0, old(sink)@.len() as int) =~= old(sink)@);
        return Ok(left - copy_length);
    }
    let word_id: u32 = distance - reach as u32 - 1;
    let word = match dictionary.lookup(copy_length, word_id) {
        Ok(word) => word,
        Err(e) => {
            return Err(e);
        },
    };
    if word.len() > left as usize {
        return Err(DecompressorError::InvalidDictionaryRef);
    }
    emit_word(window, sink, &word);
    assert(sink@.subrange(0, old(sink)@.len() as int) =~= old(sink)@);
    assert(window.output().subrange(0, old(window).output().len() as int) =~= old(window).output());
    assert(tail(window.output(), old(window).count_output()) =~= word@);
    Ok(left - word.len() as u32)
}

/// What the copy of a command gives: the distance is found, and the
/// bytes are copied.
#[verifier::opaque]
pub open spec fn take_command_copy(env: Env, codes: Codes, bytes: Seq<u8>, m: Machine, symbol: u16, copy_length: u32) -> Result<
    Machine,
    DecompressorError,
> {
    match take_command_distance(codes, bytes, m.pos, m.blocks.distance, m.ring, symbol, copy_length) {
        Err(e) => Err(e),
        Ok(((distance_state, distance, enters), p1)) => match copy_result(
            env,
            m.output,
            m.ring,
            distance,
            enters,
            copy_length,
        ) {
            Err(e) => Err(e),
            Ok((output, ring)) => Ok(
                Machine {
                    pos: p1,
                    output,
                    ring,
                    blocks: BlockStates { distance: distance_state, ..m.blocks },
                },
            ),
        },
    }
}

/// What one command gives. Its literals may not be more than the
/// meta-block has left. If the meta-block is full after them the command
/// ends there, whatever its copy length; otherwise its copy follows.
#[verifier::opaque]
pub open spec fn take_command(env: Env, codes: Codes, bytes: Seq<u8>, m: Machine) -> Result<
    Machine,
    DecompressorError,
> {
    match take_command_head(codes, bytes, m.pos, m.blocks.command) {
        Err(e) => Err(e),
        Ok(((command, symbol, insert_length, copy_length), p1)) => if m.output.len() + insert_length
            > env.end {
            Err(DecompressorError::MalformedCode)
        } else {
            match take_literals(
                codes,
                bytes,
                LiteralRun { pos: p1, state: m.blocks.literal, output: m.output },
                insert_length as nat,
            ) {
                Err(e) => Err(e),
                Ok(run) => {
                    let after = Machine {
                        pos: run.pos,
                        output: run.output,
                        ring: m.ring,
                        blocks: BlockStates { literal: run.state, command, distance: m.blocks.distance },
                    };
                    if run.output.len() >= env.end {
                        Ok(after)
                    } else {
                        take_command_copy(env, codes, bytes, after, symbol, copy_length)
                    }
                },
            }
        },
    }
}

/// The command has given a byte or taken a bit, and has kept within the
/// meta-block and the stream.
pub open spec fn advanced(env: Env, bytes: Seq<u8>, before: Machine, after: Machine) -> bool {
    &&& before.output.len() <= after.output.len() <= env.end
    &&& before.pos <= after.pos <= stream_len(bytes)
    &&& before.output.len() < after.output.len() || before.pos < after.pos
}

/// What the commands of a meta-block give: command follows command until
/// the meta-block is full. A command that neither gives a byte nor takes a
/// bit would never end; it counts as a reference that does not exist.
pub open spec fn take_commands(env: Env, codes: Codes, bytes: Seq<u8>, m: Machine) -> Result<
    Machine,
    DecompressorError,
>
    decreases env.end - m.output.len(), stream_len(bytes) - m.pos,
{
    if m.output.len() >= env.end {
        Ok(m)
    } else {
        match take_command(env, codes, bytes, m) {
            Err(e) => Err(e),
            Ok(after) => if advanced(env, bytes, m, after) {
                take_commands(env, codes, bytes, after)
            } else {
                Err(DecompressorError::InvalidDictionaryRef)
            },
        }
    }
}

/// The commands of a meta-block fill it exactly.
pub proof fn lemma_commands_fill(env: Env, codes: Codes, bytes: Seq<u8>, m: Machine)
    requires
        m.output.len() <= env.end,
    ensures
        take_commands(env, codes, bytes, m) matches Ok(after) ==> after.output.len() == env.end
            && after.pos >= m.pos && (m.pos <= stream_len(bytes) ==> after.pos <= stream_len(bytes)),
    decreases env.end - m.output.len(), stream_len(bytes) - m.pos,
{
    if m.output.len() < env.end {
        match take_command(env, codes, bytes, m) {
            Err(e) => {},
            Ok(after) => {
                if advanced(env, bytes, m, after) {
                    lemma_commands_fill(env, codes, bytes, after);
                }
            },
        }
    }
}

/// A command leaves what the output held.
pub proof fn lemma_command_extends(env: Env, codes: Codes, bytes: Seq<u8>, m: Machine)
    ensures
        take_command(env, codes, bytes, m) matches Ok(after) ==> extends(after.output, m.output),
{
    reveal(copy_result);
    reveal(take_command_head);
    reveal(take_command_distance);
    reveal(take_command);
    reveal(take_command_copy);
    assert(m.output.subrange(0, m.output.len() as int) =~= m.output);
    match take_command_head(codes, bytes, m.pos, m.blocks.command) {
        Err(e) => {},
        Ok(((command, symbol, insert_length, copy_length), p1)) => {
            let run0 = LiteralRun { pos: p1, state: m.blocks.literal, output: m.output };
            crate::literals::lemma_literals_len(codes, bytes, run0, insert_length as nat);
            match take_literals(codes, bytes, run0, insert_length as nat) {
                Err(e) => {},
                Ok(run) => {
                    match take_command_distance(
                        codes,
                        bytes,
                        run.pos,
                        m.blocks.distance,
                        m.ring,
                        symbol,
                        copy_length,
                    ) {
                        Err(e) => {},
                        Ok(((distance_state, distance, enters), p2)) => {
                            match copy_result(env, run.output, m.ring, distance, enters, copy_length) {
                                Err(e) => {},
                                Ok((output, ring)) => {
                                    lemma_copied_len(run.output, distance as nat, copy_length as nat);
                                    assert(output.subrange(0, run.output.len() as int)
                                        =~= run.output);
                                    lemma_extends_trans(m.output, run.output, output);
                                },
                            }
                        },
                    }
                },
            }
        },
    }
}

/// The commands of a meta-block leave what the output held.
pub proof fn lemma_commands_extend(env: Env, codes: Codes, bytes: Seq<u8>, m: Machine)
    ensures
        take_commands(env, codes, bytes, m) matches Ok(after) ==> extends(after.output, m.output),
    decreases env.end - m.output.len(), stream_len(bytes) - m.pos,
{
    assert(m.output.subrange(0, m.output.len() as int) =~= m.output);
    if m.output.len() < env.end {
        match take_command(env, codes, bytes, m) {
            Err(e) => {},
            Ok(after) => {
                if advanced(env, bytes, m, after) {
                    lemma_command_extends(env, codes, bytes, m);
                    lemma_commands_extend(env, codes, bytes, after);
                    match take_commands(env, codes, bytes, after) {
                        Ok(end) => {
                            lemma_extends_trans(m.output, after.output, end.output);
                        },
                        Err(e) => {},
                    }
                }
            },
        }
    }
}

/// The state of the commands.
pub open spec fn machine_of(stream: &BitStream, window: &WindowBuffer, ring: &DistanceRing, blocks: &Blocks) -> Machine {
    Machine { pos: stream.pos(), output: window.output(), ring: *ring, blocks: blocks.states() }
}

/// Finds the distance of a command and carries out its copy.
pub fn read_command_copy(stream: &mut BitStream, window: &mut WindowBuffer, ring: &mut DistanceRing, blocks: &mut Blocks, tables: &MetaBlockTables, constants: &Constants, dictionary: &Dictionary, sink: &mut Vec<u8>, left: u32, symbol: u16, copy_length: u32) -> (r: Result<
    u32,
    DecompressorError,
>)
    requires
        old(stream).wf(),
        old(window).wf(),
        old(window).size() <= MAX_WINDOW,
        ring_wf(*old(ring)),
        old(blocks).wf(),
        tables.wf(old(blocks).codes()),
        constants.wf(),
        dictionary.wf(),
    ensures
        final(stream).same_input(old(stream)),
        final(stream).pos() >= old(stream).pos(),
        final(window).wf(),
        final(window).size() == old(window).size(),
        ring_wf(*final(ring)),
        final(blocks).wf(),
        final(blocks).codes() == old(blocks).codes(),
        extends(final(sink)@, old(sink)@),
        match take_command_copy(
            env_of(old(window), dictionary, left),
            tables.codes(old(blocks).codes()),
            old(stream).bytes(),
            machine_of(old(stream), old(window), old(ring), old(blocks)),
            symbol,
            copy_length,
        ) {
            Err(e) => r matches Err(x) && x == e,
            Ok(after) => {
                &&& r matches Ok(rest)
                &&& machine_of(final(stream), final(window), final(ring), final(blocks)) == after
                &&& old(window).count_output() + left == after.output.len() + rest
                &&& extends(after.output, old(window).output())
                &&& final(sink)@ == old(sink)@ + tail(after.output, old(window).count_output())
            },
        },
{
    reveal(take_command_copy);
    proof {
        lemma_sink_start(sink@, window.output());
    }
    let (distance, enters) = match read_command_distance(
        stream,
        blocks,
        tables,
        constants,
        ring,
        symbol,
        copy_length,
    ) {
        Ok(found) => found,
        Err(e) => {
            return Err(e);
        },
    };
    apply_copy(window, ring, dictionary, sink, distance, enters, copy_length, left)
}

/// Reads one command and carries it out. `left` says how many bytes the
/// meta-block has left; the result says how many it has left then.
pub fn read_command(stream: &mut BitStream, window: &mut WindowBuffer, ring: &mut DistanceRing, blocks: &mut Blocks, tables: &MetaBlockTables, constants: &Constants, dictionary: &Dictionary, sink: &mut Vec<u8>, left: u32) -> (r: Result<
    u32,
    DecompressorError,
>)
    requires
        old(stream).wf(),
        old(window).wf(),
        old(window).size() <= MAX_WINDOW,
        ring_wf(*old(ring)),
        old(blocks).wf(),
        tables.wf(old(blocks).codes()),
        constants.wf(),
        dictionary.wf(),
    ensures
        final(stream).same_input(old(stream)),
        final(stream).pos() >= old(stream).pos(),
        final(window).wf(),
        final(window).size() == old(window).size(),
        ring_wf(*final(ring)),
        final(blocks).wf(),
        final(blocks).codes() == old(blocks).codes(),
        extends(final(sink)@, old(sink)@),
        match take_command(
            env_of(old(window), dictionary, left),
            tables.codes(old(blocks).codes()),
            old(stream).bytes(),
            machine_of(old(stream), old(window), old(ring), old(blocks)),
        ) {
            Err(e) => r matches Err(x) && x == e,
            Ok(after) => {
                &&& r matches Ok(rest)
                &&& machine_of(final(stream), final(window), final(ring), final(blocks)) == after
                &&& old(window).count_output() + left == after.output.len() + rest
                &&& extends(after.output, old(window).output())
                &&& final(sink)@ == old(sink)@ + tail(after.output, old(window).count_output())
            },
        },
{
    reveal(take_command);
    let ghost start = old(window).count_output();
    proof {
        lemma_sink_start(sink@, window.output());
    }
    let (symbol, insert_length, copy_length) = match read_command_head(stream, blocks, tables, constants) {
        Ok(head) => head,
        Err(e) => {
            return Err(e);
        },
    };
    if insert_length > left {
        return Err(DecompressorError::MalformedCode);
    }
    match read_literals(stream, window, blocks, tables, constants, sink, insert_length) {
        Ok(()) => {},
        Err(e) => {
            return Err(e);
        },
    }
    let rest = left - insert_length;
    if rest == 0 {
        return Ok(0);
    }
    let ghost inserted = window.output();
    let ghost sunk = sink@;
    assert(env_of(window, dictionary, rest) == env_of(old(window), dictionary, left));
    match read_command_copy(
        stream,
        window,
        ring,
        blocks,
        tables,
        constants,
        dictionary,
        sink,
        rest,
        symbol,
        copy_length,
    ) {
        Ok(after) => {
            proof {
                lemma_sink_step(old(sink)@, sunk, sink@, start, inserted, window.output());
                lemma_extends_trans(old(window).output(), inserted, window.output());
            }
            Ok(after)
        },
        Err(e) => {
            proof {
                lemma_extends_trans(old(sink)@, sunk, sink@);
            }
            Err(e)
        },
    }
}

/// Reads the commands of a meta-block that has `left` bytes to give, and
/// carries them out.
pub fn read_commands(stream: &mut BitStream, window: &mut WindowBuffer, ring: &mut DistanceRing, blocks: &mut Blocks, tables: &MetaBlockTables, constants: &Constants, dictionary: &Dictionary, sink: &mut Vec<u8>, left: u32) -> (r: Result<
    (),
    DecompressorError,
>)
    requires
        old(stream).wf(),
        old(window).wf(),
        old(window).size() <= MAX_WINDOW,
        ring_wf(*old(ring)),
        old(blocks).wf(),
        tables.wf(old(blocks).codes()),
        constants.wf(),
        dictionary.wf(),
    ensures
        final(stream).same_input(old(stream)),
        final(stream).pos() >= old(stream).pos(),
        final(window).wf(),
        final(window).size() == old(window).size(),
        ring_wf(*final(ring)),
        final(blocks).wf(),
        final(blocks).codes() == old(blocks).codes(),
        extends(final(sink)@, old(sink)@),
        match take_commands(
            env_of(old(window), dictionary, left),
            tables.codes(old(blocks).codes()),
            old(stream).bytes(),
            machine_of(old(stream), old(window), old(ring), old(blocks)),
        ) {
            Err(e) => r matches Err(x) && x == e,
            Ok(after) => {
                &&& r is Ok
                &&& machine_of(final(stream), final(window), final(ring), final(blocks)) == after
                &&& after.output.len() == old(window).count_output() + left
                &&& extends(after.output, old(window).output())
                &&& final(sink)@ == old(sink)@ + tail(after.output, old(window).count_output())
            },
        },
{
    let ghost env = env_of(old(window), dictionary, left);
    let ghost codes = tables.codes(old(blocks).codes());
    let ghost start = old(window).count_output();
    let mut remaining = left;
    proof {
        lemma_sink_start(sink@, window.output());
    }
    while remaining > 0
        invariant
            stream.same_input(old(stream)),
            stream.pos() >= old(stream).pos(),
            window.wf(),
            window.size() == old(window).size(),
            window.size() <= MAX_WINDOW,
            ring_wf(*ring),
            blocks.wf(),
            blocks.codes() == old(blocks).codes(),
            tables.wf(old(blocks).codes()),
            constants.wf(),
            dictionary.wf(),
            codes == tables.codes(old(blocks).codes()),
            start == old(window).count_output(),
            start <= window.count_output(),
            env == env_of(window, dictionary, remaining),
            env == env_of(old(window), dictionary, left),
            extends(sink@, old(sink)@),
            extends(window.output(), old(window).output()),
            sink@ == old(sink)@ + tail(window.output(), start),
            take_commands(
                env,
                codes,
                old(stream).bytes(),
                machine_of(old(stream), old(window), old(ring), old(blocks)),
            ) == take_commands(env, codes, stream.bytes(), machine_of(stream, window, ring, blocks)),
        decreases remaining, stream_len(stream.bytes()) - stream.pos(),
    {
        let before = stream.position();
        let ghost was = window.output();
        let ghost sunk = sink@;
        let rest = match read_command(
            stream,
            window,
            ring,
            blocks,
            tables,
            constants,
            dictionary,
            sink,
            remaining,
        ) {
            Ok(rest) => rest,
            Err(e) => {
                proof {
                    lemma_extends_trans(old(sink)@, sunk, sink@);
                }
                return Err(e);
            },
        };
        proof {
            lemma_extends_trans(old(sink)@, sunk, sink@);
        }
        if rest == remaining && stream.position() == before {
            return Err(DecompressorError::InvalidDictionaryRef);
        }
        proof {
            lemma_sink_step(old(sink)@, sunk, sink@, start, was, window.output());
            lemma_extends_trans(old(window).output(), was, window.output());
        }
        remaining = rest;
    }
    Ok(())
}

} // verus!
