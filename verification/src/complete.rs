//! What holds of every canonical prefix code: the symbol that is read is
//! the one whose codeword stands in the stream; and of a complete code: of
//! any bits, as long as there are enough of them, some codeword is a
//! beginning.

use vstd::prelude::*;
use crate::bits::{exp2, stream_bit, stream_len, take_bit, lemma_exp2_table};
use crate::complex::{
    LengthRun, blank_code_length_code, blank_run, code_length_tree, filled, run_step,
    take_code_length_code, take_complex_code, take_prefix_code, take_symbol_lengths,
};
use crate::error::DecompressorError;
use crate::simple::{
    PrefixCodeKind, simple_length, simple_lengths, simple_tree, simple_valid, take_prefix_code_kind,
    take_simple_code,
};
use crate::prefix::{
    MAX_CODE_LENGTH, TreeModel, count_of, first_code, is_ranked, lengths_wf, ranked_symbol,
    take_prefix_symbol, total_of, walk, lemma_count_of_bound, lemma_count_of_monotone,
    lemma_exp2_14, lemma_rank_unique,
};

verus! {

/// The code space that a codeword of `length` bits uses, the whole being
/// 32768 units: none for a symbol without a codeword, and otherwise two to
/// the power of 15 less the length.
pub open spec fn weight(length: u8) -> nat {
    if length == 0 || length > MAX_CODE_LENGTH {
        0
    } else {
        exp2((MAX_CODE_LENGTH - length) as nat)
    }
}

/// The code space that the codewords of the symbols below `upto` use.
pub open spec fn code_space(lengths: Seq<u8>, upto: nat) -> nat
    decreases upto,
{
    if upto == 0 {
        0
    } else {
        code_space(lengths, (upto - 1) as nat) + weight(lengths[upto - 1])
    }
}

/// The code is complete: its codewords use up the code space exactly.
pub open spec fn is_complete(lengths: Seq<u8>) -> bool {
    lengths_wf(lengths) && code_space(lengths, lengths.len()) == 32768
}

/// The code space that the codewords of up to `length` bits of the symbols
/// below `upto` use.
pub open spec fn space_by_length(lengths: Seq<u8>, length: nat, upto: nat) -> nat
    decreases length,
{
    if length == 0 {
        0
    } else {
        space_by_length(lengths, (length - 1) as nat, upto) + count_of(lengths, length, upto)
            * weight(length as u8)
    }
}

/// The codeword of a symbol as a number: the least codeword of its length
/// plus the number of symbols below it that have a codeword of that length.
pub open spec fn codeword(lengths: Seq<u8>, symbol: nat) -> nat {
    first_code(lengths, lengths[symbol as int] as nat) + count_of(
        lengths,
        lengths[symbol as int] as nat,
        symbol,
    )
}

/// The value of the `n` bits from bit `i` on, the first of them being the
/// most significant.
pub open spec fn codeword_at(bytes: Seq<u8>, i: int, n: nat) -> nat
    decreases n,
{
    if n == 0 {
        0
    } else {
        2 * codeword_at(bytes, i, (n - 1) as nat) + stream_bit(bytes, i + n - 1)
    }
}

/// One symbol more adds its weight to the code space of its length.
proof fn lemma_space_by_length_step(lengths: Seq<u8>, length: nat, upto: nat)
    requires
        length <= MAX_CODE_LENGTH,
    ensures
        space_by_length(lengths, length, upto + 1) == space_by_length(lengths, length, upto) + if 1
            <= lengths[upto as int] <= length {
            weight(lengths[upto as int])
        } else {
            0
        },
    decreases length,
{
    if length > 0 {
        lemma_space_by_length_step(lengths, (length - 1) as nat, upto);
        let c = count_of(lengths, length, upto);
        let w = weight(length as u8);
        if lengths[upto as int] == length {
            assert((c + 1) * w == c * w + w) by (nonlinear_arith);
        }
    }
}

/// The code space is the same whether it is summed symbol by symbol or
/// length by length.
proof fn lemma_space_by_length(lengths: Seq<u8>, upto: nat)
    requires
        forall|s: int| 0 <= s < upto ==> #[trigger] lengths[s] <= MAX_CODE_LENGTH,
    ensures
        code_space(lengths, upto) == space_by_length(lengths, MAX_CODE_LENGTH as nat, upto),
    decreases upto,
{
    if upto == 0 {
        lemma_space_by_length_zero(lengths, MAX_CODE_LENGTH as nat);
    } else {
        lemma_space_by_length(lengths, (upto - 1) as nat);
        lemma_space_by_length_step(lengths, MAX_CODE_LENGTH as nat, (upto - 1) as nat);
    }
}

/// No symbol uses no code space.
proof fn lemma_space_by_length_zero(lengths: Seq<u8>, length: nat)
    ensures
        space_by_length(lengths, length, 0) == 0,
    decreases length,
{
    if length > 0 {
        lemma_space_by_length_zero(lengths, (length - 1) as nat);
        assert(0 * weight(length as u8) == 0) by (nonlinear_arith);
    }
}

/// The codewords of up to `length` bits, as many as they are, times the
/// weight of that length, are the code space that they use.
proof fn lemma_codes_and_space(lengths: Seq<u8>, length: nat)
    requires
        1 <= length <= MAX_CODE_LENGTH,
    ensures
        (first_code(lengths, length) + total_of(lengths, length)) * weight(length as u8)
            == space_by_length(lengths, length, lengths.len()),
    decreases length,
{
    let n = lengths.len();
    let w = weight(length as u8);
    let t = total_of(lengths, length);
    if length == 1 {
        assert(space_by_length(lengths, 0, n) == 0);
        assert((0 + t) * w == t * w) by (nonlinear_arith);
    } else {
        lemma_codes_and_space(lengths, (length - 1) as nat);
        let before = first_code(lengths, (length - 1) as nat) + total_of(lengths, (length - 1) as nat);
        let wider = weight((length - 1) as u8);
        assert(wider == 2 * w) by {
            reveal_with_fuel(exp2, 2);
        }
        assert((2 * before + t) * w == before * (2 * w) + t * w) by (nonlinear_arith);
    }
}

/// Where the walk stands after `depth` bits: the bits so far, as a number,
/// lie behind every codeword of `depth` bits.
pub open spec fn behind_codewords(lengths: Seq<u8>, depth: nat, code: nat) -> bool {
    &&& code < exp2(depth)
    &&& depth >= 1 ==> code >= first_code(lengths, depth) + total_of(lengths, depth)
}

/// From any place that lies behind the codewords so far, the walk through
/// a complete code fails only where the input ends.
proof fn lemma_walk_complete(lengths: Seq<u8>, bytes: Seq<u8>, pos: nat, depth: nat, code: nat)
    requires
        is_complete(lengths),
        depth <= MAX_CODE_LENGTH,
        behind_codewords(lengths, depth, code),
    ensures
        walk(lengths, bytes, pos, depth, code) matches Err(e) ==> e
            == DecompressorError::UnexpectedEOF,
    decreases MAX_CODE_LENGTH - depth,
{
    if depth >= MAX_CODE_LENGTH {
        lemma_codes_and_space(lengths, 15);
        lemma_space_by_length(lengths, lengths.len());
        lemma_exp2_14();
        let s = first_code(lengths, 15) + total_of(lengths, 15);
        assert(weight(15u8) == 1) by {
            reveal_with_fuel(exp2, 1);
        }
        assert(s * 1 == s) by (nonlinear_arith);
        assert(false);
    } else {
        match take_bit(bytes, pos + depth) {
            Err(e) => {},
            Ok((bit, next)) => {
                let longer = 2 * code + if bit {
                    1nat
                } else {
                    0nat
                };
                let first = first_code(lengths, depth + 1);
                reveal_with_fuel(exp2, 2);
                if first <= longer < first + total_of(lengths, depth + 1) {
                } else {
                    assert(first <= longer);
                    lemma_walk_complete(lengths, bytes, pos, depth + 1, longer);
                }
            },
        }
    }
}

/// Reading a symbol of a complete code fails only where the input ends.
pub proof fn lemma_complete_lookup(lengths: Seq<u8>, bytes: Seq<u8>, pos: nat)
    requires
        is_complete(lengths),
    ensures
        take_prefix_symbol(TreeModel::Lengths(lengths), bytes, pos) matches Err(e) ==> e
            == DecompressorError::UnexpectedEOF,
{
    reveal_with_fuel(exp2, 1);
    lemma_walk_complete(lengths, bytes, pos, 0, 0);
}

/// Among the symbols below `upto` there is one for each rank below the
/// number of codewords of a length.
proof fn lemma_rank_exists(lengths: Seq<u8>, length: nat, rank: nat, upto: nat) -> (symbol: nat)
    requires
        rank < count_of(lengths, length, upto),
        upto <= lengths.len(),
    ensures
        symbol < upto,
        is_ranked(lengths, length, rank, symbol),
    decreases upto,
{
    if rank < count_of(lengths, length, (upto - 1) as nat) {
        lemma_rank_exists(lengths, length, rank, (upto - 1) as nat)
    } else {
        (upto - 1) as nat
    }
}

/// The walk gives the symbol whose codeword the bits from `pos` on are,
/// when `code` is the value of the bits that it has passed.
proof fn lemma_walk_codeword(lengths: Seq<u8>, bytes: Seq<u8>, pos: nat, depth: nat, code: nat)
    requires
        lengths_wf(lengths),
        code == codeword_at(bytes, pos as int, depth),
    ensures
        walk(lengths, bytes, pos, depth, code) matches Ok((symbol, next)) ==> {
            &&& (symbol as nat) < lengths.len()
            &&& 1 <= lengths[symbol as int] <= MAX_CODE_LENGTH
            &&& next == pos + lengths[symbol as int]
            &&& next <= stream_len(bytes)
            &&& codeword_at(bytes, pos as int, lengths[symbol as int] as nat) == codeword(
                lengths,
                symbol as nat,
            )
        },
    decreases MAX_CODE_LENGTH - depth,
{
    if depth < MAX_CODE_LENGTH {
        match take_bit(bytes, pos + depth) {
            Err(e) => {},
            Ok((bit, next)) => {
                let longer = 2 * code + if bit {
                    1nat
                } else {
                    0nat
                };
                assert(longer == codeword_at(bytes, pos as int, depth + 1)) by {
                    reveal_with_fuel(crate::bits::stream_uint, 2);
                    crate::bits::lemma_exp2_values();
                }
                let first = first_code(lengths, depth + 1);
                if first <= longer < first + total_of(lengths, depth + 1) {
                    let rank = (longer - first) as nat;
                    let found = lemma_rank_exists(lengths, depth + 1, rank, lengths.len());
                    let chosen = ranked_symbol(lengths, depth + 1, rank);
                    assert(is_ranked(lengths, depth + 1, rank, chosen));
                } else {
                    lemma_walk_codeword(lengths, bytes, pos, depth + 1, longer);
                }
            },
        }
    }
}

/// The symbol that is read is the one whose codeword stands in the
/// stream: the stream is moved on by the length of the codeword, and the
/// bits that were passed are the codeword, its first bit the most
/// significant.
pub proof fn lemma_symbol_codeword(lengths: Seq<u8>, bytes: Seq<u8>, pos: nat)
    requires
        lengths_wf(lengths),
    ensures
        take_prefix_symbol(TreeModel::Lengths(lengths), bytes, pos) matches Ok((symbol, next)) ==> {
            &&& (symbol as nat) < lengths.len()
            &&& 1 <= lengths[symbol as int] <= MAX_CODE_LENGTH
            &&& next == pos + lengths[symbol as int]
            &&& next <= stream_len(bytes)
            &&& codeword_at(bytes, pos as int, lengths[symbol as int] as nat) == codeword(
                lengths,
                symbol as nat,
            )
        },
{
    lemma_walk_codeword(lengths, bytes, pos, 0, 0);
}

/// A code of one symbol takes no bits.
pub proof fn lemma_single_symbol(symbol: u16, bytes: Seq<u8>, pos: nat)
    ensures
        take_prefix_symbol(TreeModel::Single(symbol), bytes, pos) == Ok::<
            (u16, nat),
            DecompressorError,
        >((symbol, pos)),
{
}

/// A value behind the symbols that are summed does not matter.
proof fn lemma_space_update_behind(lengths: Seq<u8>, i: int, v: u8, upto: nat)
    requires
        upto <= i < lengths.len(),
    ensures
        code_space(lengths.update(i, v), upto) == code_space(lengths, upto),
    decreases upto,
{
    if upto > 0 {
        lemma_space_update_behind(lengths, i, v, (upto - 1) as nat);
    }
}

/// A new value among the symbols that are summed changes the code space
/// by the difference of the weights.
proof fn lemma_space_update(lengths: Seq<u8>, i: int, v: u8, upto: nat)
    requires
        0 <= i < upto <= lengths.len(),
    ensures
        code_space(lengths.update(i, v), upto) + weight(lengths[i]) == code_space(lengths, upto)
            + weight(v),
    decreases upto,
{
    if i == upto - 1 {
        lemma_space_update_behind(lengths, i, v, (upto - 1) as nat);
    } else {
        lemma_space_update(lengths, i, v, (upto - 1) as nat);
    }
}

/// Symbols without a codeword use no code space.
proof fn lemma_space_of_zeros(lengths: Seq<u8>, from: nat, upto: nat)
    requires
        from <= upto <= lengths.len(),
        forall|s: int| from <= s < upto ==> #[trigger] lengths[s] == 0,
    ensures
        code_space(lengths, upto) == code_space(lengths, from),
    decreases upto,
{
    if from < upto {
        lemma_space_of_zeros(lengths, from, (upto - 1) as nat);
    }
}

/// A run of `to - from` codewords of one length uses as many times the
/// weight of that length.
proof fn lemma_space_of_run(lengths: Seq<u8>, from: nat, to: nat, value: u8)
    requires
        from <= to <= lengths.len(),
    ensures
        code_space(filled(lengths, from as int, to as int, value), to) == code_space(lengths, from)
            + (to - from) * weight(value),
    decreases to,
{
    let w = weight(value);
    if from == to {
        assert(0 * w == 0) by (nonlinear_arith);
        lemma_space_same(filled(lengths, from as int, to as int, value), lengths, from);
    } else {
        let shorter = filled(lengths, from as int, to - 1, value);
        let longer = filled(lengths, from as int, to as int, value);
        lemma_space_of_run(lengths, from, (to - 1) as nat, value);
        lemma_space_same(longer, shorter, (to - 1) as nat);
        assert((to - from) * w == (to - 1 - from) * w + w) by (nonlinear_arith);
    }
}

/// The code space of the symbols below `upto` depends on their lengths
/// only.
proof fn lemma_space_same(a: Seq<u8>, b: Seq<u8>, upto: nat)
    requires
        upto <= a.len(),
        upto <= b.len(),
        forall|s: int| 0 <= s < upto ==> a[s] == b[s],
    ensures
        code_space(a, upto) == code_space(b, upto),
    decreases upto,
{
    if upto > 0 {
        lemma_space_same(a, b, (upto - 1) as nat);
    }
}

/// The lengths that were read so far account for the code space that was
/// used, and no symbol behind them has a length yet.
pub open spec fn run_sound(run: LengthRun) -> bool {
    &&& run.lengths.len() <= 0x1_0000
    &&& run.symbol <= run.lengths.len()
    &&& forall|s: int| 0 <= s < run.lengths.len() ==> #[trigger] run.lengths[s] <= MAX_CODE_LENGTH
    &&& forall|s: int| run.symbol <= s < run.lengths.len() ==> #[trigger] run.lengths[s] == 0
    &&& 1 <= run.prev <= MAX_CODE_LENGTH
    &&& run.repeat == 0 || run.repeat >= 3
    &&& run.space + code_space(run.lengths, run.symbol) == 32768
}

/// One symbol of the code length code gives at least one symbol of the
/// alphabet its length, and leaves the alphabet as it is.
pub proof fn lemma_run_step_advances(tree: TreeModel, bytes: Seq<u8>, pos: nat, run: LengthRun)
    requires
        run_sound(run),
        run.symbol < run.lengths.len(),
    ensures
        run_step(tree, bytes, pos, run) matches Ok((after, next)) ==> run.symbol < after.symbol
            <= after.lengths.len() && after.lengths.len() == run.lengths.len(),
{
    reveal(run_step);
    match take_prefix_symbol(tree, bytes, pos) {
        Err(e) => {},
        Ok((code, next)) => {
            if code >= 16 {
                let extra_bits = (code - 14) as nat;
                let new_len = if code == 16 {
                    run.prev
                } else {
                    0
                };
                let so_far = if run.repeat_len != new_len {
                    0
                } else {
                    run.repeat
                };
                match crate::bits::take_bits(bytes, next, extra_bits) {
                    Err(e) => {},
                    Ok((extra, after_pos)) => {
                        let e2 = exp2(extra_bits);
                        crate::bits::lemma_exp2_monotone(0, extra_bits);
                        let repeat = (if so_far > 0 {
                            (so_far - 2) * e2
                        } else {
                            0
                        }) + extra + 3;
                        assert(repeat >= so_far + 1) by (nonlinear_arith)
                            requires
                                so_far == 0 || so_far >= 3,
                                e2 >= 1,
                                extra >= 0,
                                repeat == (if so_far > 0 {
                                    (so_far - 2) * e2
                                } else {
                                    0
                                }) + extra + 3,
                        ;
                    },
                }
            }
        },
    }
}

/// One symbol of the code length code keeps the account of the code
/// space.
proof fn lemma_run_step_sound(tree: TreeModel, bytes: Seq<u8>, pos: nat, run: LengthRun)
    requires
        run_sound(run),
        run.symbol < run.lengths.len(),
    ensures
        run_step(tree, bytes, pos, run) matches Ok((after, next)) ==> run_sound(after),
{
    reveal(run_step);
    lemma_run_step_advances(tree, bytes, pos, run);
    match run_step(tree, bytes, pos, run) {
        Err(e) => {},
        Ok((after, next)) => {
            if run.symbol < after.symbol <= after.lengths.len() && after.lengths.len()
                == run.lengths.len() {
                let code = take_prefix_symbol(tree, bytes, pos)->Ok_0.0;
                if code < 16 {
                    lemma_space_update_behind(run.lengths, run.symbol as int, code as u8, run.symbol);
                    assert(after.lengths == run.lengths.update(run.symbol as int, code as u8));
                    assert(after.symbol == run.symbol + 1);
                    assert(code_space(after.lengths, after.symbol) == code_space(
                        run.lengths,
                        run.symbol,
                    ) + weight(code as u8));
                    assert(code != 0 ==> weight(code as u8) == exp2((15 - code) as nat));
                    assert(after.space + code_space(after.lengths, after.symbol) == 32768);
                    assert(run_sound(after));
                } else {
                    let new_len = after.repeat_len;
                    let extra_bits = (code - 14) as nat;
                    let so_far = if run.repeat_len != new_len {
                        0
                    } else {
                        run.repeat
                    };
                    let extra = crate::bits::take_bits(
                        bytes,
                        take_prefix_symbol(tree, bytes, pos)->Ok_0.1,
                        extra_bits,
                    )->Ok_0.0;
                    let e2 = exp2(extra_bits);
                    crate::bits::lemma_exp2_monotone(0, extra_bits);
                    let repeat = (if so_far > 0 {
                        (so_far - 2) * e2
                    } else {
                        0
                    }) + extra + 3;
                    assert(repeat >= so_far + 1) by (nonlinear_arith)
                        requires
                            so_far == 0 || so_far >= 3,
                            e2 >= 1,
                            extra >= 0,
                            repeat == (if so_far > 0 {
                                (so_far - 2) * e2
                            } else {
                                0
                            }) + extra + 3,
                    ;
                    let more = repeat - so_far;
                    assert(after.symbol == run.symbol + more);
                    assert(after.repeat == repeat);
                    assert(new_len == 0 || new_len == run.prev);
                    assert(after.lengths == filled(
                        run.lengths,
                        run.symbol as int,
                        after.symbol as int,
                        new_len,
                    ));
                    lemma_space_of_run(run.lengths, run.symbol, after.symbol, new_len);
                    let w = weight(new_len);
                    if new_len == 0 {
                        assert(more * w == 0) by (nonlinear_arith)
                            requires
                                w == 0,
                        ;
                        assert(after.space == run.space);
                    } else {
                        let e = exp2((15 - new_len) as nat);
                        assert(more * w == more * e) by (nonlinear_arith)
                            requires
                                w == e,
                        ;
                        assert(after.space == run.space - more * e);
                    }
                    assert(after.space + code_space(after.lengths, after.symbol) == 32768);
                    assert(run_sound(after));
                }
            }
        },
    }
}

/// The lengths that are read from a sound state on are those of a
/// complete code.
proof fn lemma_symbol_lengths_complete(tree: TreeModel, bytes: Seq<u8>, pos: nat, run: LengthRun)
    requires
        run_sound(run),
    ensures
        take_symbol_lengths(tree, bytes, pos, run) matches Ok((lengths, next)) ==> is_complete(lengths)
            && lengths.len() == run.lengths.len(),
    decreases run.lengths.len() - run.symbol,
{
    if run.symbol >= run.lengths.len() || run.space <= 0 {
        lemma_space_of_zeros(run.lengths, run.symbol, run.lengths.len());
    } else {
        lemma_run_step_sound(tree, bytes, pos, run);
        match run_step(tree, bytes, pos, run) {
            Err(e) => {},
            Ok((after, next)) => {
                if run.symbol < after.symbol <= after.lengths.len() && after.lengths.len()
                    == run.lengths.len() {
                    lemma_symbol_lengths_complete(tree, bytes, next, after);
                }
            },
        }
    }
}

/// The code lengths that a complex description comes to are those of a
/// complete code.
pub proof fn lemma_complex_code_complete(bytes: Seq<u8>, pos: nat, skip: u8, alphabet_size: nat)
    requires
        alphabet_size <= 0x1_0000,
    ensures
        take_complex_code(bytes, pos, skip, alphabet_size) matches Ok((lengths, next)) ==> is_complete(
            lengths,
        ) && lengths.len() == alphabet_size,
{
    reveal(take_complex_code);
    match take_code_length_code(bytes, pos, skip as nat, blank_code_length_code()) {
        Err(e) => {},
        Ok((code, next)) => match code_length_tree(code) {
            Err(e) => {},
            Ok(tree) => {
                lemma_symbol_lengths_complete(tree, bytes, next, blank_run(alphabet_size));
            },
        },
    }
}

/// The code space that the first `upto` symbols of a simple description
/// of `n_sym` symbols use.
pub open spec fn simple_space(n_sym: nat, tree_select: bool, upto: nat) -> nat
    decreases upto,
{
    if upto == 0 {
        0
    } else {
        simple_space(n_sym, tree_select, (upto - 1) as nat) + weight(
            simple_length(n_sym, tree_select, upto - 1),
        )
    }
}

/// The lengths after the first `upto` symbols of a simple description:
/// no symbol that is still to come has one, and the code space in use is
/// that of the lengths given out.
proof fn lemma_simple_lengths(symbols: Seq<u16>, tree_select: bool, alphabet_size: nat, upto: nat)
    requires
        simple_valid(symbols, alphabet_size),
        upto <= symbols.len(),
    ensures
        simple_lengths(symbols, tree_select, alphabet_size, upto).len() == alphabet_size,
        forall|s: int|
            0 <= s < alphabet_size ==> #[trigger] simple_lengths(
                symbols,
                tree_select,
                alphabet_size,
                upto,
            )[s] <= 3,
        forall|j: int|
            upto <= j < symbols.len() ==> simple_lengths(symbols, tree_select, alphabet_size, upto)[(
            #[trigger] symbols[j]) as int] == 0,
        code_space(simple_lengths(symbols, tree_select, alphabet_size, upto), alphabet_size)
            == simple_space(symbols.len(), tree_select, upto),
    decreases upto,
{
    if upto == 0 {
        let zeros = simple_lengths(symbols, tree_select, alphabet_size, 0);
        lemma_space_of_zeros(zeros, 0, alphabet_size);
    } else {
        lemma_simple_lengths(symbols, tree_select, alphabet_size, (upto - 1) as nat);
        let before = simple_lengths(symbols, tree_select, alphabet_size, (upto - 1) as nat);
        let at = symbols[upto - 1] as int;
        assert(before[at] == 0);
        lemma_space_update(
            before,
            at,
            simple_length(symbols.len(), tree_select, upto - 1),
            alphabet_size,
        );
    }
}

/// The code of a simple description of two symbols or more is complete.
pub proof fn lemma_simple_code_complete(symbols: Seq<u16>, tree_select: bool, alphabet_size: nat)
    requires
        simple_valid(symbols, alphabet_size),
        symbols.len() >= 2,
    ensures
        is_complete(simple_lengths(symbols, tree_select, alphabet_size, symbols.len())),
        simple_lengths(symbols, tree_select, alphabet_size, symbols.len()).len() == alphabet_size,
{
    lemma_simple_lengths(symbols, tree_select, alphabet_size, symbols.len());
    reveal_with_fuel(simple_space, 5);
    lemma_exp2_14();
    assert(exp2(13) == 0x2000 && exp2(12) == 0x1000) by {
        reveal_with_fuel(exp2, 3);
    }
}

/// The symbols of the code are symbols of the alphabet, and a code of
/// several symbols is complete.
pub open spec fn model_complete(model: TreeModel, alphabet_size: nat) -> bool {
    match model {
        TreeModel::Single(symbol) => (symbol as nat) < alphabet_size,
        TreeModel::Lengths(lengths) => lengths.len() == alphabet_size && is_complete(lengths),
    }
}

/// Every description of a prefix code that is accepted stands for one
/// symbol of the alphabet or for a complete code over the alphabet.
pub proof fn lemma_prefix_code_complete(bytes: Seq<u8>, pos: nat, alphabet_size: nat)
    requires
        alphabet_size <= 0x1_0000,
    ensures
        take_prefix_code(bytes, pos, alphabet_size) matches Ok((model, next)) ==> model_complete(
            model,
            alphabet_size,
        ),
{
    reveal(take_simple_code);
    reveal(take_complex_code);
    reveal(take_prefix_code);
    match take_prefix_code_kind(bytes, pos) {
        Err(e) => {},
        Ok((PrefixCodeKind::Simple, next)) => match take_simple_code(bytes, next, alphabet_size) {
            Err(e) => {},
            Ok(((symbols, tree_select), after)) => {
                if symbols.len() >= 2 {
                    lemma_simple_code_complete(symbols, tree_select == Some(true), alphabet_size);
                }
            },
        },
        Ok((PrefixCodeKind::Complex(skip), next)) => {
            lemma_complex_code_complete(bytes, next, skip, alphabet_size);
        },
    }
}

} // verus!
