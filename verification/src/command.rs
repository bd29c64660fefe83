//! Commands: the lengths that an insert-and-copy symbol stands for, and the
//! distance that a distance symbol stands for.

use vstd::prelude::*;
use crate::bits::{
    BitStream, exp2, take_bits, took, lemma_stream_uint_bound, lemma_exp2_values,
    lemma_exp2_table, lemma_exp2_monotone,
};
use crate::complex::power_of_two;
use crate::error::DecompressorError;
use crate::window::DistanceRing;

verus! {

/// One row of a table of lengths: the least length of the row, and the
/// number of extra bits whose value is added to it.
#[derive(Debug, Clone, Copy, PartialEq, Eq, Structural)]
pub struct LengthCode {
    pub base: u32,
    pub extra_bits: u8,
}

/// The insert length codes, from 0 to 23.
pub open spec fn insert_length_codes() -> Seq<LengthCode> {
    seq![
        LengthCode { base: 0, extra_bits: 0 },
        LengthCode { base: 1, extra_bits: 0 },
        LengthCode { base: 2, extra_bits: 0 },
        LengthCode { base: 3, extra_bits: 0 },
        LengthCode { base: 4, extra_bits: 0 },
        LengthCode { base: 5, extra_bits: 0 },
        LengthCode { base: 6, extra_bits: 1 },
        LengthCode { base: 8, extra_bits: 1 },
        LengthCode { base: 10, extra_bits: 2 },
        LengthCode { base: 14, extra_bits: 2 },
        LengthCode { base: 18, extra_bits: 3 },
        LengthCode { base: 26, extra_bits: 3 },
        LengthCode { base: 34, extra_bits: 4 },
        LengthCode { base: 50, extra_bits: 4 },
        LengthCode { base: 66, extra_bits: 5 },
        LengthCode { base: 98, extra_bits: 5 },
        LengthCode { base: 130, extra_bits: 6 },
        LengthCode { base: 194, extra_bits: 7 },
        LengthCode { base: 322, extra_bits: 8 },
        LengthCode { base: 578, extra_bits: 9 },
        LengthCode { base: 1090, extra_bits: 10 },
        LengthCode { base: 2114, extra_bits: 12 },
        LengthCode { base: 6210, extra_bits: 14 },
        LengthCode { base: 22594, extra_bits: 24 },
    ]
}

/// The copy length codes, from 0 to 23.
pub open spec fn copy_length_codes() -> Seq<LengthCode> {
    seq![
        LengthCode { base: 2, extra_bits: 0 },
        LengthCode { base: 3, extra_bits: 0 },
        LengthCode { base: 4, extra_bits: 0 },
        LengthCode { base: 5, extra_bits: 0 },
        LengthCode { base: 6, extra_bits: 0 },
        LengthCode { base: 7, extra_bits: 0 },
        LengthCode { base: 8, extra_bits: 0 },
        LengthCode { base: 9, extra_bits: 0 },
        LengthCode { base: 10, extra_bits: 1 },
        LengthCode { base: 12, extra_bits: 1 },
        LengthCode { base: 14, extra_bits: 2 },
        LengthCode { base: 18, extra_bits: 2 },
        LengthCode { base: 22, extra_bits: 3 },
        LengthCode { base: 30, extra_bits: 3 },
        LengthCode { base: 38, extra_bits: 4 },
        LengthCode { base: 54, extra_bits: 4 },
        LengthCode { base: 70, extra_bits: 5 },
        LengthCode { base: 102, extra_bits: 5 },
        LengthCode { base: 134, extra_bits: 6 },
        LengthCode { base: 198, extra_bits: 7 },
        LengthCode { base: 326, extra_bits: 8 },
        LengthCode { base: 582, extra_bits: 9 },
        LengthCode { base: 1094, extra_bits: 10 },
        LengthCode { base: 2118, extra_bits: 24 },
    ]
}

/// One cell of the table of insert-and-copy symbols: 64 symbols in a row
/// share the least insert length code and the least copy length code.
#[derive(Debug, Clone, Copy, PartialEq, Eq, Structural)]
pub struct CellCode {
    pub insert: u8,
    pub copy: u8,
}

/// The eleven cells, in the order of the symbols: cell `k` holds the
/// symbols from `64 * k` on.
pub open spec fn cell_codes() -> Seq<CellCode> {
    seq![
        CellCode { insert: 0, copy: 0 },
        CellCode { insert: 0, copy: 8 },
        CellCode { insert: 0, copy: 0 },
        CellCode { insert: 0, copy: 8 },
        CellCode { insert: 8, copy: 0 },
        CellCode { insert: 8, copy: 8 },
        CellCode { insert: 0, copy: 16 },
        CellCode { insert: 16, copy: 0 },
        CellCode { insert: 8, copy: 16 },
        CellCode { insert: 16, copy: 8 },
        CellCode { insert: 16, copy: 16 },
    ]
}

/// The number of insert-and-copy symbols.
pub const INSERT_AND_COPY_SYMBOLS: usize = 704;

/// The tables by which an insert-and-copy symbol is taken apart.
pub struct CommandTables {
    pub insert: Vec<LengthCode>,
    pub copy: Vec<LengthCode>,
    pub cells: Vec<CellCode>,
}

impl CommandTables {
    /// The tables hold what the format fixes.
    pub open spec fn wf(&self) -> bool {
        &&& self.insert@ == insert_length_codes()
        &&& self.copy@ == copy_length_codes()
        &&& self.cells@ == cell_codes()
    }

    /// Builds the tables.
    pub fn new() -> (tables: CommandTables)
        ensures
            tables.wf(),
    {
        let mut insert: Vec<LengthCode> = Vec::new();
        insert.push(LengthCode { base: 0, extra_bits: 0 });
        insert.push(LengthCode { base: 1, extra_bits: 0 });
        insert.push(LengthCode { base: 2, extra_bits: 0 });
        insert.push(LengthCode { base: 3, extra_bits: 0 });
        insert.push(LengthCode { base: 4, extra_bits: 0 });
        insert.push(LengthCode { base: 5, extra_bits: 0 });
        insert.push(LengthCode { base: 6, extra_bits: 1 });
        insert.push(LengthCode { base: 8, extra_bits: 1 });
        insert.push(LengthCode { base: 10, extra_bits: 2 });
        insert.push(LengthCode { base: 14, extra_bits: 2 });
        insert.push(LengthCode { base: 18, extra_bits: 3 });
        insert.push(LengthCode { base: 26, extra_bits: 3 });
        insert.push(LengthCode { base: 34, extra_bits: 4 });
        insert.push(LengthCode { base: 50, extra_bits: 4 });
        insert.push(LengthCode { base: 66, extra_bits: 5 });
        insert.push(LengthCode { base: 98, extra_bits: 5 });
        insert.push(LengthCode { base: 130, extra_bits: 6 });
        insert.push(LengthCode { base: 194, extra_bits: 7 });
        insert.push(LengthCode { base: 322, extra_bits: 8 });
        insert.push(LengthCode { base: 578, extra_bits: 9 });
        insert.push(LengthCode { base: 1090, extra_bits: 10 });
        insert.push(LengthCode { base: 2114, extra_bits: 12 });
        insert.push(LengthCode { base: 6210, extra_bits: 14 });
        insert.push(LengthCode { base: 22594, extra_bits: 24 });
        assert(insert@ =~= insert_length_codes());
        let mut copy: Vec<LengthCode> = Vec::new();
        copy.push(LengthCode { base: 2, extra_bits: 0 });
        copy.push(LengthCode { base: 3, extra_bits: 0 });
        copy.push(LengthCode { base: 4, extra_bits: 0 });
        copy.push(LengthCode { base: 5, extra_bits: 0 });
        copy.push(LengthCode { base: 6, extra_bits: 0 });
        copy.push(LengthCode { base: 7, extra_bits: 0 });
        copy.push(LengthCode { base: 8, extra_bits: 0 });
        copy.push(LengthCode { base: 9, extra_bits: 0 });
        copy.push(LengthCode { base: 10, extra_bits: 1 });
        copy.push(LengthCode { base: 12, extra_bits: 1 });
        copy.push(LengthCode { base: 14, extra_bits: 2 });
        copy.push(LengthCode { base: 18, extra_bits: 2 });
        copy.push(LengthCode { base: 22, extra_bits: 3 });
        copy.push(LengthCode { base: 30, extra_bits: 3 });
        copy.push(LengthCode { base: 38, extra_bits: 4 });
        copy.push(LengthCode { base: 54, extra_bits: 4 });
        copy.push(LengthCode { base: 70, extra_bits: 5 });
        copy.push(LengthCode { base: 102, extra_bits: 5 });
        copy.push(LengthCode { base: 134, extra_bits: 6 });
        copy.push(LengthCode { base: 198, extra_bits: 7 });
        copy.push(LengthCode { base: 326, extra_bits: 8 });
        copy.push(LengthCode { base: 582, extra_bits: 9 });
        copy.push(LengthCode { base: 1094, extra_bits: 10 });
        copy.push(LengthCode { base: 2118, extra_bits: 24 });
        assert(copy@ =~= copy_length_codes());
        let mut cells: Vec<CellCode> = Vec::new();
        cells.push(CellCode { insert: 0, copy: 0 });
        cells.push(CellCode { insert: 0, copy: 8 });
        cells.push(CellCode { insert: 0, copy: 0 });
        cells.push(CellCode { insert: 0, copy: 8 });
        cells.push(CellCode { insert: 8, copy: 0 });
        cells.push(CellCode { insert: 8, copy: 8 });
        cells.push(CellCode { insert: 0, copy: 16 });
        cells.push(CellCode { insert: 16, copy: 0 });
        cells.push(CellCode { insert: 8, copy: 16 });
        cells.push(CellCode { insert: 16, copy: 8 });
        cells.push(CellCode { insert: 16, copy: 16 });
        assert(cells@ =~= cell_codes());
        CommandTables { insert, copy, cells }
    }
}

/// The insert length code of an insert-and-copy symbol: the one of its
/// cell plus the bits 3 to 5 of the symbol.
pub open spec fn insert_code_of(symbol: u16) -> int {
    cell_codes()[(symbol / 64) as int].insert + (symbol / 8) % 8
}

/// The copy length code of an insert-and-copy symbol: the one of its cell
/// plus the lowest three bits of the symbol.
pub open spec fn copy_code_of(symbol: u16) -> int {
    cell_codes()[(symbol / 64) as int].copy + symbol % 8
}

/// A symbol below 128 stands for a command that uses the last distance
/// again and has no distance symbol.
pub open spec fn implicit_distance(symbol: u16) -> bool {
    symbol < 128
}

/// What reading the extra bits of an insert-and-copy symbol gives: the
/// insert length and the copy length. The extra bits of the insert length
/// stand first.
#[verifier::opaque]
pub open spec fn take_insert_and_copy_length(bytes: Seq<u8>, pos: nat, symbol: u16) -> Result<
    ((u32, u32), nat),
    DecompressorError,
> {
    let insert = insert_length_codes()[insert_code_of(symbol)];
    let copy = copy_length_codes()[copy_code_of(symbol)];
    match take_bits(bytes, pos, insert.extra_bits as nat) {
        Err(e) => Err(e),
        Ok((insert_extra, p1)) => match take_bits(bytes, p1, copy.extra_bits as nat) {
            Err(e) => Err(e),
            Ok((copy_extra, p2)) => Ok(
                (((insert.base + insert_extra) as u32, (copy.base + copy_extra) as u32), p2),
            ),
        },
    }
}

/// Reads the extra bits of an insert-and-copy symbol and gives the insert
/// length and the copy length.
pub fn decode_insert_and_copy_length(stream: &mut BitStream, tables: &CommandTables, symbol: u16) -> (r: Result<
    (u32, u32),
    DecompressorError,
>)
    requires
        old(stream).wf(),
        tables.wf(),
        symbol < INSERT_AND_COPY_SYMBOLS,
    ensures
        final(stream).same_input(old(stream)),
        took(
            r,
            final(stream).pos(),
            take_insert_and_copy_length(old(stream).bytes(), old(stream).pos(), symbol),
        ),
        r matches Ok((insert_length, copy_length)) ==> insert_length <= 0x0105_8241 && 2
            <= copy_length <= 0x0100_0845,
        final(stream).pos() >= old(stream).pos(),
{
    reveal(take_insert_and_copy_length);
    let cell = tables.cells[(symbol / 64) as usize];
    let insert_code = cell.insert + ((symbol / 8) % 8) as u8;
    let copy_code = cell.copy + (symbol % 8) as u8;
    let insert = tables.insert[insert_code as usize];
    let copy = tables.copy[copy_code as usize];
    proof {
        lemma_exp2_table();
        lemma_stream_uint_bound(stream.bytes(), stream.pos() as int, insert.extra_bits as nat);
        lemma_exp2_monotone(insert.extra_bits as nat, 24);
    }
    let insert_extra = match stream.read_u32_from_n_bits(insert.extra_bits) {
        Ok(v) => v,
        Err(e) => {
            return Err(e);
        },
    };
    proof {
        lemma_stream_uint_bound(stream.bytes(), stream.pos() as int, copy.extra_bits as nat);
        lemma_exp2_monotone(copy.extra_bits as nat, 24);
    }
    let copy_extra = match stream.read_u32_from_n_bits(copy.extra_bits) {
        Ok(v) => v,
        Err(e) => {
            return Err(e);
        },
    };
    Ok((insert.base + insert_extra, copy.base + copy_extra))
}

/// The greatest distance that the ring can hold: the greatest window.
pub const MAX_WINDOW: u32 = 0x100_0000;

/// Every distance in the ring is at least 1 and reaches no further than
/// the greatest window.
pub open spec fn ring_wf(ring: DistanceRing) -> bool {
    &&& 1 <= ring.d0 <= MAX_WINDOW
    &&& 1 <= ring.d1 <= MAX_WINDOW
    &&& 1 <= ring.d2 <= MAX_WINDOW
    &&& 1 <= ring.d3 <= MAX_WINDOW
}

/// The distance that a distance symbol below 16 stands for: one of the
/// last four distances, or the last or the one before it with up to 3
/// added or taken off.
pub open spec fn ring_distance(ring: DistanceRing, symbol: u16) -> int {
    if symbol == 0 {
        ring.d0 as int
    } else if symbol == 1 {
        ring.d1 as int
    } else if symbol == 2 {
        ring.d2 as int
    } else if symbol == 3 {
        ring.d3 as int
    } else if symbol == 4 {
        ring.d0 - 1
    } else if symbol == 5 {
        ring.d0 + 1
    } else if symbol == 6 {
        ring.d0 - 2
    } else if symbol == 7 {
        ring.d0 + 2
    } else if symbol == 8 {
        ring.d0 - 3
    } else if symbol == 9 {
        ring.d0 + 3
    } else if symbol == 10 {
        ring.d1 - 1
    } else if symbol == 11 {
        ring.d1 + 1
    } else if symbol == 12 {
        ring.d1 - 2
    } else if symbol == 13 {
        ring.d1 + 2
    } else if symbol == 14 {
        ring.d1 - 3
    } else {
        ring.d1 + 3
    }
}

/// The number of distance symbols for NPOSTFIX and NDIRECT.
pub open spec fn distance_alphabet_size(n_postfix: u8, n_direct: u8) -> nat {
    16 + n_direct as nat + 48 * exp2(n_postfix as nat)
}

/// The number of extra bits of a distance symbol that is neither one of
/// the ring nor a direct one.
pub open spec fn distance_extra_bits(symbol: u16, n_postfix: u8, n_direct: u8) -> nat {
    (1 + ((symbol - n_direct - 16) / exp2(n_postfix as nat + 1) as int)) as nat
}

/// The distance that such a symbol stands for together with the value
/// `extra` of its extra bits.
pub open spec fn long_distance(symbol: u16, n_postfix: u8, n_direct: u8, extra: nat) -> int {
    let rest = symbol - n_direct - 16;
    let high = rest / exp2(n_postfix as nat) as int;
    let low = rest % exp2(n_postfix as nat) as int;
    let offset = (2 + high % 2) * exp2(distance_extra_bits(symbol, n_postfix, n_direct)) - 4;
    (offset + extra) * exp2(n_postfix as nat) + low + n_direct + 1
}

/// What a distance symbol gives: for a symbol below 16 the distance from
/// the ring, which must be at least 1; for the next NDIRECT symbols the
/// distances from 1 on; for any other symbol the distance that it and its
/// extra bits stand for.
#[verifier::opaque]
pub open spec fn take_distance(bytes: Seq<u8>, pos: nat, symbol: u16, n_postfix: u8, n_direct: u8, ring: DistanceRing) -> Result<
    (u32, nat),
    DecompressorError,
> {
    if symbol < 16 {
        if ring_distance(ring, symbol) <= 0 {
            Err(DecompressorError::InvalidDistance)
        } else {
            Ok((ring_distance(ring, symbol) as u32, pos))
        }
    } else if symbol < 16 + n_direct {
        Ok(((symbol - 15) as u32, pos))
    } else {
        match take_bits(bytes, pos, distance_extra_bits(symbol, n_postfix, n_direct)) {
            Err(e) => Err(e),
            Ok((extra, next)) => Ok((long_distance(symbol, n_postfix, n_direct, extra) as u32, next)),
        }
    }
}

/// Computes the distance from the ring for a symbol below 16.
pub fn distance_from_ring(ring: &DistanceRing, symbol: u16) -> (d: i64)
    requires
        symbol < 16,
        ring_wf(*ring),
    ensures
        d == ring_distance(*ring, symbol),
        d <= MAX_WINDOW + 3,
{
    let d0 = ring.d0 as i64;
    let d1 = ring.d1 as i64;
    if symbol == 0 {
        d0
    } else if symbol == 1 {
        d1
    } else if symbol == 2 {
        ring.d2 as i64
    } else if symbol == 3 {
        ring.d3 as i64
    } else if symbol == 4 {
        d0 - 1
    } else if symbol == 5 {
        d0 + 1
    } else if symbol == 6 {
        d0 - 2
    } else if symbol == 7 {
        d0 + 2
    } else if symbol == 8 {
        d0 - 3
    } else if symbol == 9 {
        d0 + 3
    } else if symbol == 10 {
        d1 - 1
    } else if symbol == 11 {
        d1 + 1
    } else if symbol == 12 {
        d1 - 2
    } else if symbol == 13 {
        d1 + 2
    } else if symbol == 14 {
        d1 - 3
    } else {
        d1 + 3
    }
}

/// Reads the extra bits of a distance symbol, if it has any, and gives the
/// distance.
pub fn decode_distance(stream: &mut BitStream, symbol: u16, n_postfix: u8, n_direct: u8, ring: &DistanceRing) -> (r: Result<
    u32,
    DecompressorError,
>)
    requires
        old(stream).wf(),
        n_postfix <= 3,
        n_direct <= 120,
        (symbol as nat) < distance_alphabet_size(n_postfix, n_direct),
        ring_wf(*ring),
    ensures
        final(stream).same_input(old(stream)),
        took(
            r,
            final(stream).pos(),
            take_distance(old(stream).bytes(), old(stream).pos(), symbol, n_postfix, n_direct, *ring),
        ),
        r matches Ok(distance) ==> 1 <= distance <= 0x3fff_fffc,
        final(stream).pos() >= old(stream).pos(),
{
    reveal(take_distance);
    if symbol < 16 {
        let d = distance_from_ring(ring, symbol);
        if d <= 0 {
            return Err(DecompressorError::InvalidDistance);
        }
        return Ok(d as u32);
    }
    if symbol < 16 + n_direct as u16 {
        return Ok((symbol - 15) as u32);
    }
    proof {
        lemma_exp2_values();
        lemma_exp2_table();
    }
    let rest: u32 = (symbol - n_direct as u16 - 16) as u32;
    let postfix: u32 = power_of_two(n_postfix);
    let high: u32 = rest / postfix;
    let low: u32 = rest % postfix;
    assert(high < 48) by (nonlinear_arith)
        requires
            rest < 48 * postfix,
            high == rest / postfix,
            postfix > 0,
    ;
    let half: u32 = rest / (2 * postfix);
    proof {
        reveal_with_fuel(exp2, 2);
        assert(exp2(n_postfix as nat + 1) == 2 * postfix);
        assert(half == high / 2) by (nonlinear_arith)
            requires
                half as int == (rest as int) / (2 * postfix),
                high == rest / postfix,
                postfix > 0,
        ;
    }
    let extra_bits: u8 = (1 + half) as u8;
    assert(extra_bits == distance_extra_bits(symbol, n_postfix, n_direct));
    proof {
        lemma_stream_uint_bound(stream.bytes(), stream.pos() as int, extra_bits as nat);
        lemma_exp2_monotone(extra_bits as nat, 24);
    }
    let extra = match stream.read_u32_from_n_bits(extra_bits) {
        Ok(v) => v,
        Err(e) => {
            return Err(e);
        },
    };
    let scale: u32 = power_of_two(extra_bits);
    let lead: u32 = 2 + high % 2;
    assert(lead * scale <= 3 * 0x100_0000 && lead * scale >= 4) by (nonlinear_arith)
        requires
            2 <= lead <= 3,
            2 <= scale <= 0x100_0000,
    ;
    let offset: u32 = lead * scale - 4;
    assert((offset + extra) * postfix <= 0x3ff_fffc * 8) by (nonlinear_arith)
        requires
            offset + extra <= 0x3ff_fffc,
            1 <= postfix <= 8,
    ;
    Ok((offset + extra) * postfix + low + n_direct as u32 + 1)
}

} // verus!
