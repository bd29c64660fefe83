//! Context modelling: the context of a literal, which the two bytes before
//! it give, and the context maps, which say for each block type and
//! context which prefix tree is used.

use vstd::prelude::*;
use crate::bits::{
    BitStream, exp2, stream_len, take_bit, take_bits, took, took_bytes, within,
    lemma_stream_uint_bound,
    lemma_exp2_values, lemma_exp2_table, lemma_exp2_monotone,
};
use crate::complex::{parse_prefix_code, power_of_two, take_prefix_code, lemma_prefix_code_within};
use crate::error::DecompressorError;
use crate::prefix::{
    PrefixTree, TreeModel, model_below, take_prefix_symbol, lemma_prefix_symbol_pos,
};

verus! {

/// The first table of the context mode UTF8, for the byte before the
/// literal.
pub open spec fn lut0(b: u8) -> u8 {
    if b < 32 {
        if b == 9 || b == 10 || b == 13 {
            4
        } else {
            0
        }
    } else if b < 48 {
        if b == 32 {
            8
        } else if b == 34 || b == 39 {
            16
        } else if b == 37 {
            20
        } else if b == 40 {
            24
        } else if b == 41 {
            28
        } else if b == 44 {
            32
        } else if b == 46 {
            36
        } else {
            12
        }
    } else if b < 58 {
        44
    } else if b < 64 {
        if b == 58 || b == 59 {
            32
        } else if b == 60 {
            24
        } else if b == 61 {
            40
        } else if b == 62 {
            28
        } else {
            12
        }
    } else if b < 96 {
        if b == 65 || b == 69 || b == 73 || b == 79 || b == 85 {
            48
        } else if 65 <= b <= 90 {
            52
        } else if b == 91 {
            24
        } else if b == 93 {
            28
        } else {
            12
        }
    } else if b < 128 {
        if b == 97 || b == 101 || b == 105 || b == 111 || b == 117 {
            56
        } else if 97 <= b <= 122 {
            60
        } else if b == 123 {
            24
        } else if b == 125 {
            28
        } else if b == 127 {
            0
        } else {
            12
        }
    } else if b < 192 {
        b % 2
    } else {
        (2 + b % 2) as u8
    }
}

/// The second table of the context mode UTF8, for the byte before that.
pub open spec fn lut1(b: u8) -> u8 {
    if b < 33 {
        0
    } else if b < 48 {
        1
    } else if b < 58 {
        2
    } else if b < 65 {
        1
    } else if b < 91 {
        2
    } else if b < 97 {
        1
    } else if b < 123 {
        3
    } else if b < 127 {
        1
    } else if b < 194 {
        0
    } else {
        2
    }
}

/// The table of the context mode Signed.
pub open spec fn lut2(b: u8) -> u8 {
    if b == 0 {
        0
    } else if b < 16 {
        1
    } else if b < 64 {
        2
    } else if b < 128 {
        3
    } else if b < 192 {
        4
    } else if b < 240 {
        5
    } else if b < 255 {
        6
    } else {
        7
    }
}

/// The context of a literal: `p1` is the byte before it and `p2` the one
/// before that. Mode 0 takes the lowest six bits of `p1`, mode 1 the
/// highest six, mode 2 joins the two tables for UTF8, and mode 3 puts the
/// table for signed bytes of `p1` before that of `p2`.
pub open spec fn context_id(mode: u8, p1: u8, p2: u8) -> u8 {
    if mode == 0 {
        p1 % 64
    } else if mode == 1 {
        p1 / 4
    } else if mode == 2 {
        lut0(p1) | lut1(p2)
    } else {
        (lut2(p1) * 8 + lut2(p2)) as u8
    }
}

/// The context of a distance: the copy length less 2, but no more than 3.
pub open spec fn distance_context(copy_length: u32) -> u8 {
    if copy_length <= 2 {
        0
    } else if copy_length >= 5 {
        3
    } else {
        (copy_length - 2) as u8
    }
}

/// The three tables for the context of a literal.
pub struct ContextTables {
    lut0: Vec<u8>,
    lut1: Vec<u8>,
    lut2: Vec<u8>,
}

/// Computes an entry of the first table of the context mode UTF8.
fn lut0_entry(b: u8) -> (v: u8)
    ensures
        v == lut0(b),
{
    if b < 32 {
        if b == 9 || b == 10 || b == 13 {
            4
        } else {
            0
        }
    } else if b < 48 {
        if b == 32 {
            8
        } else if b == 34 || b == 39 {
            16
        } else if b == 37 {
            20
        } else if b == 40 {
            24
        } else if b == 41 {
            28
        } else if b == 44 {
            32
        } else if b == 46 {
            36
        } else {
            12
        }
    } else if b < 58 {
        44
    } else if b < 64 {
        if b == 58 || b == 59 {
            32
        } else if b == 60 {
            24
        } else if b == 61 {
            40
        } else if b == 62 {
            28
        } else {
            12
        }
    } else if b < 96 {
        if b == 65 || b == 69 || b == 73 || b == 79 || b == 85 {
            48
        } else if 65 <= b && b <= 90 {
            52
        } else if b == 91 {
            24
        } else if b == 93 {
            28
        } else {
            12
        }
    } else if b < 128 {
        if b == 97 || b == 101 || b == 105 || b == 111 || b == 117 {
            56
        } else if 97 <= b && b <= 122 {
            60
        } else if b == 123 {
            24
        } else if b == 125 {
            28
        } else if b == 127 {
            0
        } else {
            12
        }
    } else if b < 192 {
        b % 2
    } else {
        2 + b % 2
    }
}

/// Computes an entry of the second table of the context mode UTF8.
fn lut1_entry(b: u8) -> (v: u8)
    ensures
        v == lut1(b),
{
    if b < 33 {
        0
    } else if b < 48 {
        1
    } else if b < 58 {
        2
    } else if b < 65 {
        1
    } else if b < 91 {
        2
    } else if b < 97 {
        1
    } else if b < 123 {
        3
    } else if b < 127 {
        1
    } else if b < 194 {
        0
    } else {
        2
    }
}

/// Computes an entry of the table of the context mode Signed.
fn lut2_entry(b: u8) -> (v: u8)
    ensures
        v == lut2(b),
{
    if b == 0 {
        0
    } else if b < 16 {
        1
    } else if b < 64 {
        2
    } else if b < 128 {
        3
    } else if b < 192 {
        4
    } else if b < 240 {
        5
    } else if b < 255 {
        6
    } else {
        7
    }
}

impl ContextTables {
    /// The tables hold the three functions.
    pub closed spec fn wf(&self) -> bool {
        &&& self.lut0@.len() == 256
        &&& self.lut1@.len() == 256
        &&& self.lut2@.len() == 256
        &&& forall|b: u8| #[trigger] self.lut0@[b as int] == lut0(b)
        &&& forall|b: u8| #[trigger] self.lut1@[b as int] == lut1(b)
        &&& forall|b: u8| #[trigger] self.lut2@[b as int] == lut2(b)
    }

    /// Builds the tables.
    pub fn new() -> (tables: ContextTables)
        ensures
            tables.wf(),
    {
        let mut t0: Vec<u8> = Vec::new();
        let mut t1: Vec<u8> = Vec::new();
        let mut t2: Vec<u8> = Vec::new();
        let mut b: usize = 0;
        while b < 256
            invariant
                b <= 256,
                t0@.len() == b,
                t1@.len() == b,
                t2@.len() == b,
                forall|k: u8| k < b ==> #[trigger] t0@[k as int] == lut0(k),
                forall|k: u8| k < b ==> #[trigger] t1@[k as int] == lut1(k),
                forall|k: u8| k < b ==> #[trigger] t2@[k as int] == lut2(k),
            decreases 256 - b,
        {
            t0.push(lut0_entry(b as u8));
            t1.push(lut1_entry(b as u8));
            t2.push(lut2_entry(b as u8));
            b = b + 1;
        }
        ContextTables { lut0: t0, lut1: t1, lut2: t2 }
    }

    /// The context of a literal for the two bytes before it.
    pub fn literal_context(&self, mode: u8, p1: u8, p2: u8) -> (id: u8)
        requires
            self.wf(),
        ensures
            id == context_id(mode, p1, p2),
            id < 64,
    {
        if mode == 0 {
            p1 % 64
        } else if mode == 1 {
            p1 / 4
        } else if mode == 2 {
            let a = self.lut0[p1 as usize];
            let b = self.lut1[p2 as usize];
            assert(a == lut0(p1) && b == lut1(p2));
            assert((a | b) < 64) by (bit_vector)
                requires
                    a < 64,
                    b < 64,
            ;
            a | b
        } else {
            let a = self.lut2[p1 as usize];
            let b = self.lut2[p2 as usize];
            assert(a == lut2(p1) && b == lut2(p2));
            a * 8 + b
        }
    }
}

/// Computes the context of a distance.
pub fn distance_context_of(copy_length: u32) -> (id: u8)
    ensures
        id == distance_context(copy_length),
        id < 4,
{
    if copy_length <= 2 {
        0
    } else if copy_length >= 5 {
        3
    } else {
        (copy_length - 2) as u8
    }
}

/// What reading the context modes of `count` more block types gives,
/// two bits each, `front` being the modes read so far.
pub open spec fn take_context_modes(bytes: Seq<u8>, pos: nat, count: nat, front: Seq<u8>) -> Result<
    (Seq<u8>, nat),
    DecompressorError,
>
    decreases count,
{
    if count == 0 {
        Ok((front, pos))
    } else {
        match take_bits(bytes, pos, 2) {
            Err(e) => Err(e),
            Ok((mode, next)) => take_context_modes(
                bytes,
                next,
                (count - 1) as nat,
                front.push(mode as u8),
            ),
        }
    }
}

/// Reads the context mode of each of the `n_bltypes_l` block types of
/// literals.
pub fn parse_context_modes_literals(stream: &mut BitStream, n_bltypes_l: u16) -> (r: Result<Vec<u8>, DecompressorError>)
    requires
        old(stream).wf(),
    ensures
        final(stream).same_input(old(stream)),
        final(stream).pos() >= old(stream).pos(),
        took_bytes(
            r,
            final(stream).pos(),
            take_context_modes(old(stream).bytes(), old(stream).pos(), n_bltypes_l as nat, Seq::empty()),
        ),
        r matches Ok(modes) ==> modes@.len() == n_bltypes_l && forall|k: int|
            0 <= k < modes@.len() ==> #[trigger] modes@[k] < 4,
{
    let mut modes: Vec<u8> = Vec::new();
    let mut k: u16 = 0;
    while k < n_bltypes_l
        invariant
            stream.same_input(old(stream)),
            stream.pos() >= old(stream).pos(),
            k <= n_bltypes_l,
            modes@.len() == k,
            forall|j: int| 0 <= j < modes@.len() ==> #[trigger] modes@[j] < 4,
            take_context_modes(
                old(stream).bytes(),
                old(stream).pos(),
                n_bltypes_l as nat,
                Seq::empty(),
            ) == take_context_modes(stream.bytes(), stream.pos(), (n_bltypes_l - k) as nat, modes@),
        decreases n_bltypes_l - k,
    {
        proof {
            lemma_stream_uint_bound(stream.bytes(), stream.pos() as int, 2);
            lemma_exp2_values();
        }
        match stream.read_u8_from_n_bits(2) {
            Ok(mode) => {
                modes.push(mode);
            },
            Err(e) => {
                return Err(e);
            },
        }
        k = k + 1;
    }
    Ok(modes)
}

/// `count` zeros.
pub open spec fn zeros(count: nat) -> Seq<u8> {
    Seq::new(count, |k: int| 0u8)
}

/// What reading the entries of a context map of `size` entries gives,
/// `map` being the entries so far. Symbol 0 is the entry 0. A symbol `c`
/// from 1 to `rle_max` is a run of zeros, 2^c plus the value of the `c`
/// bits that follow, which may not leave the map. Any other symbol is the
/// entry that is `rle_max` less.
pub open spec fn take_map_entries(tree: TreeModel, bytes: Seq<u8>, pos: nat, size: nat, rle_max: nat, map: Seq<u8>) -> Result<
    (Seq<u8>, nat),
    DecompressorError,
>
    decreases size - map.len(),
{
    if map.len() >= size {
        Ok((map, pos))
    } else {
        match take_prefix_symbol(tree, bytes, pos) {
            Err(e) => Err(e),
            Ok((code, p1)) => if code == 0 {
                take_map_entries(tree, bytes, p1, size, rle_max, map.push(0))
            } else if code <= rle_max {
                match take_bits(bytes, p1, code as nat) {
                    Err(e) => Err(e),
                    Ok((extra, p2)) => if map.len() + exp2(code as nat) + extra > size {
                        Err(DecompressorError::MalformedCode)
                    } else {
                        proof {
                            lemma_exp2_monotone(0, code as nat);
                        }
                        take_map_entries(
                            tree,
                            bytes,
                            p2,
                            size,
                            rle_max,
                            map + zeros(exp2(code as nat) + extra),
                        )
                    },
                }
            } else {
                take_map_entries(tree, bytes, p1, size, rle_max, map.push((code - rle_max) as u8))
            },
        }
    }
}

/// The list with the entry at `index` moved to the front.
pub open spec fn moved_to_front(list: Seq<u8>, index: int) -> Seq<u8> {
    Seq::new(
        list.len(),
        |k: int|
            if k == 0 {
                list[index]
            } else if k <= index {
                list[k - 1]
            } else {
                list[k]
            },
    )
}

/// The list of the 256 bytes in their order.
pub open spec fn identity_list() -> Seq<u8> {
    Seq::new(256, |k: int| k as u8)
}

/// The map after the inverse move-to-front transform of the entries from
/// `from` on: each entry is taken as a place in `list`, replaced by the
/// byte at that place, and that byte is moved to the front of the list.
pub open spec fn inverse_move_to_front(map: Seq<u8>, from: nat, list: Seq<u8>) -> Seq<u8>
    decreases map.len() - from,
{
    if from >= map.len() {
        map
    } else {
        inverse_move_to_front(
            map.update(from as int, list[map[from as int] as int]),
            from + 1,
            moved_to_front(list, map[from as int] as int),
        )
    }
}

/// What reading a context map of `size` entries for `n_trees` prefix trees
/// gives. For one tree every entry is 0 and nothing is read. Otherwise a
/// bit says whether runs of zeros are used and four more bits give the
/// greatest run symbol less 1; a prefix code over the trees and the run
/// symbols follows, then the entries, then a bit that says whether the
/// inverse move-to-front transform is applied to them.
#[verifier::opaque]
pub open spec fn take_context_map(bytes: Seq<u8>, pos: nat, n_trees: u16, size: nat) -> Result<
    (Seq<u8>, nat),
    DecompressorError,
> {
    if n_trees < 2 {
        Ok((zeros(size), pos))
    } else {
        match take_rle_max(bytes, pos) {
            Err(e) => Err(e),
            Ok((rle_max, p1)) => match take_prefix_code(bytes, p1, (n_trees + rle_max) as nat) {
                Err(e) => Err(e),
                Ok((tree, p2)) => match take_map_entries(
                    tree,
                    bytes,
                    p2,
                    size,
                    rle_max as nat,
                    Seq::empty(),
                ) {
                    Err(e) => Err(e),
                    Ok((map, p3)) => match take_bit(bytes, p3) {
                        Err(e) => Err(e),
                        Ok((transform, p4)) => if transform {
                            Ok((inverse_move_to_front(map, 0, identity_list()), p4))
                        } else {
                            Ok((map, p4))
                        },
                    },
                },
            },
        }
    }
}

/// What reading the greatest run symbol gives: 0 where the bit for runs is
/// not set, and otherwise the four bits that follow plus 1.
#[verifier::opaque]
pub open spec fn take_rle_max(bytes: Seq<u8>, pos: nat) -> Result<(u8, nat), DecompressorError> {
    match take_bit(bytes, pos) {
        Err(e) => Err(e),
        Ok((uses_runs, p1)) => if uses_runs {
            match take_bits(bytes, p1, 4) {
                Err(e) => Err(e),
                Ok((v, p2)) => Ok(((v + 1) as u8, p2)),
            }
        } else {
            Ok((0, p1))
        },
    }
}

/// Reads the greatest run symbol of a context map.
pub fn parse_rle_max(stream: &mut BitStream) -> (r: Result<u8, DecompressorError>)
    requires
        old(stream).wf(),
    ensures
        final(stream).same_input(old(stream)),
        final(stream).pos() >= old(stream).pos(),
        took(r, final(stream).pos(), take_rle_max(old(stream).bytes(), old(stream).pos())),
        r matches Ok(rle_max) ==> rle_max <= 16,
{
    reveal(take_rle_max);
    let uses_runs = match stream.read_bit() {
        Ok(bit) => bit,
        Err(e) => {
            return Err(e);
        },
    };
    if !uses_runs {
        return Ok(0);
    }
    proof {
        lemma_stream_uint_bound(stream.bytes(), stream.pos() as int, 4);
        lemma_exp2_values();
    }
    match stream.read_u8_from_n_bits(4) {
        Ok(v) => Ok(v + 1),
        Err(e) => Err(e),
    }
}

/// Appends `count` zeros.
fn push_zeros(map: &mut Vec<u8>, count: usize)
    ensures
        final(map)@ == old(map)@ + zeros(count as nat),
{
    let mut k: usize = 0;
    assert(map@ =~= old(map)@ + zeros(0));
    while k < count
        invariant
            k <= count,
            map@ == old(map)@ + zeros(k as nat),
        decreases count - k,
    {
        map.push(0);
        k = k + 1;
        assert(map@ =~= old(map)@ + zeros(k as nat));
    }
}

/// Every entry of the map is below `bound`.
pub open spec fn entries_below(map: Seq<u8>, bound: nat) -> bool {
    forall|k: int| 0 <= k < map.len() ==> (#[trigger] map[k] as nat) < bound
}

/// Reads the entries of a context map.
fn parse_map_entries(stream: &mut BitStream, tree: &PrefixTree, size: usize, rle_max: u8, n_trees: u16) -> (r: Result<
    Vec<u8>,
    DecompressorError,
>)
    requires
        old(stream).wf(),
        tree.wf(),
        model_below(tree.model(), (n_trees + rle_max) as nat),
        rle_max <= 16,
        2 <= n_trees <= 256,
        size <= 0x1_0000,
    ensures
        final(stream).same_input(old(stream)),
        final(stream).pos() >= old(stream).pos(),
        took_bytes(
            r,
            final(stream).pos(),
            take_map_entries(
                tree.model(),
                old(stream).bytes(),
                old(stream).pos(),
                size as nat,
                rle_max as nat,
                Seq::empty(),
            ),
        ),
        r matches Ok(map) ==> map@.len() == size && entries_below(map@, n_trees as nat),
{
    let mut map: Vec<u8> = Vec::new();
    while map.len() < size
        invariant
            stream.same_input(old(stream)),
            stream.pos() >= old(stream).pos(),
            tree.wf(),
            model_below(tree.model(), (n_trees + rle_max) as nat),
            rle_max <= 16,
            2 <= n_trees <= 256,
            size <= 0x1_0000,
            map@.len() <= size,
            entries_below(map@, n_trees as nat),
            take_map_entries(
                tree.model(),
                old(stream).bytes(),
                old(stream).pos(),
                size as nat,
                rle_max as nat,
                Seq::empty(),
            ) == take_map_entries(
                tree.model(),
                stream.bytes(),
                stream.pos(),
                size as nat,
                rle_max as nat,
                map@,
            ),
        decreases size - map@.len(),
    {
        let code = match tree.lookup_symbol(stream) {
            Ok(code) => code,
            Err(e) => {
                return Err(e);
            },
        };
        assert(code < n_trees + rle_max);
        if code == 0 {
            map.push(0);
        } else if code <= rle_max as u16 {
            proof {
                lemma_stream_uint_bound(stream.bytes(), stream.pos() as int, code as nat);
                lemma_exp2_monotone(code as nat, 16);
                lemma_exp2_table();
            }
            let extra = match stream.read_u32_from_n_bits(code as u8) {
                Ok(extra) => extra,
                Err(e) => {
                    return Err(e);
                },
            };
            let run = power_of_two(code as u8) + extra;
            if run as usize > size - map.len() {
                return Err(DecompressorError::MalformedCode);
            }
            push_zeros(&mut map, run as usize);
        } else {
            map.push((code - rle_max as u16) as u8);
        }
    }
    Ok(map)
}

/// The first `bound` bytes of the list are below `bound`.
pub open spec fn list_closed(list: Seq<u8>, bound: nat) -> bool {
    &&& list.len() == 256
    &&& forall|k: int| 0 <= k < bound && k < 256 ==> (#[trigger] list[k] as nat) < bound
}

/// Moves the entry at `index` to the front of the list and gives it.
fn move_to_front(list: &mut Vec<u8>, index: u8) -> (value: u8)
    requires
        old(list)@.len() == 256,
    ensures
        final(list)@ == moved_to_front(old(list)@, index as int),
        value == old(list)@[index as int],
{
    let value = list[index as usize];
    let mut k: usize = index as usize;
    while k > 0
        invariant
            k <= index,
            list@.len() == 256,
            forall|j: int| 0 <= j <= k ==> list@[j] == old(list)@[j],
            forall|j: int| k < j <= index ==> list@[j] == old(list)@[j - 1],
            forall|j: int| index < j < 256 ==> list@[j] == old(list)@[j],
        decreases k,
    {
        let before = list[k - 1];
        list.set(k, before);
        k = k - 1;
    }
    list.set(0, value);
    assert(list@ =~= moved_to_front(old(list)@, index as int));
    value
}

/// Applies the inverse move-to-front transform to the map.
fn apply_inverse_move_to_front(map: &mut Vec<u8>, n_trees: u16)
    requires
        entries_below(old(map)@, n_trees as nat),
        n_trees <= 256,
    ensures
        final(map)@ == inverse_move_to_front(old(map)@, 0, identity_list()),
        final(map)@.len() == old(map)@.len(),
        entries_below(final(map)@, n_trees as nat),
{
    let mut list: Vec<u8> = Vec::new();
    let mut b: usize = 0;
    while b < 256
        invariant
            b <= 256,
            list@.len() == b,
            forall|k: int| 0 <= k < b ==> list@[k] == k as u8,
        decreases 256 - b,
    {
        list.push(b as u8);
        b = b + 1;
    }
    assert(list@ =~= identity_list());
    let n = map.len();
    let mut i: usize = 0;
    while i < n
        invariant
            i <= n,
            n == map@.len(),
            n == old(map)@.len(),
            n_trees <= 256,
            list_closed(list@, n_trees as nat),
            forall|k: int| 0 <= k < i ==> (#[trigger] map@[k] as nat) < n_trees,
            forall|k: int| i <= k < n ==> (#[trigger] map@[k] as nat) < n_trees,
            inverse_move_to_front(old(map)@, 0, identity_list()) == inverse_move_to_front(
                map@,
                i as nat,
                list@,
            ),
        decreases n - i,
    {
        let index = map[i];
        let value = move_to_front(&mut list, index);
        map.set(i, value);
        i = i + 1;
    }
}

/// Reads a context map of `size` entries for `n_trees` prefix trees.
pub fn parse_context_map(stream: &mut BitStream, n_trees: u16, size: usize) -> (r: Result<Vec<u8>, DecompressorError>)
    requires
        old(stream).wf(),
        1 <= n_trees <= 256,
        size <= 0x1_0000,
    ensures
        final(stream).same_input(old(stream)),
        final(stream).pos() >= old(stream).pos(),
        took_bytes(
            r,
            final(stream).pos(),
            take_context_map(old(stream).bytes(), old(stream).pos(), n_trees, size as nat),
        ),
        r matches Ok(map) ==> map@.len() == size && entries_below(map@, n_trees as nat),
{
    reveal(take_context_map);
    if n_trees < 2 {
        let map = vec![0u8; size];
        assert(map@ =~= zeros(size as nat));
        return Ok(map);
    }
    let rle_max = match parse_rle_max(stream) {
        Ok(v) => v,
        Err(e) => {
            return Err(e);
        },
    };
    let tree = match parse_prefix_code(stream, n_trees as usize + rle_max as usize) {
        Ok(tree) => tree,
        Err(e) => {
            return Err(e);
        },
    };
    let mut map = match parse_map_entries(stream, &tree, size, rle_max, n_trees) {
        Ok(map) => map,
        Err(e) => {
            return Err(e);
        },
    };
    let transform = match stream.read_bit() {
        Ok(bit) => bit,
        Err(e) => {
            return Err(e);
        },
    };
    if transform {
        apply_inverse_move_to_front(&mut map, n_trees);
    }
    Ok(map)
}

/// The context modes that were read lie within the stream.
pub proof fn lemma_context_modes_within(bytes: Seq<u8>, pos: nat, count: nat, front: Seq<u8>)
    requires
        pos <= stream_len(bytes),
    ensures
        take_context_modes(bytes, pos, count, front) matches Ok((modes, next)) ==> within(
            bytes,
            pos,
            next,
        ),
    decreases count,
{
    if count > 0 {
        match take_bits(bytes, pos, 2) {
            Err(e) => {},
            Ok((mode, next)) => {
                lemma_context_modes_within(bytes, next, (count - 1) as nat, front.push(mode as u8));
            },
        }
    }
}

/// The entries of a context map that were read lie within the stream.
pub proof fn lemma_map_entries_within(tree: TreeModel, bytes: Seq<u8>, pos: nat, size: nat, rle_max: nat, map: Seq<u8>)
    requires
        pos <= stream_len(bytes),
    ensures
        take_map_entries(tree, bytes, pos, size, rle_max, map) matches Ok((entries, next))
            ==> within(bytes, pos, next),
    decreases size - map.len(),
{
    if map.len() < size {
        lemma_prefix_symbol_pos(tree, bytes, pos);
        match take_prefix_symbol(tree, bytes, pos) {
            Err(e) => {},
            Ok((code, p1)) => {
                if code == 0 {
                    lemma_map_entries_within(tree, bytes, p1, size, rle_max, map.push(0));
                } else if code <= rle_max {
                    match take_bits(bytes, p1, code as nat) {
                        Err(e) => {},
                        Ok((extra, p2)) => {
                            if map.len() + exp2(code as nat) + extra <= size {
                                lemma_exp2_monotone(0, code as nat);
                                lemma_map_entries_within(
                                    tree,
                                    bytes,
                                    p2,
                                    size,
                                    rle_max,
                                    map + zeros(exp2(code as nat) + extra),
                                );
                            }
                        },
                    }
                } else {
                    lemma_map_entries_within(
                        tree,
                        bytes,
                        p1,
                        size,
                        rle_max,
                        map.push((code - rle_max) as u8),
                    );
                }
            },
        }
    }
}

/// A context map that was read lies within the stream.
pub proof fn lemma_context_map_within(bytes: Seq<u8>, pos: nat, n_trees: u16, size: nat)
    requires
        pos <= stream_len(bytes),
    ensures
        take_context_map(bytes, pos, n_trees, size) matches Ok((map, next)) ==> within(
            bytes,
            pos,
            next,
        ),
{
    reveal(take_rle_max);
    reveal(take_context_map);
    if n_trees >= 2 {
        match take_rle_max(bytes, pos) {
            Err(e) => {},
            Ok((rle_max, p1)) => {
                lemma_prefix_code_within(bytes, p1, (n_trees + rle_max) as nat);
                match take_prefix_code(bytes, p1, (n_trees + rle_max) as nat) {
                    Err(e) => {},
                    Ok((tree, p2)) => {
                        lemma_map_entries_within(tree, bytes, p2, size, rle_max as nat, Seq::empty());
                    },
                }
            },
        }
    }
}

} // verus!
