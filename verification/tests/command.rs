use brotli::bits::BitStream;
use brotli::command::{
    decode_distance, decode_insert_and_copy_length, distance_from_ring, CommandTables,
};
use brotli::context::{distance_context_of, ContextTables};
use brotli::error::DecompressorError;
use brotli::tables::{count_distance_symbols, parse_distance_parameters};
use brotli::window::DistanceRing;

fn lengths_of(symbol: u16, bytes: Vec<u8>) -> Result<(u32, u32), DecompressorError> {
    let tables = CommandTables::new();
    let mut stream = BitStream::new(bytes);
    decode_insert_and_copy_length(&mut stream, &tables, symbol)
}

#[test]
fn the_lengths_of_insert_and_copy_symbols() {
    assert_eq!(lengths_of(0, vec![]), Ok((0, 2)));
    assert_eq!(lengths_of(63, vec![0b1]), Ok((9, 9)));
    assert_eq!(lengths_of(64, vec![0b1]), Ok((0, 11)));
    assert_eq!(lengths_of(112, vec![0b10]), Ok((6, 11)));
    assert_eq!(lengths_of(171, vec![]), Ok((5, 5)));
    assert_eq!(lengths_of(184, vec![0b1]), Ok((9, 2)));
    assert_eq!(lengths_of(207, vec![0b1001]), Ok((1, 63)));
    assert_eq!(lengths_of(256, vec![0b11]), Ok((13, 2)));
    assert_eq!(lengths_of(384, vec![0b11111]), Ok((0, 101)));
    assert_eq!(lengths_of(448, vec![0b111111]), Ok((193, 2)));
    assert_eq!(lengths_of(640, vec![0, 0]), Ok((130, 70)));
    assert_eq!(lengths_of(703, vec![5, 0, 0, 77, 0, 0]), Ok((22599, 2195)));
    assert_eq!(
        lengths_of(703, vec![0xff, 0xff, 0xff, 0xff, 0xff, 0xff]),
        Ok((22594 + 0xff_ffff, 2118 + 0xff_ffff))
    );
    assert_eq!(lengths_of(703, vec![0, 0, 0, 0, 0]), Err(DecompressorError::UnexpectedEOF));
}

#[test]
fn the_tables_of_lengths() {
    let tables = CommandTables::new();
    assert_eq!(tables.insert.len(), 24);
    assert_eq!(tables.copy.len(), 24);
    assert_eq!(tables.cells.len(), 11);
    assert_eq!((tables.insert[23].base, tables.insert[23].extra_bits), (22594, 24));
    assert_eq!((tables.insert[21].base, tables.insert[21].extra_bits), (2114, 12));
    assert_eq!((tables.copy[23].base, tables.copy[23].extra_bits), (2118, 24));
    assert_eq!((tables.copy[8].base, tables.copy[8].extra_bits), (10, 1));
    assert_eq!((tables.cells[6].insert, tables.cells[6].copy), (0, 16));
    assert_eq!((tables.cells[7].insert, tables.cells[7].copy), (16, 0));
}

#[test]
fn distances_from_the_ring() {
    let ring = DistanceRing { d0: 10, d1: 20, d2: 30, d3: 40 };
    let expected = [10, 20, 30, 40, 9, 11, 8, 12, 7, 13, 19, 21, 18, 22, 17, 23];
    for symbol in 0..16u16 {
        assert_eq!(distance_from_ring(&ring, symbol), expected[symbol as usize]);
    }
    let low = DistanceRing { d0: 2, d1: 1, d2: 1, d3: 1 };
    assert_eq!(distance_from_ring(&low, 6), 0);
    assert_eq!(distance_from_ring(&low, 8), -1);
    assert_eq!(distance_from_ring(&low, 14), -2);
}

fn distance_of(symbol: u16, n_postfix: u8, n_direct: u8, bytes: Vec<u8>) -> Result<u32, DecompressorError> {
    let ring = DistanceRing { d0: 3, d1: 2, d2: 30, d3: 40 };
    let mut stream = BitStream::new(bytes);
    decode_distance(&mut stream, symbol, n_postfix, n_direct, &ring)
}

#[test]
fn distances_of_distance_symbols() {
    assert_eq!(distance_of(0, 0, 0, vec![]), Ok(3));
    assert_eq!(distance_of(3, 0, 0, vec![]), Ok(40));
    assert_eq!(distance_of(9, 0, 0, vec![]), Ok(6));
    assert_eq!(distance_of(8, 0, 0, vec![]), Err(DecompressorError::InvalidDistance));
    assert_eq!(distance_of(12, 0, 0, vec![]), Err(DecompressorError::InvalidDistance));
    assert_eq!(distance_of(16, 0, 0, vec![0]), Ok(1));
    assert_eq!(distance_of(16, 0, 0, vec![1]), Ok(2));
    assert_eq!(distance_of(17, 0, 0, vec![0]), Ok(3));
    assert_eq!(distance_of(18, 0, 0, vec![0]), Ok(5));
    assert_eq!(distance_of(31, 0, 0, vec![235]), Ok(1000));
    assert_eq!(distance_of(27, 2, 12, vec![]), Ok(12));
    assert_eq!(distance_of(28, 2, 12, vec![0]), Ok(13));
    assert_eq!(distance_of(51, 2, 12, vec![1]), Ok(100));
    assert_eq!(distance_of(375, 3, 120, vec![0xf4, 0x7f]), Ok(0x10_0000));
    assert_eq!(distance_of(63, 1, 2, vec![2, 0]), Ok(16384));
    assert_eq!(distance_of(59, 0, 0, vec![0xf3, 0xff, 0x3f]), Ok(16777200));
    assert_eq!(distance_of(355, 3, 0, vec![3, 0, 0]), Ok(67108860));
    assert_eq!(distance_of(59, 0, 0, vec![0xf3, 0xff]), Err(DecompressorError::UnexpectedEOF));
}

#[test]
fn the_parameters_of_the_distances() {
    // NPOSTFIX 2, then the four bits 0011: NDIRECT 12
    let mut stream = BitStream::new(vec![0b001110]);
    assert_eq!(parse_distance_parameters(&mut stream), Ok((2, 12)));
    assert_eq!(stream.position(), 6);
    let mut stream = BitStream::new(vec![0b111111]);
    assert_eq!(parse_distance_parameters(&mut stream), Ok((3, 120)));
    assert_eq!(count_distance_symbols(0, 0), 64);
    assert_eq!(count_distance_symbols(2, 12), 220);
    assert_eq!(count_distance_symbols(3, 120), 520);
}

#[test]
fn contexts_of_literals() {
    let tables = ContextTables::new();
    // the lowest six bits, the highest six bits
    assert_eq!(tables.literal_context(0, 0xc7, 0x55), 7);
    assert_eq!(tables.literal_context(1, 0xc7, 0x55), 49);
    // text: the two tables for the byte before and the byte before that
    assert_eq!(tables.literal_context(2, b'e', b'h'), 59);
    assert_eq!(tables.literal_context(2, b' ', b','), 9);
    assert_eq!(tables.literal_context(2, b'7', b'A'), 46);
    assert_eq!(tables.literal_context(2, b'Q', b'9'), 54);
    assert_eq!(tables.literal_context(2, b'\n', 0), 4);
    assert_eq!(tables.literal_context(2, 0xa9, 0xc3), 3);
    assert_eq!(tables.literal_context(2, 0xa8, 0xc1), 0);
    assert_eq!(tables.literal_context(2, 0xc3, b'a'), 3);
    assert_eq!(tables.literal_context(2, 0xe2, b' '), 2);
    assert_eq!(tables.literal_context(2, 0x7f, 0x7f), 0);
    // signed bytes
    assert_eq!(tables.literal_context(3, 0, 255), 7);
    assert_eq!(tables.literal_context(3, 200, 17), 42);
    assert_eq!(tables.literal_context(3, 255, 255), 63);
    assert_eq!(tables.literal_context(3, 15, 16), 10);
    assert_eq!(tables.literal_context(3, 64, 240), 30);
}

#[test]
fn contexts_of_distances() {
    assert_eq!(distance_context_of(2), 0);
    assert_eq!(distance_context_of(3), 1);
    assert_eq!(distance_context_of(4), 2);
    assert_eq!(distance_context_of(5), 3);
    assert_eq!(distance_context_of(1000), 3);
}
