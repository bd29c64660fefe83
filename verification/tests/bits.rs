use brotli::bits::BitStream;
use brotli::error::DecompressorError;

#[test]
fn bits_come_from_the_least_significant_end() {
    let mut stream = BitStream::new(vec![0b0000_0101, 0b1000_0000]);
    let mut bits = Vec::new();
    for _ in 0..16 {
        bits.push(stream.read_bit().unwrap());
    }
    let expected = [
        true, false, true, false, false, false, false, false, false, false, false, false, false,
        false, false, true,
    ];
    assert_eq!(bits, expected);
    assert_eq!(stream.read_bit(), Err(DecompressorError::UnexpectedEOF));
    assert_eq!(stream.position(), 16);
}

#[test]
fn the_first_bit_is_the_lowest_bit_of_a_number() {
    let mut stream = BitStream::new(vec![0xb1, 0x3c, 0xa5, 0x0f, 0xf0]);
    assert_eq!(stream.read_u8_from_n_bits(3), Ok(0b001));
    assert_eq!(stream.read_u8_from_n_bits(5), Ok(0b10110));
    assert_eq!(stream.read_u16_from_n_bits(12), Ok(0x53c));
    assert_eq!(stream.position(), 20);
    assert_eq!(stream.read_u32_from_n_bits(20), Ok(0xf00fa));
    assert_eq!(stream.remaining(), 0);
}

#[test]
fn a_number_of_no_bits_is_zero() {
    let mut stream = BitStream::new(vec![0xff]);
    assert_eq!(stream.read_u32_from_n_bits(0), Ok(0));
    assert_eq!(stream.position(), 0);
    let mut empty = BitStream::new(Vec::new());
    assert_eq!(empty.read_u32_from_n_bits(0), Ok(0));
}

#[test]
fn thirty_two_bits_at_once() {
    let mut stream = BitStream::new(vec![0x78, 0x56, 0x34, 0x12, 0xff]);
    assert_eq!(stream.read_u32_from_n_bits(32), Ok(0x1234_5678));
    let mut shifted = BitStream::new(vec![0xf1, 0xac, 0x68, 0x24, 0x01]);
    assert_eq!(shifted.read_bit(), Ok(true));
    assert_eq!(shifted.read_u32_from_n_bits(32), Ok(0x9234_5678));
}

#[test]
fn a_read_beyond_the_end_takes_nothing() {
    let mut stream = BitStream::new(vec![0xab]);
    assert_eq!(stream.read_u8_from_n_bits(5), Ok(0x0b));
    assert_eq!(stream.read_u8_from_n_bits(4), Err(DecompressorError::UnexpectedEOF));
    assert_eq!(stream.position(), 5);
    assert_eq!(stream.read_u8_from_n_bits(3), Ok(0x05));
    assert_eq!(stream.read_u8(), Err(DecompressorError::UnexpectedEOF));
    assert_eq!(stream.skip_bits(1), Err(DecompressorError::UnexpectedEOF));
    assert_eq!(stream.read_fixed_length_string(1), Err(DecompressorError::UnexpectedEOF));
    assert_eq!(stream.read_fixed_length_string(0), Ok(Vec::new()));
}

#[test]
fn nibbles_are_four_bits_each() {
    let mut stream = BitStream::new(vec![0x21, 0x43, 0x65]);
    assert_eq!(stream.read_u32_from_n_nibbles(5), Ok(0x54321));
    assert_eq!(stream.position(), 20);
}

#[test]
fn bytes_at_a_boundary_and_across_boundaries() {
    let mut stream = BitStream::new(vec![0x12, 0x34, 0x56, 0x78]);
    assert_eq!(stream.read_u8(), Ok(0x12));
    assert_eq!(stream.read_u8_from_n_bits(4), Ok(0x4));
    assert_eq!(stream.read_u8(), Ok(0x63));
    assert_eq!(stream.read_fixed_length_string(1), Ok(vec![0x85]));
    assert_eq!(stream.read_u8_from_n_bits(4), Ok(0x7));
    let mut whole = BitStream::new(vec![1, 2, 3, 4, 5]);
    assert_eq!(whole.read_fixed_length_string(5), Ok(vec![1, 2, 3, 4, 5]));
}

#[test]
fn the_tail_of_a_byte() {
    let mut stream = BitStream::new(vec![0b1010_0110, 0xff]);
    assert_eq!(stream.read_u8_from_byte_tail(), 0);
    assert_eq!(stream.position(), 0);
    assert_eq!(stream.read_u8_from_n_bits(3), Ok(0b110));
    assert_eq!(stream.read_u8_from_byte_tail(), 0b10100);
    assert_eq!(stream.position(), 8);
    assert_eq!(stream.read_bit(), Ok(true));
    assert_eq!(stream.read_u8_from_byte_tail(), 0x7f);
    assert_eq!(stream.remaining(), 0);
}

#[test]
fn looking_ahead_takes_nothing() {
    let mut stream = BitStream::new(vec![0xc5, 0x01]);
    assert_eq!(stream.peek_u32_from_n_bits(9), Ok(0x1c5));
    assert_eq!(stream.position(), 0);
    assert_eq!(stream.peek_u32_from_n_bits(17), Err(DecompressorError::UnexpectedEOF));
    assert_eq!(stream.skip_bits(4), Ok(()));
    assert_eq!(stream.peek_u32_from_n_bits(8), Ok(0x1c));
    assert!(stream.bit_at(0));
    assert!(!stream.bit_at(1));
    assert_eq!(stream.uint_at(6, 3), 0b111);
    assert_eq!(stream.byte_at(4), 0x1c);
    assert_eq!(stream.byte_at(8), 0x01);
}
