use brotli::bits::BitStream;
use brotli::codes::{
    create_block_type_codes, create_wbits_codes, lookup_symbol, parse_n_bltypes, parse_wbits,
};
use brotli::error::DecompressorError;
use brotli::header::{
    parse_m_len, parse_m_nibbles, parse_m_skip_len, parse_meta_block_header, window_size, Header,
    MetaBlockHeader,
};

fn wbits_of(bytes: Vec<u8>) -> (Result<u8, DecompressorError>, u64) {
    let codes = create_wbits_codes();
    let mut stream = BitStream::new(bytes);
    let r = parse_wbits(&mut stream, &codes);
    (r, stream.position())
}

#[test]
fn every_pattern_of_the_window_size() {
    assert_eq!(wbits_of(vec![0b0100001]), (Ok(10), 7));
    assert_eq!(wbits_of(vec![0b0110001]), (Ok(11), 7));
    assert_eq!(wbits_of(vec![0b1000001]), (Ok(12), 7));
    assert_eq!(wbits_of(vec![0b1010001]), (Ok(13), 7));
    assert_eq!(wbits_of(vec![0b1100001]), (Ok(14), 7));
    assert_eq!(wbits_of(vec![0b1110001]), (Ok(15), 7));
    assert_eq!(wbits_of(vec![0b0]), (Ok(16), 1));
    assert_eq!(wbits_of(vec![0b0000001]), (Ok(17), 7));
    assert_eq!(wbits_of(vec![0b0011]), (Ok(18), 4));
    assert_eq!(wbits_of(vec![0b0101]), (Ok(19), 4));
    assert_eq!(wbits_of(vec![0b0111]), (Ok(20), 4));
    assert_eq!(wbits_of(vec![0b1001]), (Ok(21), 4));
    assert_eq!(wbits_of(vec![0b1011]), (Ok(22), 4));
    assert_eq!(wbits_of(vec![0b1101]), (Ok(23), 4));
    assert_eq!(wbits_of(vec![0b1111]), (Ok(24), 4));
}

#[test]
fn the_bits_behind_the_window_size_do_not_matter() {
    assert_eq!(wbits_of(vec![0b1111_1011]), (Ok(22), 4));
    assert_eq!(wbits_of(vec![0b1111_1110]), (Ok(16), 1));
    assert_eq!(wbits_of(vec![0b1010_0001]), (Ok(10), 7));
}

#[test]
fn the_pattern_that_the_window_size_keeps_free() {
    assert_eq!(wbits_of(vec![0b0010001]), (Err(DecompressorError::NonZeroReserved), 0));
    assert_eq!(wbits_of(Vec::new()), (Err(DecompressorError::UnexpectedEOF), 0));
}

#[test]
fn window_sizes() {
    assert_eq!(window_size(10), 1008);
    assert_eq!(window_size(16), 65520);
    assert_eq!(window_size(22), 4194288);
    assert_eq!(window_size(24), 16777200);
}

fn count_of(bytes: Vec<u8>) -> (Result<u16, DecompressorError>, u64) {
    let codes = create_block_type_codes();
    let mut stream = BitStream::new(bytes);
    let r = parse_n_bltypes(&mut stream, &codes);
    (r, stream.position())
}

#[test]
fn counts_from_1_to_256() {
    assert_eq!(count_of(vec![0x00]), (Ok(1), 1));
    assert_eq!(count_of(vec![0x01]), (Ok(2), 4));
    assert_eq!(count_of(vec![0x03]), (Ok(3), 5));
    assert_eq!(count_of(vec![0x13]), (Ok(4), 5));
    assert_eq!(count_of(vec![0x05]), (Ok(5), 6));
    assert_eq!(count_of(vec![0x35]), (Ok(8), 6));
    assert_eq!(count_of(vec![0x07]), (Ok(9), 7));
    assert_eq!(count_of(vec![0x77]), (Ok(16), 7));
    assert_eq!(count_of(vec![0x59]), (Ok(22), 8));
    assert_eq!(count_of(vec![0x0b, 0x01]), (Ok(49), 9));
    assert_eq!(count_of(vec![0xed, 0x03]), (Ok(127), 10));
    assert_eq!(count_of(vec![0x0f, 0x00]), (Ok(129), 11));
    assert_eq!(count_of(vec![0xff, 0x07]), (Ok(256), 11));
    assert_eq!(count_of(vec![0b1111_1111]).0, Err(DecompressorError::UnexpectedEOF));
}

#[test]
fn a_table_is_searched_in_its_order() {
    let codes = create_wbits_codes();
    assert_eq!(codes.len(), 15);
    assert_eq!((codes[0].symbol, codes[0].length, codes[0].bits), (10, 7, 0x21));
    assert_eq!((codes[6].symbol, codes[6].length, codes[6].bits), (16, 1, 0));
    let mut stream = BitStream::new(vec![0x71]);
    assert_eq!(lookup_symbol(&mut stream, &codes), Ok(15));
    let counts = create_block_type_codes();
    assert_eq!(counts.len(), 9);
    assert_eq!((counts[8].symbol, counts[8].length, counts[8].bits), (129, 4, 15));
}

#[test]
fn blank_headers() {
    let header = Header::new();
    assert_eq!(header.wbits, None);
    assert_eq!(header.window_size, None);
    let block = MetaBlockHeader::new();
    assert_eq!(block.is_last, None);
    assert_eq!(block.is_last_empty, None);
    assert_eq!(block.m_nibbles, None);
    assert_eq!(block.m_skip_bytes, None);
    assert_eq!(block.m_skip_len, None);
    assert_eq!(block.m_len, None);
    assert_eq!(block.is_uncompressed, None);
}

fn header_of(bytes: Vec<u8>) -> (Result<MetaBlockHeader, DecompressorError>, u64) {
    let mut stream = BitStream::new(bytes);
    let r = parse_meta_block_header(&mut stream);
    (r, stream.position())
}

#[test]
fn the_header_of_a_last_and_empty_meta_block() {
    let (header, position) = header_of(vec![0b11]);
    let header = header.unwrap();
    assert_eq!(position, 2);
    assert_eq!(header.is_last, Some(true));
    assert_eq!(header.is_last_empty, Some(true));
    assert_eq!(header.m_nibbles, None);
    assert_eq!(header.m_len, None);
    assert_eq!(header.is_uncompressed, None);
}

#[test]
fn the_header_of_an_uncompressed_meta_block() {
    // ISLAST 0, MNIBBLES 4, MLEN - 1 = 0x1234, ISUNCOMPRESSED 1
    let (header, position) = header_of(vec![0xa0, 0x91, 0x08]);
    let header = header.unwrap();
    assert_eq!(position, 20);
    assert_eq!(header.is_last, Some(false));
    assert_eq!(header.is_last_empty, None);
    assert_eq!(header.m_nibbles, Some(4));
    assert_eq!(header.m_len, Some(0x1235));
    assert_eq!(header.is_uncompressed, Some(true));
    assert_eq!(header.m_skip_bytes, None);
}

#[test]
fn the_header_of_a_last_meta_block_has_no_bit_for_uncompressed() {
    // ISLAST 1, ISLASTEMPTY 0, MNIBBLES 6, MLEN - 1 = 0xffffff
    let (header, position) = header_of(vec![0b1111_1001, 0xff, 0xff, 0x0f]);
    let header = header.unwrap();
    assert_eq!(position, 28);
    assert_eq!(header.is_last, Some(true));
    assert_eq!(header.is_last_empty, Some(false));
    assert_eq!(header.m_nibbles, Some(6));
    assert_eq!(header.m_len, Some(0x100_0000));
    assert_eq!(header.is_uncompressed, None);
}

#[test]
fn the_header_of_a_skipped_meta_block() {
    // ISLAST 0, MNIBBLES code 3, reserved 0, MSKIPBYTES 2, MSKIPLEN - 1 = 0x0102
    let (header, position) = header_of(vec![0xa6, 0x40, 0x00]);
    let header = header.unwrap();
    assert_eq!(position, 22);
    assert_eq!(header.m_nibbles, Some(0));
    assert_eq!(header.m_skip_bytes, Some(2));
    assert_eq!(header.m_skip_len, Some(0x0103));
    assert_eq!(header.m_len, None);
    // MSKIPBYTES 0
    let (header, position) = header_of(vec![0b0000_0110]);
    let header = header.unwrap();
    assert_eq!(position, 6);
    assert_eq!(header.m_skip_bytes, Some(0));
    assert_eq!(header.m_skip_len, None);
}

#[test]
fn lengths_and_their_errors() {
    let mut stream = BitStream::new(vec![0b10]);
    assert_eq!(parse_m_nibbles(&mut stream), Ok(6));
    let mut stream = BitStream::new(vec![0b11]);
    assert_eq!(parse_m_nibbles(&mut stream), Ok(0));
    let mut stream = BitStream::new(vec![0xff, 0xff, 0x00]);
    assert_eq!(parse_m_len(&mut stream, 5), Err(DecompressorError::InvalidMLenNibble));
    let mut stream = BitStream::new(vec![0x00, 0x00, 0x01]);
    assert_eq!(parse_m_len(&mut stream, 5), Ok(0x1_0001));
    let mut stream = BitStream::new(vec![0x00, 0x00, 0x00]);
    assert_eq!(parse_m_len(&mut stream, 4), Ok(1));
    let mut stream = BitStream::new(vec![0x00]);
    assert_eq!(parse_m_skip_len(&mut stream, 1), Ok(1));
    let mut stream = BitStream::new(vec![0xff, 0x00, 0x00]);
    assert_eq!(parse_m_skip_len(&mut stream, 3), Err(DecompressorError::InvalidMSkipLen));
    let mut stream = BitStream::new(vec![0xff, 0xff, 0xff]);
    assert_eq!(parse_m_skip_len(&mut stream, 3), Ok(0x100_0000));
    let mut stream = BitStream::new(vec![0xff, 0xff]);
    assert_eq!(parse_m_skip_len(&mut stream, 3), Err(DecompressorError::UnexpectedEOF));
}
