use brotli::bits::BitStream;
use brotli::decoder::Decompressor;
use brotli::error::DecompressorError;

fn decode(bytes: &[u8]) -> (Vec<u8>, Option<DecompressorError>) {
    let mut decoder = Decompressor::new(BitStream::new(bytes.to_vec()));
    let mut out = Vec::new();
    match decoder.read_to_end(&mut out) {
        Ok(n) => {
            assert_eq!(n, out.len());
            (out, None)
        }
        Err(e) => (out, Some(e)),
    }
}

// Window 22; an uncompressed meta-block of 14 bytes; an empty last meta-block.
#[test]
fn uncompressed_hello_world() {
    let stream: Vec<u8> = vec![
        0x8b, 0x06, 0x80, 0x48, 0x65, 0x6c, 0x6c, 0x6f, 0x2c, 0x20, 0x57, 0x6f,
        0x72, 0x6c, 0x64, 0x21, 0x0a, 0x03,
    ];
    assert_eq!(decode(&stream), (vec![
        0x48, 0x65, 0x6c, 0x6c, 0x6f, 0x2c, 0x20, 0x57, 0x6f, 0x72, 0x6c, 0x64,
        0x21, 0x0a,
    ], None));
}

// Literals a to e with a complex code of lengths 2, 2, 2, 3, 3; one command, insert 5, copy 5, distance 5.
#[test]
fn insert_five_copy_five_at_distance_five() {
    let stream: Vec<u8> = vec![
        0x22, 0x01, 0x00, 0x00, 0xc0, 0xc6, 0x01, 0x00, 0x00, 0x00, 0x00, 0x00,
        0x00, 0x00, 0x00, 0x00, 0x00, 0x00, 0xa8, 0x3e, 0x56, 0x09, 0x09, 0xdb,
        0x01,
    ];
    assert_eq!(decode(&stream), (b"abcdeabcde".to_vec(), None));
}

// Eight literals and a copy; then, for each ring symbol from 0 to 15, copies at distance 7 and at distance 5 and a copy with the ring symbol; last a command that uses the last distance again.
#[test]
fn every_distance_symbol_of_the_ring() {
    let stream: Vec<u8> = vec![
        0x82, 0x0d, 0x00, 0x00, 0x00, 0xc7, 0x01, 0x00, 0x00, 0x00, 0x00, 0x00,
        0x00, 0x00, 0x00, 0x00, 0x00, 0x00, 0xf8, 0x4f, 0x40, 0x70, 0x09, 0x00,
        0x60, 0xb7, 0xaa, 0xaa, 0xaa, 0x7a, 0x3f, 0x50, 0x4e, 0xf7, 0xc7, 0xd7,
        0x07, 0xf8, 0xfa, 0x40, 0x5f, 0x1f, 0xe4, 0xeb, 0x83, 0x7d, 0x7d, 0x88,
        0xaf, 0x0f, 0xf5, 0xf5, 0x61, 0xbe, 0x3e, 0xdc, 0xd7, 0x47, 0xf8, 0xfa,
        0x48, 0x5f, 0x1f, 0xe5, 0xeb, 0xa3, 0x7d, 0x7d, 0x8c, 0xaf, 0x8f, 0xf5,
        0xf5, 0x71, 0x7c, 0x7d, 0xdc, 0x00,
    ];
    assert_eq!(decode(&stream), (b"abcdefghfgdehfgdgdfgfgdggfgfgdfgfgfggffggffffgggffgfggfgfgfggfgfgffggffggggfffggggffgggfgfggfgfggffggffffggff".to_vec(), None));
}

// NPOSTFIX 1, NDIRECT 2; 32 literals, then copies of 2 bytes at the distances 1, 2, 3, 4, 5, 6, 7, 9, 13, 17, 21, 30.
#[test]
fn direct_distances_and_postfix_bits() {
    let stream: Vec<u8> = vec![
        0xe2, 0x06, 0x00, 0x05, 0x00, 0xc7, 0x01, 0x00, 0x00, 0x00, 0x00, 0x00,
        0x00, 0x00, 0x00, 0x00, 0x00, 0x00, 0xf8, 0x2f, 0x40, 0x30, 0x02, 0x8e,
        0x03, 0x00, 0xf8, 0xca, 0x06, 0xe5, 0x74, 0x07, 0xe5, 0x74, 0x07, 0xe5,
        0x74, 0x07, 0xe5, 0x74, 0x07, 0x12, 0x46, 0xb9, 0x90, 0x9a, 0x6e, 0x79,
        0x00,
    ];
    assert_eq!(decode(&stream), (b"abcdefghabcdefghabcdefghabcdefghhhhhhhhhhhhhhhhhhhhhhhab".to_vec(), None));
}

// NPOSTFIX 3, NDIRECT 40; 64 literals, then copies of 2 bytes at the distances 40, 41, 8, 48, 49, 57, 33, 20.
#[test]
fn long_distances_with_three_postfix_bits() {
    let stream: Vec<u8> = vec![
        0xe2, 0x09, 0x00, 0x17, 0x00, 0xc7, 0x01, 0x00, 0x00, 0x00, 0x00, 0x00,
        0x00, 0x00, 0x00, 0x00, 0x00, 0x00, 0xf8, 0x2f, 0x40, 0x50, 0x02, 0x8e,
        0x0b, 0x00, 0x00, 0x04, 0x40, 0x00, 0x08, 0x0c, 0xdc, 0x41, 0x39, 0xdd,
        0x41, 0x39, 0xdd, 0x41, 0x39, 0xdd, 0x41, 0x39, 0xdd, 0x41, 0x39, 0xdd,
        0x41, 0x39, 0xdd, 0x41, 0x39, 0xdd, 0x41, 0x39, 0xdd, 0xa3, 0xd0, 0x68,
        0xc7, 0x04,
    ];
    assert_eq!(decode(&stream), (b"abcdefghabcdefghabcdefghabcdefghabcdefghabcdefghabcdefghabcdefghabbcefghhabcdecd".to_vec(), None));
}

// Literals with a simple code of the symbols c, a, b in this order (lengths 1, 2, 2).
#[test]
fn simple_code_of_three_symbols() {
    let stream: Vec<u8> = vec![
        0xa2, 0x00, 0x00, 0x00, 0xe4, 0x58, 0x98, 0x58, 0xc0, 0x12, 0x80, 0xa6,
        0x01,
    ];
    assert_eq!(decode(&stream), (b"abccab".to_vec(), None));
}

// Literals with a simple code of the symbols d, b, c, a, all of length 2.
#[test]
fn simple_code_of_four_symbols_flat() {
    let stream: Vec<u8> = vec![
        0xa2, 0x00, 0x00, 0x00, 0x34, 0x99, 0xd8, 0x58, 0x98, 0x80, 0x25, 0x00,
        0xd8, 0x03,
    ];
    assert_eq!(decode(&stream), (b"abcdda".to_vec(), None));
}

// Literals with a simple code of the symbols d, b, c, a with lengths 1, 2, 3, 3.
#[test]
fn simple_code_of_four_symbols_skewed() {
    let stream: Vec<u8> = vec![
        0xe2, 0x00, 0x00, 0x00, 0x34, 0x99, 0xd8, 0x58, 0xd8, 0xc0, 0x25, 0x00,
        0xeb, 0xec, 0x01,
    ];
    assert_eq!(decode(&stream), (b"abcddacb".to_vec(), None));
}

// A complex code of 16 literals of length 4, written with runs of lengths and runs of zeros that are continued.
#[test]
fn code_lengths_with_runs() {
    let stream: Vec<u8> = vec![
        0xe2, 0x01, 0x00, 0x00, 0x00, 0x6c, 0x8c, 0x19, 0xfb, 0xd8, 0x9e, 0x7b,
        0x8c, 0x40, 0x28, 0x00, 0x01, 0x89, 0x67, 0xef, 0x45, 0xcd, 0x23, 0xab,
        0x01,
    ];
    assert_eq!(decode(&stream), (vec![
        0x00, 0x01, 0x02, 0x03, 0xfc, 0xfd, 0xfe, 0xff, 0x40, 0x41, 0x42, 0x43,
        0x44, 0x45, 0x46, 0x47,
    ], None));
}

// Two block types of literals with a tree each; blocks of 3, 2, 4 and 8 literals, reached by the symbols for the next type, the type before and type 1.
#[test]
fn block_types_of_the_literals() {
    let stream: Vec<u8> = vec![
        0x62, 0x01, 0x20, 0x92, 0x2e, 0x10, 0x08, 0x00, 0xb1, 0xca, 0x07, 0xfc,
        0xff, 0xff, 0xff, 0xff, 0xff, 0xff, 0xff, 0x53, 0x61, 0x62, 0x85, 0x97,
        0x17, 0x00, 0x05, 0xa0, 0x92, 0xac, 0x7f,
    ];
    assert_eq!(decode(&stream), (b"abaxyababyyx".to_vec(), None));
}

// Context mode 0 and two trees; the context map, written with the move-to-front transform, sends even contexts to the first tree and odd ones to the second.
#[test]
fn context_map_with_move_to_front() {
    let stream: Vec<u8> = vec![
        0xe2, 0x04, 0x00, 0x00, 0xa1, 0xf4, 0xff, 0xff, 0xff, 0xff, 0xff, 0xff,
        0xff, 0xaf, 0xc2, 0xc8, 0x4a, 0x6c, 0x2c, 0x40, 0x0a, 0xc0, 0x8a, 0x30,
        0x42, 0x98, 0x08, 0x01,
    ];
    assert_eq!(decode(&stream), (b"dacbabdababddabacbabacbabaccbacbabdababd".to_vec(), None));
}

// An uncompressed meta-block, a meta-block that skips 5 bytes, one that skips none, an uncompressed meta-block, the end.
#[test]
fn skipped_meta_blocks() {
    let stream: Vec<u8> = vec![
        0x20, 0x00, 0x10, 0x6f, 0x6e, 0x65, 0x16, 0x01, 0xff, 0x00, 0xaa, 0x55,
        0x01, 0x06, 0x10, 0x00, 0x08, 0x74, 0x77, 0x6f, 0x03,
    ];
    assert_eq!(decode(&stream), (b"onetwo".to_vec(), None));
}

// No byte at all.
#[test]
fn no_input() {
    let stream: Vec<u8> = vec![];
    assert_eq!(decode(&stream), (Vec::new(), Some(DecompressorError::UnexpectedEOF)));
}

// The pattern 0010001 of the window size code.
#[test]
fn reserved_window_size() {
    let stream: Vec<u8> = vec![
        0x11, 0x00, 0x00,
    ];
    assert_eq!(decode(&stream), (Vec::new(), Some(DecompressorError::NonZeroReserved)));
}

// An uncompressed meta-block with a bit set before its bytes.
#[test]
fn fill_bit_set() {
    let stream: Vec<u8> = vec![
        0x00, 0x00, 0x30, 0x78, 0x03,
    ];
    assert_eq!(decode(&stream), (Vec::new(), Some(DecompressorError::NonZeroFill)));
}

// A skipped meta-block with its reserved bit set.
#[test]
fn reserved_bit_set() {
    let stream: Vec<u8> = vec![
        0x1c, 0x00,
    ];
    assert_eq!(decode(&stream), (Vec::new(), Some(DecompressorError::NonZeroReserved)));
}

// A bit set behind the last meta-block.
#[test]
fn trailer_bit_set() {
    let stream: Vec<u8> = vec![
        0x0e,
    ];
    assert_eq!(decode(&stream), (Vec::new(), Some(DecompressorError::NonZeroTrailer)));
}

// A skip length of two bytes of which the higher one is zero.
#[test]
fn skip_length_with_zero_byte() {
    let stream: Vec<u8> = vec![
        0x4c, 0x09, 0x00, 0x00, 0x00, 0x00, 0x00, 0x00, 0x00, 0x00, 0x00, 0x00,
        0x00, 0x00, 0x00, 0x00, 0x00, 0x00, 0x00, 0x00, 0x00, 0x00, 0x00, 0x00,
        0x00, 0x00, 0x00, 0x00, 0x00, 0x00, 0x00, 0x00, 0x00, 0x00, 0x00,
    ];
    assert_eq!(decode(&stream), (Vec::new(), Some(DecompressorError::InvalidMSkipLen)));
}

// A length of five nibbles of which the highest one is zero.
#[test]
fn length_with_zero_nibble() {
    let stream: Vec<u8> = vec![
        0xf4, 0xff, 0x0f, 0x01, 0x00, 0x00, 0x00, 0x00, 0x00, 0x00, 0x00, 0x00,
        0x00, 0x00, 0x00, 0x00, 0x00, 0x00, 0x00, 0x00, 0x00, 0x00, 0x00, 0x00,
        0x00, 0x00, 0x00, 0x00, 0x00, 0x00, 0x00, 0x00, 0x00, 0x00, 0x00, 0x00,
    ];
    assert_eq!(decode(&stream), (Vec::new(), Some(DecompressorError::InvalidMLenNibble)));
}

// A simple code that names the literal a twice.
#[test]
fn simple_code_with_a_symbol_twice() {
    let stream: Vec<u8> = vec![
        0x62, 0x00, 0x00, 0x00, 0x54, 0x58, 0x18, 0x00, 0x00, 0x00, 0x00, 0x00,
        0x00, 0x00, 0x00,
    ];
    assert_eq!(decode(&stream), (Vec::new(), Some(DecompressorError::MalformedCode)));
}

// A simple code of insert-and-copy symbols that names symbol 704.
#[test]
fn simple_code_with_a_symbol_beyond_the_alphabet() {
    let stream: Vec<u8> = vec![
        0x62, 0x00, 0x00, 0x00, 0x44, 0x58, 0x00, 0x0b, 0x00, 0x00, 0x00, 0x00,
        0x00, 0x00, 0x00, 0x00,
    ];
    assert_eq!(decode(&stream), (Vec::new(), Some(DecompressorError::MalformedCode)));
}

// A code length code that leaves code space unused.
#[test]
fn code_length_code_that_is_not_complete() {
    let stream: Vec<u8> = vec![
        0x62, 0x00, 0x00, 0x00, 0x50, 0x00, 0x00, 0x00, 0x00, 0x00, 0x00, 0x00,
        0x00, 0x00, 0x00, 0x00, 0x00,
    ];
    assert_eq!(decode(&stream), (Vec::new(), Some(DecompressorError::MalformedCode)));
}

// A command that inserts 4 literals into a meta-block of 3 bytes.
#[test]
fn insert_beyond_the_meta_block() {
    let stream: Vec<u8> = vec![
        0x42, 0x00, 0x00, 0x00, 0x44, 0x58, 0x80, 0x12, 0x00,
    ];
    assert_eq!(decode(&stream), (Vec::new(), Some(DecompressorError::MalformedCode)));
}

// A command that inserts 1 literal and copies 3 bytes in a meta-block of 3 bytes.
#[test]
fn copy_beyond_the_meta_block() {
    let stream: Vec<u8> = vec![
        0x42, 0x00, 0x00, 0x00, 0x44, 0x58, 0x24, 0x12, 0x10,
    ];
    assert_eq!(decode(&stream), (Vec::new(), Some(DecompressorError::InvalidDistance)));
}

// The last distance less 3, twice: 1, and then a distance that is not positive.
#[test]
fn ring_distance_below_one() {
    let stream: Vec<u8> = vec![
        0x62, 0x01, 0x00, 0x00, 0x44, 0x58, 0x01, 0x02, 0x4a, 0x20, 0x01,
    ];
    assert_eq!(decode(&stream), (Vec::new(), Some(DecompressorError::InvalidDistance)));
}

// A copy of 4 bytes at the distance 4 behind one literal, with a dictionary that holds no word.
#[test]
fn distance_beyond_the_output() {
    let stream: Vec<u8> = vec![
        0x82, 0x00, 0x00, 0x00, 0x44, 0x58, 0x28, 0x12, 0x00,
    ];
    assert_eq!(decode(&stream), (Vec::new(), Some(DecompressorError::InvalidDictionaryRef)));
}

// An empty stream and one more byte.
#[test]
fn byte_behind_the_end() {
    let stream: Vec<u8> = vec![
        0x06, 0x01,
    ];
    assert_eq!(decode(&stream), (Vec::new(), Some(DecompressorError::UnexpectedExtraInput)));
}

// The stream of 64 times one letter without its last byte.
#[test]
fn truncated_in_the_commands() {
    let stream: Vec<u8> = vec![
        0x1b, 0x3f, 0x00, 0x00, 0x24, 0xb0, 0xe2, 0x99, 0x80,
    ];
    assert_eq!(decode(&stream), (Vec::new(), Some(DecompressorError::UnexpectedEOF)));
}

// Window 22 and a last meta-block of one byte, whose tables end with the input.
#[test]
fn four_bytes_that_end_in_the_tables() {
    let stream: Vec<u8> = vec![
        0x1b, 0x00, 0x00, 0x00,
    ];
    assert_eq!(decode(&stream), (Vec::new(), Some(DecompressorError::UnexpectedEOF)));
}

// The pattern 0010001 of the window size code before the body of another stream.
#[test]
fn reserved_window_size_before_a_body() {
    let stream: Vec<u8> = vec![
        0x11, 0x3f, 0x00, 0x00, 0x24, 0xb0, 0xe2, 0x99, 0x80, 0x12,
    ];
    assert_eq!(decode(&stream), (Vec::new(), Some(DecompressorError::NonZeroReserved)));
}
