use brotli::bits::BitStream;
use brotli::decoder::Decompressor;
use brotli::error::DecompressorError;

fn decoder(bytes: &[u8]) -> Decompressor {
    Decompressor::new(BitStream::new(bytes.to_vec()))
}

const SIXTY_FOUR: [u8; 10] = [0x1b, 0x3f, 0x00, 0x00, 0x24, 0xb0, 0xe2, 0x99, 0x80, 0x12];

#[test]
fn empty_stream_with_window_of_16_bits() {
    let mut d = decoder(&[0x06]);
    let mut out = Vec::new();
    assert_eq!(d.read_to_end(&mut out), Ok(0));
    assert_eq!(out, Vec::<u8>::new());
}

#[test]
fn empty_stream_with_window_of_22_bits() {
    let mut d = decoder(&[0x3b]);
    assert_eq!(d.decompress(), Ok(0));
    assert_eq!(d.header().wbits, Some(22));
    assert_eq!(d.header().window_size, Some(4194288));
}

#[test]
fn one_uncompressed_byte() {
    let mut d = decoder(&[0x0b, 0x00, 0x80, 0x58, 0x03]);
    let mut out = Vec::new();
    assert_eq!(d.read_to_end(&mut out), Ok(1));
    assert_eq!(out, b"X".to_vec());
}

#[test]
fn sixty_four_times_one_letter() {
    let mut d = decoder(&SIXTY_FOUR);
    let mut out = Vec::new();
    assert_eq!(d.read_to_end(&mut out), Ok(64));
    assert_eq!(out, vec![b'X'; 64]);
}

#[test]
fn ten_of_one_letter_and_ten_of_another() {
    let mut d =
        decoder(&[0x1b, 0x13, 0x00, 0x00, 0xa4, 0xb0, 0xb2, 0xea, 0x81, 0x47, 0x02, 0x8a]);
    let mut out = Vec::new();
    assert_eq!(d.read_to_end(&mut out), Ok(20));
    assert_eq!(out, b"XXXXXXXXXXYYYYYYYYYY".to_vec());
}

#[test]
fn nothing_is_known_of_the_header_before_the_first_read() {
    let d = decoder(&SIXTY_FOUR);
    assert_eq!(d.header().wbits, None);
    assert_eq!(d.header().window_size, None);
}

#[test]
fn reading_in_pieces() {
    let mut d = decoder(&SIXTY_FOUR);
    let mut piece = vec![0u8; 10];
    let mut all = Vec::new();
    let mut reads = 0;
    loop {
        let n = d.read(&mut piece).unwrap();
        if n == 0 {
            break;
        }
        assert!(n <= 10);
        all.extend_from_slice(&piece[..n]);
        reads += 1;
    }
    assert_eq!(all, vec![b'X'; 64]);
    assert_eq!(reads, 7);
    assert_eq!(d.read(&mut piece), Ok(0));
}

#[test]
fn a_read_into_a_part_of_a_buffer() {
    let mut d = decoder(&SIXTY_FOUR);
    let mut buffer = [b'-'; 12];
    assert_eq!(d.read(&mut buffer[3..8]), Ok(5));
    assert_eq!(&buffer, b"---XXXXX----");
}

#[test]
fn a_read_leaves_the_rest_of_the_buffer() {
    let mut d = decoder(&[0x0b, 0x00, 0x80, 0x58, 0x03]);
    let mut piece = vec![7u8; 4];
    assert_eq!(d.read(&mut piece), Ok(1));
    assert_eq!(piece, vec![b'X', 7, 7, 7]);
    assert_eq!(d.read(&mut piece), Ok(0));
    assert_eq!(piece, vec![b'X', 7, 7, 7]);
}

#[test]
fn a_read_into_nothing() {
    let mut d = decoder(&[0x0b, 0x00, 0x80, 0x58, 0x03]);
    let mut nothing = Vec::new();
    assert_eq!(d.read(&mut nothing), Ok(0));
    let mut piece = vec![0u8; 2];
    assert_eq!(d.read(&mut piece), Ok(1));
    assert_eq!(piece[0], b'X');
}

#[test]
fn the_rest_after_a_read() {
    let mut d = decoder(&SIXTY_FOUR);
    let mut piece = vec![0u8; 60];
    assert_eq!(d.read(&mut piece), Ok(60));
    let mut out = b"rest: ".to_vec();
    assert_eq!(d.read_to_end(&mut out), Ok(4));
    assert_eq!(out, b"rest: XXXX".to_vec());
    assert_eq!(d.read_to_end(&mut out), Ok(0));
}

#[test]
fn meta_block_by_meta_block() {
    // two uncompressed meta-blocks and the end
    let stream = [0x0b, 0x00, 0x80, b'a', 0x08, 0x00, 0x08, b'b', b'c', 0x03];
    let mut d = decoder(&stream);
    assert_eq!(d.decompress(), Ok(1));
    assert_eq!(d.decompress(), Ok(1));
    assert_eq!(d.take_pending(), b"a".to_vec());
    assert_eq!(d.decompress(), Ok(2));
    assert_eq!(d.take_pending(), b"bc".to_vec());
    assert_eq!(d.take_pending(), Vec::<u8>::new());
    assert_eq!(d.decompress(), Ok(0));
    assert_eq!(d.decompress(), Ok(0));
}

#[test]
fn the_bytes_before_an_error_are_handed_out_first() {
    // an uncompressed meta-block, then a meta-block that the input cuts off
    let stream = [0x0b, 0x00, 0x80, b'a', 0x08, 0x00, 0x08, b'b'];
    let mut d = decoder(&stream);
    let mut piece = vec![0u8; 8];
    assert_eq!(d.read(&mut piece), Ok(1));
    assert_eq!(piece[0], b'a');
    assert_eq!(d.read(&mut piece), Err(DecompressorError::UnexpectedEOF));
    assert_eq!(d.read(&mut piece), Err(DecompressorError::UnexpectedEOF));
    assert_eq!(d.decompress(), Err(DecompressorError::UnexpectedEOF));
    let mut d = decoder(&stream);
    let mut out = Vec::new();
    assert_eq!(d.read_to_end(&mut out), Err(DecompressorError::UnexpectedEOF));
    assert_eq!(out, b"a".to_vec());
}

#[test]
fn the_bytes_of_the_last_meta_block_come_before_an_error_behind_it() {
    let mut stream = SIXTY_FOUR.to_vec();
    stream.push(0x01);
    let mut d = decoder(&stream);
    let mut out = Vec::new();
    assert_eq!(d.read_to_end(&mut out), Err(DecompressorError::UnexpectedExtraInput));
    assert_eq!(out, vec![b'X'; 64]);
}

#[test]
fn a_stream_that_starts_within_the_input() {
    let mut input = BitStream::new(vec![0xff, 0xff, 0x0b, 0x00, 0x80, 0x58, 0x03]);
    assert_eq!(input.skip_bits(16), Ok(()));
    let mut d = Decompressor::new(input);
    let mut out = Vec::new();
    assert_eq!(d.read_to_end(&mut out), Ok(1));
    assert_eq!(out, b"X".to_vec());
}

fn uncompressed(length: usize) -> (Vec<u8>, Vec<u8>) {
    let data: Vec<u8> = (0..length).map(|i| (i * 31 + i / 251) as u8).collect();
    // window 16; ISLAST 0; MNIBBLES 6; MLEN - 1; ISUNCOMPRESSED 1; fill
    let v = (length - 1) as u32;
    let bits: u64 = 0b0 | 0b0 << 1 | 0b10 << 2 | (v as u64) << 4 | 1 << 28;
    let mut stream = bits.to_le_bytes()[..4].to_vec();
    stream.extend_from_slice(&data);
    stream.push(0x03);
    (stream, data)
}

#[test]
fn the_longest_uncompressed_meta_block() {
    let (stream, data) = uncompressed(1 << 24);
    let mut d = Decompressor::new(BitStream::new(stream));
    let mut out = Vec::new();
    assert_eq!(d.read_to_end(&mut out), Ok(1 << 24));
    assert!(out == data);
}

#[test]
fn an_uncompressed_meta_block_that_wraps_the_window() {
    // window 10: 1008 bytes; 100000 bytes go round it many times, and a copy across the seam
    let data: Vec<u8> = (0..100000usize).map(|i| (i * 7 + i / 13) as u8).collect();
    let v = (data.len() - 1) as u64;
    // the window size pattern 0100001, ISLAST 0, MNIBBLES 5, MLEN - 1, ISUNCOMPRESSED 1
    let bits: u64 = 0x21 | 0 << 7 | 0b01 << 8 | v << 10 | 1 << 30;
    let mut stream = bits.to_le_bytes()[..4].to_vec();
    stream.extend_from_slice(&data);
    // a last meta-block of 1008 bytes: one command that inserts nothing and copies 1008
    // bytes at the distance 1008
    stream.extend_from_slice(&LAST_COPY);
    let mut d = Decompressor::new(BitStream::new(stream));
    let mut out = Vec::new();
    assert_eq!(d.read_to_end(&mut out), Ok(101008));
    assert_eq!(&out[..100000], &data[..]);
    assert_eq!(&out[100000..], &data[100000 - 1008..]);
}

const LAST_COPY: [u8; 11] = [0xf1, 0x3e, 0x00, 0x00, 0x02, 0x20, 0x0a, 0x8b, 0x4f, 0xf5, 0x3c];

#[test]
fn a_meta_block_that_skips_many_bytes() {
    // window 16; an uncompressed meta-block "one"; a meta-block that skips 0x010203 bytes,
    // its length written in three bytes; an uncompressed meta-block "two"; the end
    let mut stream = vec![0x20, 0x00, 0x10, b'o', b'n', b'e', 0xb6, 0x80, 0x40, 0x00];
    stream.extend((0..0x010203usize).map(|i| (i * 7 + 1) as u8));
    stream.extend_from_slice(&[0x10, 0x00, 0x08, b't', b'w', b'o', 0x03]);
    let mut d = Decompressor::new(BitStream::new(stream.clone()));
    let mut out = Vec::new();
    assert_eq!(d.read_to_end(&mut out), Ok(6));
    assert_eq!(out, b"onetwo".to_vec());
    // one byte less to skip than the header says
    stream.truncate(10 + 0x010202);
    let mut d = Decompressor::new(BitStream::new(stream));
    let mut out = Vec::new();
    assert_eq!(d.read_to_end(&mut out), Err(DecompressorError::UnexpectedEOF));
    assert_eq!(out, b"one".to_vec());
}

#[test]
fn a_stream_that_has_ended_was_read_to_its_last_bit() {
    let mut d = decoder(&SIXTY_FOUR);
    assert_eq!(d.bits_read(), 0);
    let mut out = Vec::new();
    assert_eq!(d.read_to_end(&mut out), Ok(64));
    assert_eq!(d.bits_read(), 80);
    // an empty stream of three bits: the other bits of its byte are passed over
    let mut d = decoder(&[0x06]);
    assert_eq!(d.decompress(), Ok(0));
    assert_eq!(d.bits_read(), 8);
}

#[test]
fn the_output_is_as_long_as_the_meta_blocks_say() {
    // uncompressed meta-blocks of 1 and of 2 bytes, a compressed one of 64 bytes
    let mut stream = vec![0x0b, 0x00, 0x80, b'a', 0x08, 0x00, 0x08, b'b', b'c'];
    // the last meta-block of the stream of 64 letters, without its window size:
    // ISLAST, not empty, MNIBBLES 4, MLEN - 1 = 63, and the rest as it is
    stream.extend_from_slice(&[0xf1, 0x03, 0x00, 0x40, 0x02, 0x2b, 0x9e, 0x09, 0x28, 0x01]);
    let mut d = decoder(&stream);
    let mut out = Vec::new();
    assert_eq!(d.read_to_end(&mut out), Ok(1 + 2 + 64));
    assert_eq!(&out[..3], b"abc");
    assert_eq!(&out[3..], &[b'X'; 64][..]);
}

#[test]
fn the_header_of_a_stream_that_cannot_be_begun_stays_unknown() {
    // the pattern that the window size code keeps free
    let mut d = decoder(&[0x11, 0x00, 0x00]);
    assert_eq!(d.decompress(), Err(DecompressorError::NonZeroReserved));
    assert_eq!(d.header().wbits, None);
    assert_eq!(d.header().window_size, None);
    // a stream that fails behind its header keeps the header
    let mut d = decoder(&[0x0b, 0x00, 0x80]);
    assert_eq!(d.decompress(), Err(DecompressorError::UnexpectedEOF));
    assert_eq!(d.header().wbits, Some(22));
    assert_eq!(d.header().window_size, Some(4194288));
}
