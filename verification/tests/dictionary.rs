use brotli::bits::BitStream;
use brotli::decoder::Decompressor;
use brotli::dictionary::{apply_transform, Dictionary, Transform, TransformKind};
use brotli::error::DecompressorError;

fn transform(prefix: &[u8], kind: TransformKind, suffix: &[u8]) -> Transform {
    Transform { prefix: prefix.to_vec(), kind, suffix: suffix.to_vec() }
}

fn transforms() -> Vec<Transform> {
    vec![
        transform(b"", TransformKind::Identity, b""),
        transform(b"", TransformKind::UppercaseFirst, b" "),
        transform(b"", TransformKind::OmitFirst(1), b""),
        transform(b" the ", TransformKind::UppercaseAll, b"."),
        transform(b"", TransformKind::OmitLast(3), b"ing "),
        transform(b"", TransformKind::OmitFirst(9), b""),
    ]
}

// Four words of 4 bytes at the start, and two words of 24 bytes where the words of that
// length start.
fn words() -> Vec<u8> {
    let mut words = vec![0u8; 122016 + 48];
    words[..16].copy_from_slice(b"abcdefghwxyztime");
    words[122016..122040].copy_from_slice(b"the quick brown fox jump");
    words[122040..122064].copy_from_slice(&[
        0xc3, 0xa4, 0x62, 0x63, 0x20, 0xe2, 0x82, 0xac, 0x20, 0x75, 0x72, 0x6f, 0x20, 0x7a, 0x65,
        0x62, 0x72, 0x61, 0x20, 0xc3, 0x20, 0x71, 0x20, 0xe2,
    ]);
    words
}

fn applied(word: &[u8], kind: TransformKind) -> Vec<u8> {
    apply_transform(&word.to_vec(), 0, word.len(), &transform(b"<", kind, b">"))
}

#[test]
fn what_the_kinds_of_transform_do() {
    assert_eq!(applied(b"word", TransformKind::Identity), b"<word>".to_vec());
    assert_eq!(applied(b"word", TransformKind::UppercaseFirst), b"<Word>".to_vec());
    assert_eq!(applied(b"Word", TransformKind::UppercaseFirst), b"<Word>".to_vec());
    assert_eq!(applied(b"9ord", TransformKind::UppercaseFirst), b"<9ord>".to_vec());
    assert_eq!(applied(b"wo rd{z", TransformKind::UppercaseAll), b"<WO RD{Z>".to_vec());
    assert_eq!(applied(b"word", TransformKind::OmitFirst(1)), b"<ord>".to_vec());
    assert_eq!(applied(b"word", TransformKind::OmitFirst(3)), b"<d>".to_vec());
    assert_eq!(applied(b"word", TransformKind::OmitFirst(4)), b"<>".to_vec());
    assert_eq!(applied(b"word", TransformKind::OmitFirst(9)), b"<>".to_vec());
    assert_eq!(applied(b"word", TransformKind::OmitLast(1)), b"<wor>".to_vec());
    assert_eq!(applied(b"word", TransformKind::OmitLast(4)), b"<>".to_vec());
    assert_eq!(applied(b"", TransformKind::UppercaseFirst), b"<>".to_vec());
}

#[test]
fn capitals_of_letters_of_two_and_three_bytes() {
    // a letter of two bytes: the second byte changes; of three bytes: the third one
    assert_eq!(
        applied(&[0xc3, 0xa4, b'b'], TransformKind::UppercaseFirst),
        vec![b'<', 0xc3, 0x84, b'b', b'>']
    );
    assert_eq!(
        applied(&[0xe2, 0x82, 0xac, b'b'], TransformKind::UppercaseFirst),
        vec![b'<', 0xe2, 0x82, 0xa9, b'b', b'>']
    );
    assert_eq!(
        applied(&[0xc3, 0xa4, b'b', 0xe2, 0x82, 0xac, b'c'], TransformKind::UppercaseAll),
        vec![b'<', 0xc3, 0x84, b'B', 0xe2, 0x82, 0xa9, b'C', b'>']
    );
    // a letter that the word cuts off stays as it is
    assert_eq!(applied(&[b'a', 0xc3], TransformKind::UppercaseAll), vec![b'<', b'A', 0xc3, b'>']);
    assert_eq!(
        applied(&[0xe2, 0x82], TransformKind::UppercaseAll),
        vec![b'<', 0xe2, 0x82, b'>']
    );
}

#[test]
fn a_word_within_a_list_of_words() {
    let list = b"onetwothree".to_vec();
    let plain = transform(b"", TransformKind::Identity, b"");
    assert_eq!(apply_transform(&list, 3, 3, &plain), b"two".to_vec());
    assert_eq!(apply_transform(&list, 6, 5, &plain), b"three".to_vec());
    assert_eq!(apply_transform(&list, 11, 0, &plain), Vec::<u8>::new());
}

#[test]
fn words_of_the_least_and_of_the_greatest_length() {
    let dictionary = Dictionary::new(words(), transforms());
    assert_eq!(dictionary.lookup(4, 0), Ok(b"abcd".to_vec()));
    assert_eq!(dictionary.lookup(4, 3), Ok(b"time".to_vec()));
    assert_eq!(dictionary.lookup(4, 1024 + 1), Ok(b"Efgh ".to_vec()));
    assert_eq!(dictionary.lookup(4, 4 * 1024 + 3), Ok(b"ting ".to_vec()));
    assert_eq!(dictionary.lookup(4, 5 * 1024), Ok(Vec::new()));
    assert_eq!(dictionary.lookup(24, 0), Ok(b"the quick brown fox jump".to_vec()));
    assert_eq!(dictionary.lookup(24, 2 * 32), Ok(b"he quick brown fox jump".to_vec()));
    assert_eq!(dictionary.lookup(24, 3 * 32), Ok(b" the THE QUICK BROWN FOX JUMP.".to_vec()));
}

#[test]
fn references_that_do_not_exist() {
    let dictionary = Dictionary::new(words(), transforms());
    let missing = Err(DecompressorError::InvalidDictionaryRef);
    assert_eq!(dictionary.lookup(3, 0), missing);
    assert_eq!(dictionary.lookup(25, 0), missing);
    assert_eq!(dictionary.lookup(0, 0), missing);
    // a transform beyond the list
    assert_eq!(dictionary.lookup(4, 6 * 1024), missing);
    // a word beyond the words: the words of 5 bytes start at 4096, where this list holds zeros,
    // and the third word of 24 bytes lies beyond its end
    assert_eq!(dictionary.lookup(5, 0), Ok(vec![0u8; 5]));
    assert_eq!(dictionary.lookup(24, 2), missing);
    let empty = Dictionary::new(Vec::new(), Vec::new());
    assert_eq!(empty.lookup(4, 0), missing);
    let no_words = Dictionary::new(Vec::new(), transforms());
    assert_eq!(no_words.lookup(4, 0), missing);
}

// One literal, then eleven references to the dictionary: words of 4 and of 24 bytes with each
// of the transforms.
fn stream() -> Vec<u8> {
    vec![
        0x42, 0x13, 0x00, 0x00, 0x04, 0x1e, 0x1c, 0x1c, 0x00, 0x00, 0x00, 0x00, 0x00, 0x00, 0x00,
        0x00, 0x00, 0x00, 0x00, 0x00, 0x00, 0x00, 0x00, 0x00, 0x01, 0x01, 0x00, 0x00, 0x00, 0x00,
        0x00, 0x00, 0x04, 0x00, 0x00, 0x00, 0x00, 0x00, 0x00, 0x00, 0x00, 0x00, 0x00, 0x00, 0x00,
        0x04, 0xb8, 0xfb, 0x03, 0x08, 0x72, 0xe8, 0x7a, 0x46, 0x01, 0x0b, 0x01, 0x47, 0x01, 0xef,
        0x01, 0x1e, 0x84, 0x29, 0x20, 0x55, 0x96, 0xf2, 0xa6, 0x7e, 0x53, 0x23,
    ]
}

#[test]
fn a_stream_of_references_to_the_dictionary() {
    let dictionary = Dictionary::new(words(), transforms());
    let mut decoder = Decompressor::with_dictionary(BitStream::new(stream()), dictionary);
    let mut out = Vec::new();
    assert_eq!(decoder.read_to_end(&mut out), Ok(155));
    let mut expected = b"xabcdEfgh xyz the TIME.ting ".to_vec();
    expected.extend_from_slice(b"the quick brown fox jump");
    expected.extend_from_slice(b" the ");
    expected.extend_from_slice(&[0xc3, 0x84]);
    expected.extend_from_slice(b"BC ");
    expected.extend_from_slice(&[0xe2, 0x82, 0xa9]);
    expected.extend_from_slice(b" URO ZEBRA ");
    expected.extend_from_slice(&[0xc3, 0x00]);
    expected.extend_from_slice(b"Q ");
    expected.extend_from_slice(&[0xe2, b'.']);
    expected.extend_from_slice(&[0xc3, 0x84]);
    expected.extend_from_slice(b"bc ");
    expected.extend_from_slice(&[0xe2, 0x82, 0xac]);
    expected.extend_from_slice(b" uro zebra ");
    expected.extend_from_slice(&[0xc3]);
    expected.extend_from_slice(b" q ");
    expected.extend_from_slice(&[0xe2, b' ']);
    expected.extend_from_slice(b"the quick brown fox jing ");
    expected.extend_from_slice(b"he quick brown fox jump");
    assert_eq!(out, expected);
}

#[test]
fn the_same_stream_without_the_dictionary() {
    let mut decoder = Decompressor::new(BitStream::new(stream()));
    let mut out = Vec::new();
    assert_eq!(decoder.read_to_end(&mut out), Err(DecompressorError::InvalidDictionaryRef));
    assert_eq!(out, Vec::<u8>::new());
}
