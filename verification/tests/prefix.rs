use brotli::bits::BitStream;
use brotli::blocks::create_block_count_codes;
use brotli::complex::{
    create_code_length_codes, create_code_length_order, parse_prefix_code, power_of_two,
};
use brotli::context::{parse_context_map, parse_context_modes_literals, parse_rle_max};
use brotli::error::DecompressorError;
use brotli::prefix::PrefixTree;
use brotli::simple::{
    check_symbols, create_simple_tree, length_in_shape, parse_n_sym, parse_prefix_code_kind,
    parse_simple_code, parse_symbols, simple_shape, symbol_bits, PrefixCode, PrefixCodeKind,
    SimpleShape,
};

fn symbols_of(tree: &PrefixTree, bytes: Vec<u8>, count: usize) -> (Vec<u16>, u64) {
    let mut stream = BitStream::new(bytes);
    let mut symbols = Vec::new();
    for _ in 0..count {
        symbols.push(tree.lookup_symbol(&mut stream).unwrap());
    }
    (symbols, stream.position())
}

#[test]
fn a_code_of_one_symbol_takes_no_bits() {
    let tree = PrefixTree::new_single(300);
    assert_eq!(symbols_of(&tree, vec![], 3), (vec![300, 300, 300], 0));
}

#[test]
fn codewords_go_up_with_the_symbols_and_with_the_lengths() {
    // lengths 2, 1, 3, 3: the codewords are 10, 0, 110, 111
    let tree = PrefixTree::from_lengths(vec![2, 1, 3, 3]);
    // the bits 0 | 1 0 | 1 1 0 | 1 1 1 | 0, first bit first
    let (symbols, position) = symbols_of(&tree, vec![0b1101_1010, 0b01], 5);
    assert_eq!(symbols, vec![1, 0, 2, 3, 1]);
    assert_eq!(position, 10);
}

#[test]
fn symbols_without_a_codeword_are_passed_over() {
    let mut lengths = vec![0u8; 704];
    lengths[5] = 2;
    lengths[100] = 2;
    lengths[300] = 2;
    lengths[703] = 2;
    let tree = PrefixTree::from_lengths(lengths);
    // 00, 01, 10, 11 as codewords, the first bit being the higher one
    let (symbols, position) = symbols_of(&tree, vec![0b1101_1000], 4);
    assert_eq!(symbols, vec![5, 100, 300, 703]);
    assert_eq!(position, 8);
}

#[test]
fn codewords_of_fifteen_bits() {
    let mut lengths = vec![0u8; 16];
    for k in 0..15 {
        lengths[k] = (k + 1) as u8;
    }
    lengths[15] = 15;
    let tree = PrefixTree::from_lengths(lengths);
    // fourteen ones and a zero: symbol 14; fifteen ones: symbol 15; a zero: symbol 0
    let (symbols, position) = symbols_of(&tree, vec![0xff, 0xbf, 0xff, 0x3f], 3);
    assert_eq!(symbols, vec![14, 15, 0]);
    assert_eq!(position, 31);
}

#[test]
fn the_end_of_the_input_within_a_codeword() {
    let tree = PrefixTree::from_lengths(vec![1, 2, 3, 3]);
    let mut stream = BitStream::new(vec![0b1111_1011]);
    assert_eq!(tree.lookup_symbol(&mut stream), Ok(2));
    assert_eq!(tree.lookup_symbol(&mut stream), Ok(3));
    assert_eq!(tree.lookup_symbol(&mut stream), Err(DecompressorError::UnexpectedEOF));
}

#[test]
fn a_code_that_is_not_complete_has_bits_without_a_symbol() {
    let tree = PrefixTree::from_lengths(vec![1, 0, 0, 0]);
    let mut stream = BitStream::new(vec![0xfe, 0xff]);
    assert_eq!(tree.lookup_symbol(&mut stream), Ok(0));
    assert_eq!(tree.lookup_symbol(&mut stream), Err(DecompressorError::MalformedCode));
}

#[test]
fn the_bits_of_a_symbol_in_a_simple_code() {
    assert_eq!(symbol_bits(1), 0);
    assert_eq!(symbol_bits(2), 1);
    assert_eq!(symbol_bits(3), 2);
    assert_eq!(symbol_bits(4), 2);
    assert_eq!(symbol_bits(26), 5);
    assert_eq!(symbol_bits(64), 6);
    assert_eq!(symbol_bits(65), 7);
    assert_eq!(symbol_bits(256), 8);
    assert_eq!(symbol_bits(258), 9);
    assert_eq!(symbol_bits(520), 10);
    assert_eq!(symbol_bits(704), 10);
}

#[test]
fn the_kind_of_a_code() {
    let mut stream = BitStream::new(vec![0b11_10_00_01]);
    assert_eq!(parse_prefix_code_kind(&mut stream), Ok(PrefixCodeKind::Simple));
    assert_eq!(parse_prefix_code_kind(&mut stream), Ok(PrefixCodeKind::Complex(0)));
    assert_eq!(parse_prefix_code_kind(&mut stream), Ok(PrefixCodeKind::Complex(2)));
    assert_eq!(parse_prefix_code_kind(&mut stream), Ok(PrefixCodeKind::Complex(3)));
    assert_eq!(parse_prefix_code_kind(&mut stream), Err(DecompressorError::UnexpectedEOF));
}

#[test]
fn a_blank_simple_code() {
    match PrefixCode::new_simple() {
        PrefixCode::Simple(simple) => {
            assert_eq!(simple.n_sym, None);
            assert_eq!(simple.symbols, None);
            assert_eq!(simple.tree_select, None);
        }
        PrefixCode::Complex(_) => panic!("a simple code was asked for"),
    }
}

#[test]
fn the_fields_of_a_simple_code() {
    let mut stream = BitStream::new(vec![0b10]);
    assert_eq!(parse_n_sym(&mut stream), Ok(3));
    let mut stream = BitStream::new(vec![0x61, 0x62, 0x03]);
    assert_eq!(parse_symbols(&mut stream, 2, 8), Ok(vec![0x61, 0x62]));
    let mut stream = BitStream::new(vec![0xff, 0x03, 0xfc]);
    assert_eq!(parse_symbols(&mut stream, 2, 10), Ok(vec![0x3ff, 0x300]));
    assert_eq!(parse_symbols(&mut stream, 1, 10), Err(DecompressorError::UnexpectedEOF));
    assert!(check_symbols(&vec![1, 2, 3, 0], 4));
    assert!(!check_symbols(&vec![1, 2, 3, 4], 4));
    assert!(!check_symbols(&vec![1, 2, 1], 4));
    assert!(!check_symbols(&vec![7, 7], 8));
    assert!(check_symbols(&vec![703], 704));
}

#[test]
fn a_simple_code_of_four_symbols_with_its_shape() {
    // NSYM - 1 = 3; the symbols 3, 2, 1, 0 of an alphabet of 4; the shape bit set
    let mut stream = BitStream::new(vec![0b0110_1111, 0b100]);
    match parse_simple_code(&mut stream, 4) {
        Ok(PrefixCode::Simple(simple)) => {
            assert_eq!(simple.n_sym, Some(4));
            assert_eq!(simple.symbols, Some(vec![3, 2, 1, 0]));
            assert_eq!(simple.tree_select, Some(true));
        }
        other => panic!("{:?}", other),
    }
    assert_eq!(stream.position(), 11);
}

#[test]
fn the_shapes_of_simple_codes() {
    // two symbols: 0 and 1 for the smaller and the greater symbol
    let tree = create_simple_tree(&vec![9, 4], false, 16);
    assert_eq!(symbols_of(&tree, vec![0b10], 2).0, vec![4, 9]);
    // three symbols: 0 for the first one; 10 and 11 for the others by their values
    let tree = create_simple_tree(&vec![9, 12, 4], false, 16);
    assert_eq!(symbols_of(&tree, vec![0b11_01_0], 3).0, vec![9, 4, 12]);
    // four symbols, flat: 00, 01, 10, 11 by their values
    let tree = create_simple_tree(&vec![9, 12, 4, 1], false, 16);
    assert_eq!(symbols_of(&tree, vec![0b11_01_10_00], 4).0, vec![1, 4, 9, 12]);
    // four symbols, skewed: 0, 10, and 110 and 111 for the last two by their values
    let tree = create_simple_tree(&vec![9, 12, 4, 1], true, 16);
    assert_eq!(symbols_of(&tree, vec![0xda, 0x01], 4).0, vec![9, 12, 1, 4]);
}

#[test]
fn the_fixed_tables_of_the_complex_code() {
    let codes = create_code_length_codes();
    let rows: Vec<(u8, u8, u8)> = codes.iter().map(|e| (e.symbol, e.length, e.bits)).collect();
    assert_eq!(rows, vec![(0, 2, 0), (1, 4, 7), (2, 3, 3), (3, 2, 2), (4, 2, 1), (5, 4, 15)]);
    assert_eq!(
        create_code_length_order(),
        vec![1, 2, 3, 4, 0, 5, 17, 6, 16, 7, 8, 9, 10, 11, 12, 13, 14, 15]
    );
    let counts = create_block_count_codes();
    assert_eq!(counts.len(), 26);
    assert_eq!((counts[0].base, counts[0].extra_bits), (1, 2));
    assert_eq!((counts[17].base, counts[17].extra_bits), (305, 6));
    assert_eq!((counts[25].base, counts[25].extra_bits), (16625, 24));
    assert_eq!(power_of_two(0), 1);
    assert_eq!(power_of_two(24), 0x100_0000);
}

#[test]
fn a_complex_code_with_lengths_one_by_one() {
    // no length is left out; in the code length code the symbols 1 and 2 have one bit each,
    // which uses up its code space; then the lengths 1, 2, 2 of an alphabet of 3
    let mut stream = BitStream::new(vec![0xdc, 0x19]);
    let tree = parse_prefix_code(&mut stream, 3).unwrap();
    assert_eq!(stream.position(), 13);
    // the codewords 0, 10 and 11
    assert_eq!(symbols_of(&tree, vec![0b1_1010], 3), (vec![0, 1, 2], 5));
}

#[test]
fn context_modes_and_the_greatest_run() {
    let mut stream = BitStream::new(vec![0b00_11_10_01]);
    assert_eq!(parse_context_modes_literals(&mut stream, 3), Ok(vec![1, 2, 3]));
    assert_eq!(stream.position(), 6);
    let mut stream = BitStream::new(vec![0b0_1111_1_0]);
    assert_eq!(parse_rle_max(&mut stream), Ok(0));
    assert_eq!(parse_rle_max(&mut stream), Ok(16));
    assert_eq!(stream.position(), 6);
}

#[test]
fn a_context_map_for_one_tree_takes_no_bits() {
    let mut stream = BitStream::new(vec![0xff]);
    assert_eq!(parse_context_map(&mut stream, 1, 64), Ok(vec![0u8; 64]));
    assert_eq!(stream.position(), 0);
}

#[test]
fn a_context_map_with_a_run_and_move_to_front() {
    // runs are used, and the greatest run symbol is 1; a simple code of the symbols 1 (a run
    // of two or three zeros), 2 (the entry 1) and 3 (the entry 2); the entries as they are
    // written: three zeros, 1, 2, 2, two zeros; the move-to-front transform is applied
    let mut stream = BitStream::new(vec![0x21, 0x73, 0x7b, 0x02]);
    assert_eq!(parse_context_map(&mut stream, 3, 8), Ok(vec![0, 0, 0, 1, 2, 0, 0, 0]));
    assert_eq!(stream.position(), 26);
}

#[test]
fn a_run_that_leaves_the_context_map() {
    let mut stream = BitStream::new(vec![0x21, 0x73, 0x7b, 0x02]);
    assert_eq!(parse_context_map(&mut stream, 3, 7), Err(DecompressorError::MalformedCode));
}

#[test]
fn the_lengths_of_each_shape_of_simple_code() {
    let lengths = |n_sym: usize, tree_select: bool| -> Vec<u8> {
        let shape = simple_shape(n_sym, tree_select);
        (0..n_sym).map(|i| length_in_shape(shape, i)).collect()
    };
    assert_eq!(simple_shape(1, false), SimpleShape::NSym1);
    assert_eq!(simple_shape(2, true), SimpleShape::NSym2);
    assert_eq!(simple_shape(3, false), SimpleShape::NSym3);
    assert_eq!(simple_shape(4, false), SimpleShape::NSym4Flat);
    assert_eq!(simple_shape(4, true), SimpleShape::NSym4Skew);
    assert_eq!(lengths(1, false), vec![0]);
    assert_eq!(lengths(2, false), vec![1, 1]);
    assert_eq!(lengths(3, true), vec![1, 2, 2]);
    assert_eq!(lengths(4, false), vec![2, 2, 2, 2]);
    assert_eq!(lengths(4, true), vec![1, 2, 3, 3]);
}
