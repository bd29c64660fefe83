// The prefix trees of the library are held against the decoder of the `huffman` crate: both
// are given the same canonical code and the same codewords, each in its own order of bits.

use brotli::bits::BitStream;
use brotli::prefix::PrefixTree;
use huffman::Tree;

// The canonical codewords of the lengths: for each symbol with a codeword its length and
// its value.
fn codewords(lengths: &[u8]) -> Vec<Option<(u32, u32)>> {
    let mut out = vec![None; lengths.len()];
    let mut code = 0u32;
    for length in 1..16u32 {
        for (symbol, &l) in lengths.iter().enumerate() {
            if l as u32 == length {
                out[symbol] = Some((length, code));
                code += 1;
            }
        }
        code <<= 1;
    }
    out
}

fn insert(tree: &mut Tree, length: u32, code: u32, symbol: u8) {
    if length == 0 {
        tree.value = Some(symbol);
        return;
    }
    let bit = (code >> (length - 1)) & 1;
    let child = if bit == 1 { &mut tree.right } else { &mut tree.left };
    if child.is_none() {
        *child = Some(Box::new(Tree::new()));
    }
    insert(child.as_mut().unwrap(), length - 1, code, symbol);
}

// The codewords of the message, packed from the most significant bit of each byte on and
// from the least significant bit on.
fn pack(codes: &[Option<(u32, u32)>], message: &[u8]) -> (Vec<u8>, Vec<u8>) {
    let mut high = Vec::new();
    let mut low = Vec::new();
    let mut used = 0;
    for &symbol in message {
        let (length, code) = codes[symbol as usize].unwrap();
        for i in (0..length).rev() {
            if used % 8 == 0 {
                high.push(0u8);
                low.push(0u8);
            }
            let bit = ((code >> i) & 1) as u8;
            let last = high.len() - 1;
            high[last] |= bit << (7 - used % 8);
            low[last] |= bit << (used % 8);
            used += 1;
        }
    }
    (high, low)
}

fn compare(lengths: &[u8], message: &[u8]) {
    let codes = codewords(lengths);
    let mut tree = Tree::new();
    for (symbol, code) in codes.iter().enumerate() {
        if let Some((length, code)) = code {
            insert(&mut tree, *length, *code, symbol as u8);
        }
    }
    let (high, low) = pack(&codes, message);
    let theirs = huffman::decode(&high, &tree, message.len());
    let ours_tree = PrefixTree::from_lengths(lengths.to_vec());
    let mut stream = BitStream::new(low);
    let mut ours = Vec::new();
    for _ in 0..message.len() {
        ours.push(ours_tree.lookup_symbol(&mut stream).unwrap() as u8);
    }
    assert_eq!(theirs, message);
    assert_eq!(ours, message);
}

fn noise(length: usize, below: usize, seed: u64) -> Vec<u8> {
    let mut state = seed;
    (0..length)
        .map(|_| {
            state = state.wrapping_mul(6364136223846793005).wrapping_add(1442695040888963407);
            ((state >> 33) as usize % below) as u8
        })
        .collect()
}

#[test]
fn the_same_symbols_as_another_decoder_for_a_flat_code() {
    compare(&[8u8; 256], &noise(5000, 256, 1));
    compare(&[1, 1], &noise(100, 2, 2));
}

#[test]
fn the_same_symbols_as_another_decoder_for_a_skewed_code() {
    // the lengths 1, 2, 3, ..., 14, 15, 15
    let mut lengths: Vec<u8> = (1..16).collect();
    lengths.push(15);
    compare(&lengths, &noise(3000, 16, 3));
    // 2, 2, 3, 3, 3, 3: symbols of one length that are not neighbours
    compare(&[3, 2, 3, 0, 3, 2, 0, 3], &[0, 1, 2, 4, 5, 7, 7, 5, 4, 2, 1, 0]);
}

#[test]
fn the_same_symbols_as_another_decoder_for_a_code_of_many_lengths() {
    // 2 symbols of 2 bits, 4 of 4 bits, 16 of 7 bits and 32 of 8 bits, spread over the
    // alphabet; the other symbols have no codeword
    let mut lengths = vec![0u8; 256];
    let mut used = Vec::new();
    for k in 0..54usize {
        let symbol = (k * 37 + 11) % 256;
        lengths[symbol] = if k < 2 {
            2
        } else if k < 6 {
            4
        } else if k < 22 {
            7
        } else {
            8
        };
        used.push(symbol as u8);
    }
    let message: Vec<u8> = noise(20000, 54, 4).iter().map(|&k| used[k as usize]).collect();
    compare(&lengths, &message);
}
