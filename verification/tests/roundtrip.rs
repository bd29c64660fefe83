// Streams that a small encoder makes of given bytes are decoded again.

use brotli::bits::BitStream;
use brotli::decoder::Decompressor;

struct BitWriter {
    bytes: Vec<u8>,
    used: u32,
}

impl BitWriter {
    fn new() -> BitWriter {
        BitWriter { bytes: Vec::new(), used: 0 }
    }

    fn bit(&mut self, bit: u32) {
        if self.used % 8 == 0 {
            self.bytes.push(0);
        }
        let last = self.bytes.len() - 1;
        self.bytes[last] |= ((bit & 1) as u8) << (self.used % 8);
        self.used = (self.used + 1) % 8;
    }

    // a number: the lowest bit first
    fn write(&mut self, value: u32, count: u32) {
        for i in 0..count {
            self.bit(value >> i);
        }
    }

    // a codeword: the highest bit first
    fn code(&mut self, length: u32, code: u32) {
        for i in (0..length).rev() {
            self.bit(code >> i);
        }
    }

    fn align(&mut self) {
        self.used = 0;
    }

    fn raw(&mut self, data: &[u8]) {
        self.align();
        self.bytes.extend_from_slice(data);
    }
}

const INSERT: [(u32, u32); 24] = [
    (0, 0), (1, 0), (2, 0), (3, 0), (4, 0), (5, 0), (6, 1), (8, 1), (10, 2), (14, 2), (18, 3),
    (26, 3), (34, 4), (50, 4), (66, 5), (98, 5), (130, 6), (194, 7), (322, 8), (578, 9),
    (1090, 10), (2114, 12), (6210, 14), (22594, 24),
];

const COPY: [(u32, u32); 24] = [
    (2, 0), (3, 0), (4, 0), (5, 0), (6, 0), (7, 0), (8, 0), (9, 0), (10, 1), (12, 1), (14, 2),
    (18, 2), (22, 3), (30, 3), (38, 4), (54, 4), (70, 5), (102, 5), (134, 6), (198, 7), (326, 8),
    (582, 9), (1094, 10), (2118, 24),
];

const CELLS: [(u32, u32); 11] = [
    (0, 0), (0, 8), (0, 0), (0, 8), (8, 0), (8, 8), (0, 16), (16, 0), (8, 16), (16, 8), (16, 16),
];

// the row of a table of lengths for a length, and what is left for the extra bits
fn row(table: &[(u32, u32); 24], length: u32) -> (u32, u32, u32) {
    let mut k = 23;
    while table[k].0 > length {
        k -= 1;
    }
    (k as u32, length - table[k].0, table[k].1)
}

// The symbol of a command with a distance of its own.
fn command_symbol(insert: u32, copy: u32) -> (u32, (u32, u32), (u32, u32)) {
    let (ic, ix, ib) = row(&INSERT, insert);
    let (cc, cx, cb) = row(&COPY, copy);
    for cell in 2..11 {
        let (ci, cj) = CELLS[cell];
        if ci <= ic && ic < ci + 8 && cj <= cc && cc < cj + 8 {
            return (cell as u32 * 64 + ((ic - ci) << 3) + (cc - cj), (ix, ib), (cx, cb));
        }
    }
    unreachable!()
}

// The symbol of a distance without postfix bits and direct distances.
fn distance_symbol(distance: u32) -> (u32, u32, u32) {
    let d = distance - 1 + 4;
    let bits = 32 - d.leading_zeros() - 2;
    let high = (d >> bits) & 1;
    let extra = d - ((2 + high) << bits);
    (16 + (((bits - 1) << 1) | high), extra, bits)
}

// The codewords of the insert-and-copy symbols: 320 of 9 bits, then 384 of 10 bits.
fn command_code(symbol: u32) -> (u32, u32) {
    if symbol < 320 {
        (9, symbol)
    } else {
        (10, 640 + (symbol - 320))
    }
}

fn tables(w: &mut BitWriter) {
    // one block type in each category
    w.write(0, 3);
    // NPOSTFIX 0, NDIRECT 0, the context mode 0, one tree of literals and one of distances
    w.write(0, 2);
    w.write(0, 4);
    w.write(0, 2);
    w.write(0, 2);
    // literals: a complex code; of its code length code only the length 8 has a codeword
    // (the order is 1, 2, 3, 4, 0, 5, 17, 6, 16, 7, 8, ...); all 256 lengths are 8
    w.write(0, 2);
    for k in 0..18 {
        if k == 10 {
            w.write(1, 2);
        } else {
            w.write(0, 2);
        }
    }
    // insert-and-copy symbols: the lengths 9 and 10 have codewords of one bit
    w.write(0, 2);
    for k in 0..18 {
        if k == 11 || k == 12 {
            w.write(7, 4);
            if k == 12 {
                break;
            }
        } else {
            w.write(0, 2);
        }
    }
    for symbol in 0..704 {
        w.bit(if symbol < 320 { 0 } else { 1 });
    }
    // distances: only the length 6 has a codeword; all 64 lengths are 6
    w.write(0, 2);
    for k in 0..18 {
        if k == 7 {
            w.write(1, 2);
        } else {
            w.write(0, 2);
        }
    }
}

fn command(w: &mut BitWriter, literals: &[u8], copy: u32, distance: u32) {
    let (symbol, (ix, ib), (cx, cb)) = command_symbol(literals.len() as u32, copy);
    let (length, code) = command_code(symbol);
    w.code(length, code);
    w.write(ix, ib);
    w.write(cx, cb);
    for &b in literals {
        w.code(8, b as u32);
    }
    if distance > 0 {
        let (symbol, extra, bits) = distance_symbol(distance);
        w.code(6, symbol);
        w.write(extra, bits);
    }
}

fn header(w: &mut BitWriter, last: bool, length: usize, uncompressed: bool) {
    w.bit(last as u32);
    if last {
        w.bit(0);
    }
    let v = (length - 1) as u32;
    let nibbles = if v < 1 << 16 { 4 } else if v < 1 << 20 { 5 } else { 6 };
    w.write(nibbles - 4, 2);
    w.write(v, nibbles * 4);
    if !last {
        w.bit(uncompressed as u32);
    }
}

// One compressed meta-block: copies are looked for among the places where the same four
// bytes stood, within the window.
fn compressed(w: &mut BitWriter, data: &[u8], from: usize, to: usize, last: bool, heads: &mut Vec<usize>, window: usize) {
    header(w, last, to - from, false);
    tables(w);
    let mut at = from;
    let mut pending = from;
    while at < to {
        let mut found = 0;
        let mut distance = 0;
        if at + 4 <= to {
            let key = (data[at] as usize * 31 + data[at + 1] as usize * 7 + data[at + 2] as usize * 3
                + data[at + 3] as usize)
                % heads.len();
            let candidate = heads[key];
            heads[key] = at + 1;
            if candidate > 0 && at + 1 - candidate <= window && at + 1 - candidate <= at {
                let back = at + 1 - candidate;
                let mut n = 0;
                while at + n < to && data[at + n - back] == data[at + n] && n < 5000 {
                    n += 1;
                }
                if n >= 4 {
                    found = n;
                    distance = back;
                }
            }
        }
        if found > 0 && at - pending < 20000 {
            command(w, &data[pending..at], found as u32, distance as u32);
            at += found;
            pending = at;
        } else {
            at += 1;
            if at - pending == 20000 || at == to {
                // the meta-block may go on: a copy of two bytes at the distance 1 would be
                // wrong, so the literals stand alone only at the end
                if at == to {
                    command(w, &data[pending..at], 2, 0);
                    pending = at;
                }
            }
        }
    }
    if pending < to {
        command(w, &data[pending..to], 2, 0);
    }
}

fn encode(data: &[u8], block: usize, stored_every: usize) -> Vec<u8> {
    let mut w = BitWriter::new();
    // window 22
    w.write(11, 4);
    let window = (1 << 22) - 16;
    let mut heads = vec![0usize; 1 << 16];
    let mut from = 0;
    let mut index = 0;
    while from < data.len() {
        let to = (from + block).min(data.len());
        index += 1;
        if stored_every > 0 && index % stored_every == 0 {
            header(&mut w, false, to - from, true);
            w.raw(&data[from..to]);
        } else {
            compressed(&mut w, data, from, to, false, &mut heads, window);
        }
        from = to;
    }
    // the end: a last meta-block that is empty
    w.write(3, 2);
    w.bytes
}

fn decode(stream: Vec<u8>) -> Vec<u8> {
    let mut decoder = Decompressor::new(BitStream::new(stream));
    let mut out = Vec::new();
    let n = decoder.read_to_end(&mut out).unwrap();
    assert_eq!(n, out.len());
    out
}

fn random(length: usize, seed: u64) -> Vec<u8> {
    let mut state = seed;
    (0..length)
        .map(|_| {
            state = state.wrapping_mul(6364136223846793005).wrapping_add(1442695040888963407);
            (state >> 56) as u8
        })
        .collect()
}

fn prose(length: usize) -> Vec<u8> {
    let words: [&[u8]; 12] = [
        b"the", b"quick", b"brown", b"fox", b"jumps", b"over", b"a", b"lazy", b"dog", b"and",
        b"runs", b"away",
    ];
    let mut out = Vec::new();
    let mut state = 12345u64;
    while out.len() < length {
        state = state.wrapping_mul(6364136223846793005).wrapping_add(1442695040888963407);
        out.extend_from_slice(words[(state >> 60) as usize % 12]);
        out.push(if (state >> 40) % 11 == 0 { b'\n' } else { b' ' });
    }
    out.truncate(length);
    out
}

#[test]
fn the_encoder_makes_a_known_stream() {
    // one command that inserts a literal and copies 63 bytes at the distance 1
    assert_eq!(command_symbol(1, 63), (207, (0, 0), (9, 4)));
    assert_eq!(distance_symbol(1), (16, 0, 1));
    assert_eq!(distance_symbol(5), (18, 0, 2));
    assert_eq!(distance_symbol(1000), (31, 235, 8));
}

#[test]
fn zeros_come_back() {
    let data = vec![0u8; 1 << 20];
    let stream = encode(&data, 1 << 18, 0);
    assert!(stream.len() < 4000);
    assert!(decode(stream) == data);
}

#[test]
fn random_bytes_come_back() {
    let data = random(1 << 20, 1);
    assert!(decode(encode(&data, 50000, 0)) == data);
}

#[test]
fn text_comes_back() {
    let data: Vec<u8> = (0..300000usize).map(|i| b' ' + ((i * i / 7 + i) % 95) as u8).collect();
    assert!(decode(encode(&data, 65536, 3)) == data);
}

#[test]
fn prose_comes_back() {
    let data = prose(1 << 20);
    let stream = encode(&data, 1 << 17, 4);
    assert!(stream.len() < data.len());
    assert!(decode(stream) == data);
}

#[test]
fn short_inputs_come_back() {
    for length in 0..40 {
        let data = random(length, length as u64);
        assert_eq!(decode(encode(&data, 7, 2)), data);
        let data = vec![b'a'; length];
        assert_eq!(decode(encode(&data, 1000, 0)), data);
    }
}
