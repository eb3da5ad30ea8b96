use no_inflate::inflate::bitreader::BitReader;
use no_inflate::inflate::canonical::reverse_bits;
use no_inflate::inflate::huffman::{build_fixed_dist_table, build_fixed_litlen_table, HuffmanTable};
use no_inflate::InflateError;

fn table(lengths: &[u8]) -> HuffmanTable {
    match HuffmanTable::from_lengths(lengths) {
        Ok(t) => t,
        Err(e) => panic!("no table: {:?}", e),
    }
}

fn refused(lengths: &[u8]) -> Option<InflateError> {
    HuffmanTable::from_lengths(lengths).err()
}

fn first_symbol(t: &HuffmanTable, data: &[u8]) -> Result<u16, InflateError> {
    let mut br = BitReader::new(data);
    t.read_symbol(&mut br)
}

#[test]
fn reverse_bits_values() {
    assert_eq!(reverse_bits(0b1, 3), 0b100);
    assert_eq!(reverse_bits(0b110, 3), 0b011);
    assert_eq!(reverse_bits(0x71, 8), 0x8e);
    assert_eq!(reverse_bits(0xffff_ffff, 0), 0);
    assert_eq!(reverse_bits(0xffff_fff6, 4), 0b0110);
    assert_eq!(reverse_bits(1, 32), 0x8000_0000);
    assert_eq!(reverse_bits(0x1234_5678, 32), 0x1e6a_2c48);
}

#[test]
fn reversing_twice_gives_the_low_bits_back() {
    for len in 0..=15usize {
        for v in 0..(1u32 << len) {
            assert_eq!(reverse_bits(reverse_bits(v, len), len), v);
        }
    }
}

#[test]
fn canonical_codes_of_a_small_alphabet() {
    // Lengths 2, 1, 3, 3 give the codes 10, 0, 110, 111.
    let t = table(&[2, 1, 3, 3]);
    assert_eq!(t.max_bits(), 3);
    // On the wire the codes come first bit first, so the reader sees them
    // reversed: 01, 0, 011, 111.
    for v in 0..8u8 {
        let expected: u16 = if v % 2 == 0 {
            1
        } else if v % 4 == 1 {
            0
        } else if v == 3 {
            2
        } else {
            3
        };
        assert_eq!(first_symbol(&t, &[v]), Ok(expected), "bits {:03b}", v);
    }
}

#[test]
fn read_symbol_takes_the_bits_of_the_code_only() {
    let t = table(&[2, 1, 3, 3]);
    // 0 | 10 | 110 | 111 | 0, first bit first.
    let data: [u8; 2] = [0b1101_1010, 0b0000_0001];
    let mut br = BitReader::new(&data);
    assert_eq!(t.read_symbol(&mut br), Ok(1));
    assert_eq!(t.read_symbol(&mut br), Ok(0));
    assert_eq!(t.read_symbol(&mut br), Ok(2));
    assert_eq!(t.read_symbol(&mut br), Ok(3));
    assert_eq!(t.read_symbol(&mut br), Ok(1));
    assert_eq!(br.read_bits(6), Some(0));
    assert_eq!(t.read_symbol(&mut br), Err(InflateError::InputTooShort));
}

#[test]
fn read_symbol_needs_max_bits_even_for_a_short_code() {
    let t = table(&[2, 1, 3, 3]);
    let data: [u8; 1] = [0];
    let mut br = BitReader::new(&data);
    assert_eq!(br.read_bits(6), Some(0));
    // Two bits are left; the code of symbol 1 is one bit, the table is three
    // bits wide.
    assert_eq!(t.read_symbol(&mut br), Err(InflateError::InputTooShort));
    assert_eq!(br.read_bits(2), Some(0));
}

#[test]
fn bit_reversal_of_a_fixed_code() {
    // The fixed code of literal 0x41 is 0x30 + 0x41 = 0x71 in eight bits.
    let t = build_fixed_litlen_table();
    let rev: u32 = reverse_bits(0x71, 8);
    assert_eq!(rev, 0x8e);
    assert_eq!(first_symbol(&t, &[rev as u8, 0x00]), Ok(0x41));
    assert_eq!(first_symbol(&t, &[rev as u8, 0x01]), Ok(0x41));
    let mut br = BitReader::new(&[0x8e, 0x03]);
    assert_eq!(t.read_symbol(&mut br), Ok(0x41));
    assert_eq!(br.read_bits(8), Some(3));
}

#[test]
fn single_code_leaves_a_slot_unassigned() {
    let t = table(&[1]);
    assert_eq!(t.max_bits(), 1);
    assert_eq!(first_symbol(&t, &[0]), Ok(0));
    assert_eq!(first_symbol(&t, &[1]), Err(InflateError::BadHuffmanCode));
    assert_eq!(first_symbol(&t, &[]), Err(InflateError::InputTooShort));
}

#[test]
fn failed_read_symbol_does_not_move() {
    let t = table(&[1]);
    let data: [u8; 1] = [0b0000_0101];
    let mut br = BitReader::new(&data);
    assert_eq!(t.read_symbol(&mut br), Err(InflateError::BadHuffmanCode));
    assert_eq!(br.read_bits(3), Some(0b101));
}

#[test]
fn no_code_at_all() {
    let t = table(&[0, 0, 0]);
    assert_eq!(t.max_bits(), 1);
    assert_eq!(first_symbol(&t, &[0]), Err(InflateError::BadHuffmanCode));
    assert_eq!(first_symbol(&t, &[1]), Err(InflateError::BadHuffmanCode));
    assert_eq!(first_symbol(&t, &[]), Err(InflateError::InputTooShort));
    let empty = table(&[]);
    assert_eq!(empty.max_bits(), 1);
    assert_eq!(first_symbol(&empty, &[0]), Err(InflateError::BadHuffmanCode));
}

#[test]
fn code_longer_than_fifteen_bits() {
    assert_eq!(refused(&[16]), Some(InflateError::BadHuffmanCode));
    assert_eq!(refused(&[1, 1, 255]), Some(InflateError::BadHuffmanCode));
    // 1/2 + 1/4 + ... + 1/2^14 + 2/2^15 = 1.
    let longest: [u8; 16] = [1, 2, 3, 4, 5, 6, 7, 8, 9, 10, 11, 12, 13, 14, 15, 15];
    assert_eq!(refused(&longest), None);
    assert_eq!(table(&longest).max_bits(), 15);
    let mut too_long = longest;
    too_long[15] = 16;
    assert_eq!(refused(&too_long), Some(InflateError::BadHuffmanCode));
}

#[test]
fn oversubscribed_lengths() {
    assert_eq!(refused(&[1, 1, 1]), Some(InflateError::BadHuffmanCode));
    assert_eq!(refused(&[1, 1, 2]), Some(InflateError::BadHuffmanCode));
    assert_eq!(refused(&[1, 2, 2, 15]), Some(InflateError::BadHuffmanCode));
    assert_eq!(refused(&[2, 2, 2, 2, 2]), Some(InflateError::BadHuffmanCode));
    let mut many: Vec<u8> = vec![15; 32768];
    assert_eq!(refused(&many), None);
    many.push(15);
    assert_eq!(refused(&many), Some(InflateError::BadHuffmanCode));
}

#[test]
fn complete_lengths() {
    assert_eq!(refused(&[1, 1]), None);
    assert_eq!(refused(&[1, 2, 2]), None);
    assert_eq!(refused(&[1, 2, 3, 3]), None);
    assert_eq!(refused(&[2, 2, 2, 2]), None);
    assert_eq!(refused(&[0, 1, 0, 0, 1, 0]), None);
    assert_eq!(refused(&[3, 3, 3, 3, 3, 3, 3, 3]), None);
}

#[test]
fn undersubscribed_lengths() {
    assert_eq!(refused(&[2, 2, 2]), Some(InflateError::BadHuffmanCode));
    assert_eq!(refused(&[1, 0, 0, 3]), Some(InflateError::BadHuffmanCode));
    assert_eq!(refused(&[0, 7]), Some(InflateError::BadHuffmanCode));
    assert_eq!(refused(&[2]), Some(InflateError::BadHuffmanCode));
    assert_eq!(refused(&[15]), Some(InflateError::BadHuffmanCode));
    assert_eq!(refused(&[1, 2]), Some(InflateError::BadHuffmanCode));
    assert_eq!(refused(&[1, 2, 3]), Some(InflateError::BadHuffmanCode));
    assert_eq!(refused(&[1, 2, 3, 4, 5, 6, 7, 8, 9, 10, 11, 12, 13, 14, 15]), Some(InflateError::BadHuffmanCode));
    let mut many: Vec<u8> = vec![15; 32768];
    many[77] = 0;
    assert_eq!(refused(&many), Some(InflateError::BadHuffmanCode));
}

#[test]
fn undersubscribed_lengths_that_are_accepted() {
    // No code at all.
    assert_eq!(refused(&[]), None);
    assert_eq!(refused(&[0]), None);
    assert_eq!(refused(&[0, 0, 0, 0]), None);
    // A single code of one bit.
    assert_eq!(refused(&[1]), None);
    assert_eq!(refused(&[0, 0, 1]), None);
    assert_eq!(refused(&[0, 1, 0, 0, 0]), None);
}

#[test]
fn too_many_symbols() {
    let mut lengths: Vec<u8> = vec![0; 65536];
    lengths[65535] = 1;
    let t = table(&lengths);
    assert_eq!(first_symbol(&t, &[0]), Ok(65535));
    lengths.push(0);
    assert_eq!(refused(&lengths), Some(InflateError::BadHuffmanCode));
}

#[test]
fn unassigned_slot_of_a_single_code() {
    // Symbol 2 has the code 0; nothing starts with 1.
    let t = table(&[0, 0, 1, 0]);
    assert_eq!(t.max_bits(), 1);
    assert_eq!(first_symbol(&t, &[0b0]), Ok(2));
    assert_eq!(first_symbol(&t, &[0b10]), Ok(2));
    assert_eq!(first_symbol(&t, &[0b1]), Err(InflateError::BadHuffmanCode));
    assert_eq!(first_symbol(&t, &[0b11]), Err(InflateError::BadHuffmanCode));
}

#[test]
fn fixed_literal_length_table() {
    let t = build_fixed_litlen_table();
    assert_eq!(t.max_bits(), 9);
    let mut slots: Vec<u32> = vec![0; 288];
    for v in 0..512u16 {
        let data: [u8; 2] = [(v & 0xff) as u8, (v >> 8) as u8];
        let mut br = BitReader::new(&data);
        let sym = t.read_symbol(&mut br).unwrap();
        slots[sym as usize] += 1;
        let len: usize = if sym < 144 {
            8
        } else if sym < 256 {
            9
        } else if sym < 280 {
            7
        } else {
            8
        };
        // What is left of the sixteen bits tells how long the code was.
        assert_eq!(br.read_bits(16 - len), Some((v as u32) >> len));
        assert_eq!(br.read_bits(1), None);
    }
    for sym in 0..288usize {
        let expected: u32 = if sym < 144 {
            2
        } else if sym < 256 {
            1
        } else if sym < 280 {
            4
        } else {
            2
        };
        assert_eq!(slots[sym], expected, "symbol {}", sym);
    }
}

#[test]
fn fixed_literal_length_codes() {
    let t = build_fixed_litlen_table();
    // 0 has the code 00110000, 144 has 110010000, 256 has 0000000 and 280
    // has 11000000.
    assert_eq!(first_symbol(&t, &[0b0000_1100, 0]), Ok(0));
    assert_eq!(first_symbol(&t, &[0b0001_0011, 0]), Ok(144));
    assert_eq!(first_symbol(&t, &[0b0000_0000, 0]), Ok(256));
    assert_eq!(first_symbol(&t, &[0b0000_0011, 0]), Ok(280));
    assert_eq!(first_symbol(&t, &[0xff, 0x01]), Ok(255));
    assert_eq!(first_symbol(&t, &[0b1110_0011, 0]), Ok(287));
}

#[test]
fn fixed_distance_table() {
    let t = build_fixed_dist_table();
    assert_eq!(t.max_bits(), 5);
    for sym in 0..32u32 {
        let v: u32 = reverse_bits(sym, 5);
        assert_eq!(first_symbol(&t, &[v as u8]), Ok(sym as u16));
        // The bits above the code do not matter.
        assert_eq!(first_symbol(&t, &[(v as u8) | 0xe0]), Ok(sym as u16));
    }
}

#[test]
fn complete_code_has_every_slot_assigned() {
    // 1/2 + 1/4 + 1/8 + 1/8 = 1.
    let t = table(&[3, 1, 0, 2, 3]);
    assert_eq!(t.max_bits(), 3);
    for v in 0..8u8 {
        assert!(first_symbol(&t, &[v]).is_ok(), "bits {:03b}", v);
    }
}

#[test]
fn undersubscribed_code_leaves_the_slot_of_all_ones() {
    for lengths in [vec![1u8], vec![0, 1], vec![0, 0, 0, 1, 0], vec![], vec![0, 0]] {
        let t = table(&lengths);
        assert_eq!(first_symbol(&t, &[0xff, 0xff]), Err(InflateError::BadHuffmanCode), "{:?}", lengths);
    }
}

#[test]
fn no_two_codes_start_alike() {
    // Each pattern of table width decodes to one symbol, and the bits of
    // that symbol's code alone decode to it again, whatever follows them.
    let lengths: [u8; 8] = [3, 3, 3, 3, 3, 2, 4, 4];
    let t = table(&lengths);
    assert_eq!(t.max_bits(), 4);
    for v in 0..16u8 {
        if let Ok(sym) = first_symbol(&t, &[v]) {
            let len: u32 = lengths[sym as usize] as u32;
            let code: u8 = v & ((1u8 << len) - 1);
            for above in 0..(1u8 << (4 - len)) {
                assert_eq!(first_symbol(&t, &[code | (above << len)]), Ok(sym));
            }
        }
    }
}
