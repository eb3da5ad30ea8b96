use no_inflate::{inflate_zlib, InflateError};

/// A zlib stream around raw DEFLATE bytes: the usual header, and four bytes
/// in the place of the checksum.
fn wrap(deflate: &[u8]) -> Vec<u8> {
    let mut v: Vec<u8> = vec![0x78, 0x01];
    v.extend_from_slice(deflate);
    v.extend_from_slice(&[0, 0, 0, 0]);
    v
}

#[test]
fn fixed_block_fox() {
    let compressed: [u8; 50] = [
        0x78, 0x9c, 0x0b, 0xc9, 0x48, 0x55, 0x28, 0x2c, 0xcd, 0x4c, 0xce, 0x56, 0x48, 0x2a, 0xca,
        0x2f, 0xcf, 0x53, 0x48, 0xcb, 0xaf, 0x50, 0xc8, 0x2a, 0xcd, 0x2d, 0x28, 0x56, 0xc8, 0x2f,
        0x4b, 0x2d, 0x52, 0x28, 0x01, 0x4a, 0xe7, 0x24, 0x56, 0x55, 0x2a, 0xa4, 0xe4, 0xa7, 0x03,
        0x00, 0x5b, 0xdc, 0x0f, 0xda,
    ];
    let out = inflate_zlib(&compressed).unwrap();
    assert_eq!(out, b"The quick brown fox jumps over the lazy dog");
    assert_eq!(out.len(), 43);
}

#[test]
fn stored_block_aaaa() {
    let compressed: [u8; 15] = [
        0x78, 0x01, 0x01, 0x04, 0x00, 0xfb, 0xff, 0x41, 0x41, 0x41, 0x41, 0x02, 0x8e, 0x01, 0x05,
    ];
    assert_eq!(inflate_zlib(&compressed), Ok(b"AAAA".to_vec()));
}

#[test]
fn stored_block_of_no_bytes() {
    assert_eq!(inflate_zlib(&[0x78, 0x01, 0x01, 0x00, 0x00, 0xff, 0xff]), Ok(Vec::new()));
}

#[test]
fn dynamic_block_from_zlib() {
    let compressed: [u8; 41] = [
        0x78, 0xda, 0x2d, 0xc8, 0xd1, 0x11, 0x00, 0x40, 0x0c, 0x41, 0xc1, 0x5a, 0xbd, 0x44, 0xff,
        0x2d, 0x5c, 0x98, 0xf3, 0xc1, 0x58, 0xd0, 0xea, 0x82, 0x35, 0xd9, 0xa1, 0x5b, 0xab, 0xf3,
        0x95, 0x63, 0x72, 0x53, 0x18, 0xd9, 0x0f, 0xba, 0xa2, 0x16, 0xed,
    ];
    assert_eq!(
        inflate_zlib(&compressed),
        Ok(b"bbadaaaabeacaaaacbacaaadaaaaaaaabbaaaacbabcaababbababbbebaee".to_vec())
    );
}

#[test]
fn dynamic_block_with_a_single_distance_code() {
    // Literal `a` and end-of-block have one-bit codes; the distance code has
    // one symbol of one bit, which leaves half of its code space unused.
    let deflate: [u8; 16] = [
        0x05, 0xc0, 0x81, 0x08, 0x00, 0x00, 0x00, 0x00, 0x20, 0xd6, 0xfd, 0x25, 0x1e, 0x04, 0x00,
        0x00,
    ];
    assert_eq!(inflate_zlib(&wrap(&deflate)), Ok(b"aaaaa".to_vec()));
}

#[test]
fn dynamic_block_without_a_distance_code() {
    // Literal `a` and end-of-block have one-bit codes; no distance has a
    // code.
    let deflate: [u8; 16] = [
        0x05, 0xc0, 0x81, 0x08, 0x00, 0x00, 0x00, 0x00, 0x20, 0xd6, 0xfd, 0x25, 0x0e, 0x01, 0x00,
        0x00,
    ];
    assert_eq!(inflate_zlib(&wrap(&deflate)), Ok(b"aaa".to_vec()));
}

#[test]
fn undersubscribed_literal_length_code() {
    // Literal `a` and end-of-block have two-bit codes, which leaves half of
    // the code space unused.
    let deflate: [u8; 16] = [
        0x05, 0x80, 0x81, 0x08, 0x00, 0x00, 0x00, 0x80, 0x58, 0xf7, 0x97, 0x38, 0x00, 0x00, 0x00,
        0x00,
    ];
    assert_eq!(inflate_zlib(&wrap(&deflate)), Err(InflateError::BadHuffmanCode));
}

#[test]
fn undersubscribed_code_length_code() {
    // Two code-length symbols with two-bit codes.
    let deflate: [u8; 8] = [0x05, 0x00, 0x00, 0x09, 0x00, 0x00, 0x00, 0x00];
    assert_eq!(inflate_zlib(&wrap(&deflate)), Err(InflateError::BadHuffmanCode));
}

#[test]
fn undersubscribed_distance_code() {
    // Two distances with codes of one and two bits.
    let deflate: [u8; 18] = [
        0x05, 0xc1, 0x01, 0x09, 0x00, 0x00, 0x00, 0x80, 0xa0, 0xad, 0xfe, 0x3f, 0xa1, 0x01, 0x00,
        0x00, 0x00, 0x00,
    ];
    assert_eq!(inflate_zlib(&wrap(&deflate)), Err(InflateError::BadHuffmanCode));
}

#[test]
fn overlapping_run() {
    // Literal 0x41, then length 5 at distance 1.
    let deflate: [u8; 4] = [0x73, 0x04, 0x03, 0x00];
    assert_eq!(inflate_zlib(&wrap(&deflate)), Ok(b"AAAAAA".to_vec()));
}

#[test]
fn overlapping_run_of_two_bytes_with_extra_length_bits() {
    // `ab`, then length 12 (symbol 265 with its extra bit set) at distance 2.
    let deflate: [u8; 5] = [0x4b, 0x4c, 0x42, 0x86, 0x00];
    assert_eq!(inflate_zlib(&wrap(&deflate)), Ok(b"ababababababab".to_vec()));
}

#[test]
fn match_with_extra_distance_bits() {
    // `abcdefg`, then length 3 at distance 6 (symbol 4 with its extra bit set).
    let deflate: [u8; 10] = [0x4b, 0x4c, 0x4a, 0x4e, 0x49, 0x4d, 0x4b, 0x07, 0x92, 0x00];
    assert_eq!(inflate_zlib(&wrap(&deflate)), Ok(b"abcdefgbcd".to_vec()));
}

#[test]
fn stored_block_then_fixed_block() {
    let deflate: [u8; 10] = [0x00, 0x02, 0x00, 0xfd, 0xff, 0x68, 0x69, 0x53, 0x04, 0x00];
    assert_eq!(inflate_zlib(&wrap(&deflate)), Ok(b"hi!".to_vec()));
}

#[test]
fn bytes_after_the_final_block_are_ignored() {
    let mut stream: Vec<u8> = vec![0x78, 0x01, 0x01, 0x01, 0x00, 0xfe, 0xff, 0x5a];
    assert_eq!(inflate_zlib(&stream), Ok(vec![0x5a]));
    stream.extend_from_slice(&[0xde, 0xad, 0xbe, 0xef, 0x07, 0x07]);
    assert_eq!(inflate_zlib(&stream), Ok(vec![0x5a]));
}

#[test]
fn input_too_short_for_a_header() {
    assert_eq!(inflate_zlib(&[]), Err(InflateError::InputTooShort));
    assert_eq!(inflate_zlib(&[0x78]), Err(InflateError::InputTooShort));
}

#[test]
fn input_too_short_for_a_block_header() {
    assert_eq!(inflate_zlib(&[0x78, 0x9c]), Err(InflateError::InputTooShort));
}

#[test]
fn header_checksum_failure_is_invalid_header() {
    assert_eq!(inflate_zlib(&[0x00, 0x01, 0x00, 0x00]), Err(InflateError::InvalidHeader));
    assert_eq!(inflate_zlib(&[0x78, 0x9d, 0x03, 0x00]), Err(InflateError::InvalidHeader));
    // The checksum is looked at before the method and the dictionary flag.
    assert_eq!(inflate_zlib(&[0x77, 0x20]), Err(InflateError::InvalidHeader));
}

#[test]
fn every_pair_that_fails_the_checksum_is_invalid_header() {
    for cmf in 0..=255u16 {
        for flg in 0..=255u16 {
            let r = inflate_zlib(&[cmf as u8, flg as u8, 0x03, 0x00, 0x00, 0x00, 0x00, 0x01]);
            if ((cmf << 8) | flg) % 31 != 0 {
                assert_eq!(r, Err(InflateError::InvalidHeader));
            } else if cmf & 0x0f != 8 || flg & 0x20 != 0 {
                assert_eq!(r, Err(InflateError::Unsupported));
            } else {
                assert_eq!(r, Ok(Vec::new()));
            }
        }
    }
}

#[test]
fn all_zero_header_passes_the_checksum_and_names_no_method() {
    // 0x0000 is a multiple of 31, so the checksum holds; method 0 is not
    // DEFLATE.
    assert_eq!(inflate_zlib(&[0x00, 0x00, 0x00, 0x00]), Err(InflateError::Unsupported));
}

#[test]
fn preset_dictionary_is_unsupported() {
    assert_eq!((0x7800u32 + 0x20) % 31, 0);
    assert_eq!(inflate_zlib(&[0x78, 0x20, 0x03, 0x00]), Err(InflateError::Unsupported));
}

#[test]
fn other_method_is_unsupported() {
    assert_eq!((0x7900u32 + 0x18) % 31, 0);
    assert_eq!(inflate_zlib(&[0x79, 0x18, 0x03, 0x00]), Err(InflateError::Unsupported));
}

#[test]
fn reserved_block_type_is_unsupported() {
    assert_eq!(inflate_zlib(&[0x78, 0x01, 0x07, 0x00]), Err(InflateError::Unsupported));
    assert_eq!(inflate_zlib(&[0x78, 0x01, 0x06, 0x00]), Err(InflateError::Unsupported));
}

#[test]
fn stored_length_mismatch() {
    // LEN = 0x0004, NLEN = 0x0000.
    assert_eq!(
        inflate_zlib(&[0x78, 0x01, 0x01, 0x04, 0x00, 0x00, 0x00, 0x41, 0x41, 0x41, 0x41]),
        Err(InflateError::BadBlockData)
    );
}

#[test]
fn stored_length_mismatch_comes_before_missing_bytes() {
    assert_eq!(inflate_zlib(&[0x78, 0x01, 0x01, 0x04, 0x00, 0x00, 0x00]), Err(InflateError::BadBlockData));
}

#[test]
fn stored_block_cut_short() {
    assert_eq!(inflate_zlib(&[0x78, 0x01, 0x01, 0x04, 0x00]), Err(InflateError::InputTooShort));
    assert_eq!(
        inflate_zlib(&[0x78, 0x01, 0x01, 0x04, 0x00, 0xfb, 0xff, 0x41, 0x41, 0x41]),
        Err(InflateError::InputTooShort)
    );
}

#[test]
fn distance_beyond_the_output() {
    // A match as the first symbol: nothing to copy from.
    assert_eq!(inflate_zlib(&wrap(&[0x03, 0x02, 0x00])), Err(InflateError::BadBlockData));
}

#[test]
fn literal_length_symbol_286() {
    assert_eq!(inflate_zlib(&wrap(&[0x1b, 0x03, 0x00])), Err(InflateError::BadHuffmanCode));
}

#[test]
fn distance_symbol_30() {
    assert_eq!(inflate_zlib(&wrap(&[0x73, 0x04, 0x3e, 0x00])), Err(InflateError::BadHuffmanCode));
}

#[test]
fn repeat_without_a_previous_length() {
    assert_eq!(
        inflate_zlib(&wrap(&[0x05, 0x00, 0x02, 0x24, 0x00, 0x00])),
        Err(InflateError::BadHuffmanCode)
    );
}

#[test]
fn run_beyond_the_announced_lengths() {
    assert_eq!(
        inflate_zlib(&wrap(&[0x05, 0x00, 0x80, 0xe4, 0xff, 0x1f, 0x00, 0x00])),
        Err(InflateError::BadHuffmanCode)
    );
}

#[test]
fn oversubscribed_code_length_code() {
    assert_eq!(
        inflate_zlib(&wrap(&[0x05, 0x00, 0x92, 0x04, 0x00, 0x00, 0x00, 0x00])),
        Err(InflateError::BadHuffmanCode)
    );
}

#[test]
fn fixed_block_cut_inside_a_symbol() {
    // The block header and one bit of a literal.
    assert_eq!(inflate_zlib(&[0x78, 0x01, 0x73]), Err(InflateError::InputTooShort));
}

#[test]
fn truncating_the_fox_stream() {
    let compressed: [u8; 50] = [
        0x78, 0x9c, 0x0b, 0xc9, 0x48, 0x55, 0x28, 0x2c, 0xcd, 0x4c, 0xce, 0x56, 0x48, 0x2a, 0xca,
        0x2f, 0xcf, 0x53, 0x48, 0xcb, 0xaf, 0x50, 0xc8, 0x2a, 0xcd, 0x2d, 0x28, 0x56, 0xc8, 0x2f,
        0x4b, 0x2d, 0x52, 0x28, 0x01, 0x4a, 0xe7, 0x24, 0x56, 0x55, 0x2a, 0xa4, 0xe4, 0xa7, 0x03,
        0x00, 0x5b, 0xdc, 0x0f, 0xda,
    ];
    for keep in 0..46usize {
        assert_eq!(inflate_zlib(&compressed[..keep]), Err(InflateError::InputTooShort), "keep {}", keep);
    }
    assert!(inflate_zlib(&compressed[..50]).is_ok());
}

#[test]
fn error_values_compare_and_print() {
    assert_ne!(InflateError::InputTooShort, InflateError::OutputOverflow);
    assert_eq!(format!("{:?}", InflateError::BadHuffmanCode), "BadHuffmanCode");
    let e: InflateError = InflateError::OutputOverflow;
    let copy: InflateError = e;
    assert_eq!(e, copy);
}

/// The stream of stored blocks for `bytes`: blocks of 65535 bytes while more
/// than that is left, then a last block with the rest.
fn stored_stream(bytes: &[u8]) -> Vec<u8> {
    let mut v: Vec<u8> = vec![0x78, 0x01];
    let mut rest: &[u8] = bytes;
    loop {
        let last: bool = rest.len() <= 0xffff;
        let n: usize = if last { rest.len() } else { 0xffff };
        v.push(if last { 1 } else { 0 });
        v.push((n % 256) as u8);
        v.push((n / 256) as u8);
        v.push((255 - n % 256) as u8);
        v.push((255 - n / 256) as u8);
        v.extend_from_slice(&rest[..n]);
        rest = &rest[n..];
        if last {
            return v;
        }
    }
}

#[test]
fn stored_round_trip_of_one_block() {
    for n in [0usize, 1, 2, 255, 256, 257, 65534, 65535] {
        let bytes: Vec<u8> = (0..n).map(|i| (i * 7 + 3) as u8).collect();
        assert_eq!(inflate_zlib(&stored_stream(&bytes)), Ok(bytes));
    }
}

#[test]
fn stored_round_trip_of_several_blocks() {
    for n in [65536usize, 70_000, 131_070, 131_071, 200_000] {
        let bytes: Vec<u8> = (0..n).map(|i| (i * 31 + i / 256) as u8).collect();
        let mut stream = stored_stream(&bytes);
        assert_eq!(inflate_zlib(&stream), Ok(bytes.clone()));
        stream.extend_from_slice(&[1, 2, 3, 4]);
        assert_eq!(inflate_zlib(&stream), Ok(bytes));
    }
}

#[test]
fn appended_bytes_do_not_change_the_output() {
    let deflate: [u8; 4] = [0x73, 0x04, 0x03, 0x00];
    let mut stream = wrap(&deflate);
    let first = inflate_zlib(&stream);
    assert_eq!(first, Ok(b"AAAAAA".to_vec()));
    for extra in 0..300u32 {
        stream.push((extra * 13) as u8);
        assert_eq!(inflate_zlib(&stream), first);
    }
}

#[test]
fn every_prefix_decodes_alike_or_is_too_short() {
    let streams: [Vec<u8>; 4] = [
        wrap(&[0x73, 0x04, 0x03, 0x00]),
        wrap(&[0x00, 0x02, 0x00, 0xfd, 0xff, 0x68, 0x69, 0x53, 0x04, 0x00]),
        wrap(&[0x05, 0xc0, 0x81, 0x08, 0x00, 0x00, 0x00, 0x00, 0x20, 0xd6, 0xfd, 0x25, 0x1e, 0x04, 0x00, 0x00]),
        // A stream that is refused: its prefixes are refused alike or are
        // too short.
        wrap(&[0x73, 0x04, 0x3e, 0x00]),
    ];
    for stream in streams.iter() {
        let whole = inflate_zlib(stream);
        for keep in 0..=stream.len() {
            let part = inflate_zlib(&stream[..keep]);
            assert!(part == whole || part == Err(InflateError::InputTooShort), "keep {}", keep);
        }
    }
}

/// Writes bits in stream order.
struct BitWriter {
    bytes: Vec<u8>,
    used: usize,
}

fn put(w: &mut BitWriter, bit: u32) {
    if w.used % 8 == 0 {
        w.bytes.push(0);
    }
    let last: usize = w.bytes.len() - 1;
    w.bytes[last] |= ((bit & 1) as u8) << (w.used % 8);
    w.used += 1;
}

/// A field, its lowest bit first.
fn put_field(w: &mut BitWriter, value: u32, bits: u32) {
    for i in 0..bits {
        put(w, value >> i);
    }
}

/// A code, its highest bit first.
fn put_code(w: &mut BitWriter, code: u32, bits: u32) {
    for i in (0..bits).rev() {
        put(w, code >> i);
    }
}

/// A symbol in the fixed literal/length code.
fn put_fixed(w: &mut BitWriter, sym: u32) {
    if sym < 144 {
        put_code(w, 0x30 + sym, 8);
    } else if sym < 256 {
        put_code(w, 0x190 + sym - 144, 9);
    } else if sym < 280 {
        put_code(w, sym - 256, 7);
    } else {
        put_code(w, 0xc0 + sym - 280, 8);
    }
}

#[test]
fn fixed_block_of_literals_round_trip() {
    let bytes: Vec<u8> = (0..1000u32).map(|i| (i * 37 + i / 7) as u8).collect();
    let mut w = BitWriter { bytes: vec![0x78, 0x01], used: 16 };
    put_field(&mut w, 1, 1);
    put_field(&mut w, 1, 2);
    for b in bytes.iter() {
        put_fixed(&mut w, *b as u32);
    }
    put_fixed(&mut w, 256);
    let mut stream = w.bytes;
    stream.extend_from_slice(&[0, 0, 0, 0]);
    assert_eq!(inflate_zlib(&stream), Ok(bytes));
}

#[test]
fn fixed_blocks_of_tokens_round_trip() {
    // Two blocks: `abc`, a match of length 6 at distance 3, the literal
    // 0xff; then a match of the longest length at distance 10.
    let mut w = BitWriter { bytes: vec![0x78, 0x01], used: 16 };
    put_field(&mut w, 0, 1);
    put_field(&mut w, 1, 2);
    for b in b"abc" {
        put_fixed(&mut w, *b as u32);
    }
    put_fixed(&mut w, 260);
    put_code(&mut w, 2, 5);
    put_fixed(&mut w, 0xff);
    put_fixed(&mut w, 256);
    put_field(&mut w, 1, 1);
    put_field(&mut w, 1, 2);
    put_fixed(&mut w, 285);
    // Distance 10 is symbol 6 (from 9 on) with two extra bits of value 1.
    put_code(&mut w, 6, 5);
    put_field(&mut w, 1, 2);
    put_fixed(&mut w, 256);
    let mut stream = w.bytes;
    stream.extend_from_slice(&[0, 0, 0, 0]);
    let mut expected: Vec<u8> = b"abcabcabc\xff".to_vec();
    for i in 0..258usize {
        let b: u8 = expected[i];
        expected.push(b);
    }
    assert_eq!(inflate_zlib(&stream), Ok(expected));
}
