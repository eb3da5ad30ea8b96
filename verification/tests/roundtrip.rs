use flate2::write::ZlibEncoder;
use flate2::Compression;
use no_inflate::inflate_zlib;
use std::io::Write;

fn compress(data: &[u8], level: Compression) -> Vec<u8> {
    let mut enc = ZlibEncoder::new(Vec::new(), level);
    enc.write_all(data).unwrap();
    enc.finish().unwrap()
}

fn hello_lines() -> Vec<u8> {
    let mut data = Vec::new();
    for _i in 0..1000 {
        data.extend_from_slice(b"Hello WORLD '123456' ABCDEFGHIJKLMNOPQRSTUVWXYZ\n");
    }
    data
}

#[test]
fn lib_roundtrip_simple() {
    let input = b"The quick brown fox jumps over the lazy dog";
    let compressed = compress(input, Compression::default());

    let decompressed = inflate_zlib(&compressed).expect("decompress");
    assert_eq!(decompressed, input);
}

#[test]
fn lib_roundtrip_large() {
    let data = hello_lines();
    let compressed = compress(&data, Compression::default());

    let decompressed = inflate_zlib(&compressed).expect("decompress");
    assert_eq!(decompressed, data);
}

#[test]
fn inflate_test_roundtrip_simple() {
    let input = b"The quick brown fox jumps over the lazy dog";
    let mut enc = ZlibEncoder::new(Vec::new(), Compression::default());
    enc.write_all(input).unwrap();
    let compressed = enc.finish().unwrap();

    let decompressed = inflate_zlib(&compressed).expect("decompress");
    assert_eq!(decompressed, input);
    assert_eq!(decompressed.len(), 43);
}

#[test]
fn inflate_test_roundtrip_large() {
    let mut data = Vec::new();
    for _i in 0..1000 {
        data.extend_from_slice(b"Hello WORLD '123456' ABCDEFGHIJKLMNOPQRSTUVWXYZ\n");
    }
    let mut enc = ZlibEncoder::new(Vec::new(), Compression::default());
    enc.write_all(&data).unwrap();
    let compressed = enc.finish().unwrap();

    let decompressed = inflate_zlib(&compressed).expect("decompress");
    assert_eq!(decompressed, data);
}

#[test]
fn global_allocator_integration() {
    let input = b"example data to compress with global allocator";
    let mut enc = ZlibEncoder::new(Vec::new(), Compression::default());
    enc.write_all(input).unwrap();
    let compressed = enc.finish().unwrap();
    let decompressed = inflate_zlib(&compressed).expect("decompress");
    assert_eq!(decompressed, input);
}

#[test]
fn roundtrip_python_zlib() {
    let input = b"The quick brown fox jumps over the lazy dog";
    // What zlib's own `compress` gives for `input` at its default level.
    let compressed: [u8; 50] = [
        0x78, 0x9c, 0x0b, 0xc9, 0x48, 0x55, 0x28, 0x2c, 0xcd, 0x4c, 0xce, 0x56, 0x48, 0x2a, 0xca,
        0x2f, 0xcf, 0x53, 0x48, 0xcb, 0xaf, 0x50, 0xc8, 0x2a, 0xcd, 0x2d, 0x28, 0x56, 0xc8, 0x2f,
        0x4b, 0x2d, 0x52, 0x28, 0x01, 0x4a, 0xe7, 0x24, 0x56, 0x55, 0x2a, 0xa4, 0xe4, 0xa7, 0x03,
        0x00, 0x5b, 0xdc, 0x0f, 0xda,
    ];
    let decompressed = inflate_zlib(&compressed).expect("decompress");
    assert_eq!(decompressed, input);
}

#[test]
fn roundtrip_every_level() {
    let data = hello_lines();
    for level in 0..=9u32 {
        let compressed = compress(&data, Compression::new(level));
        assert_eq!(inflate_zlib(&compressed), Ok(data.clone()), "level {}", level);
    }
}

#[test]
fn roundtrip_stored_aaaa() {
    let compressed = compress(b"AAAA", Compression::none());
    assert_eq!(inflate_zlib(&compressed), Ok(b"AAAA".to_vec()));
}

#[test]
fn roundtrip_empty_input() {
    for level in [0u32, 1, 6, 9] {
        let compressed = compress(b"", Compression::new(level));
        assert_eq!(inflate_zlib(&compressed), Ok(Vec::new()));
    }
}

#[test]
fn roundtrip_all_byte_values() {
    let mut data: Vec<u8> = Vec::new();
    for round in 0..40u32 {
        for b in 0..=255u8 {
            data.push(b.wrapping_mul((round % 7 + 1) as u8).wrapping_add(round as u8));
        }
    }
    for level in [0u32, 1, 6, 9] {
        let compressed = compress(&data, Compression::new(level));
        assert_eq!(inflate_zlib(&compressed), Ok(data.clone()));
    }
}

#[test]
fn roundtrip_long_runs_and_far_matches() {
    let mut data: Vec<u8> = vec![b'x'; 70_000];
    let mut state: u32 = 12345;
    for _ in 0..40_000u32 {
        state = state.wrapping_mul(1103515245).wrapping_add(12345);
        data.push((state >> 16) as u8);
    }
    let head: Vec<u8> = data[70_000..75_000].to_vec();
    data.extend_from_slice(&head);
    for level in [1u32, 6, 9] {
        let compressed = compress(&data, Compression::new(level));
        assert_eq!(inflate_zlib(&compressed), Ok(data.clone()));
    }
}

#[test]
fn decoding_twice_gives_the_same() {
    let data = hello_lines();
    let compressed = compress(&data, Compression::default());
    assert_eq!(inflate_zlib(&compressed), inflate_zlib(&compressed));
    let broken = &compressed[..compressed.len() / 2];
    assert_eq!(inflate_zlib(broken), inflate_zlib(broken));
    assert!(inflate_zlib(broken).is_err());
}

#[test]
fn truncation_is_detected() {
    let data = hello_lines();
    let compressed = compress(&data, Compression::default());
    let n: usize = compressed.len();
    // The last four bytes are the checksum; every byte before them carries
    // bits of the blocks.
    for keep in 0..n - 4 {
        assert_eq!(
            inflate_zlib(&compressed[..keep]),
            Err(no_inflate::InflateError::InputTooShort),
            "keeping {} of {} bytes",
            keep,
            n
        );
    }
    for keep in n - 4..n {
        let r = inflate_zlib(&compressed[..keep]);
        assert!(r == Ok(data.clone()) || r == Err(no_inflate::InflateError::InputTooShort));
    }
    assert_eq!(inflate_zlib(&compressed), Ok(data));
}

#[test]
fn mangled_streams_are_decoded_or_refused() {
    let data = hello_lines();
    let mut seed: u32 = 0x2545_f491;
    for level in [0u32, 1, 6, 9] {
        let compressed = compress(&data[..4000], Compression::new(level));
        for _ in 0..400u32 {
            let mut bad = compressed.clone();
            seed = seed.wrapping_mul(1664525).wrapping_add(1013904223);
            let at: usize = (seed >> 8) as usize % bad.len();
            seed = seed.wrapping_mul(1664525).wrapping_add(1013904223);
            bad[at] ^= 1u8 << ((seed >> 13) % 8);
            // Whatever comes out comes out again, and a prefix never gives
            // another output.
            let whole = inflate_zlib(&bad);
            assert_eq!(inflate_zlib(&bad), whole);
            let part = inflate_zlib(&bad[..bad.len() / 2]);
            assert!(part == whole || part == Err(no_inflate::InflateError::InputTooShort));
        }
    }
}
