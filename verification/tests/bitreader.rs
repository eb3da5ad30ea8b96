use no_inflate::inflate::bitreader::BitReader;

#[test]
fn read_bits_lsb_first() {
    let data: [u8; 2] = [0b1011_0101, 0b0000_0110];
    let mut br = BitReader::new(&data);
    assert_eq!(br.read_bits(1), Some(1));
    assert_eq!(br.read_bits(2), Some(0b10));
    assert_eq!(br.read_bits(5), Some(0b10110));
    assert_eq!(br.read_bits(3), Some(0b110));
    assert_eq!(br.read_bits(5), Some(0));
    assert_eq!(br.read_bits(1), None);
}

#[test]
fn read_bits_across_bytes() {
    let data: [u8; 3] = [0xab, 0xcd, 0xef];
    let mut br = BitReader::new(&data);
    assert_eq!(br.read_bits(4), Some(0xb));
    assert_eq!(br.read_bits(16), Some(0xfcda));
    assert_eq!(br.read_bits(4), Some(0xe));
}

#[test]
fn read_zero_bits_is_a_no_op() {
    let data: [u8; 1] = [0xff];
    let mut br = BitReader::new(&data);
    assert_eq!(br.read_bits(0), Some(0));
    assert_eq!(br.read_bits(8), Some(0xff));
    assert_eq!(br.read_bits(0), Some(0));
    let empty: [u8; 0] = [];
    let mut none = BitReader::new(&empty);
    assert_eq!(none.read_bits(0), Some(0));
    assert_eq!(none.peek_bits(0), Some(0));
}

#[test]
fn read_thirty_two_bits() {
    let data: [u8; 9] = [0x78, 0x56, 0x34, 0x12, 0xf0, 0xde, 0xbc, 0x9a, 0x01];
    let mut br = BitReader::new(&data);
    assert_eq!(br.read_bits(32), Some(0x1234_5678));
    assert_eq!(br.read_bits(32), Some(0x9abc_def0));
    assert_eq!(br.read_bits(32), None);
    assert_eq!(br.read_bits(8), Some(1));
}

#[test]
fn read_thirty_two_bits_from_inside_a_byte() {
    let data: [u8; 5] = [0xff, 0x00, 0xff, 0x00, 0xff];
    let mut br = BitReader::new(&data);
    assert_eq!(br.read_bits(7), Some(0x7f));
    // Bits 7..39: one 1, eight 0s, eight 1s, eight 0s, seven 1s.
    assert_eq!(br.read_bits(32), Some(0xfe01_fe01));
    assert_eq!(br.read_bits(1), Some(1));
    assert_eq!(br.read_bits(1), None);
}

#[test]
fn more_than_thirty_two_bits_are_refused() {
    let data: [u8; 8] = [1, 2, 3, 4, 5, 6, 7, 8];
    let mut br = BitReader::new(&data);
    assert_eq!(br.read_bits(33), None);
    assert_eq!(br.peek_bits(64), None);
    assert_eq!(br.read_bits(8), Some(1));
}

#[test]
fn failed_read_does_not_move() {
    let data: [u8; 1] = [0b1010_0101];
    let mut br = BitReader::new(&data);
    assert_eq!(br.read_bits(3), Some(0b101));
    assert_eq!(br.read_bits(6), None);
    assert_eq!(br.read_bits(5), Some(0b10100));
}

#[test]
fn peek_does_not_move() {
    let data: [u8; 2] = [0x34, 0x12];
    let mut br = BitReader::new(&data);
    assert_eq!(br.peek_bits(16), Some(0x1234));
    assert_eq!(br.peek_bits(4), Some(0x4));
    assert_eq!(br.read_bits(4), Some(0x4));
    assert_eq!(br.peek_bits(12), Some(0x123));
    assert_eq!(br.peek_bits(13), None);
    assert_eq!(br.read_bits(12), Some(0x123));
}

#[test]
fn align_skips_to_the_next_byte() {
    let data: [u8; 3] = [0xff, 0xa5, 0x5a];
    let mut br = BitReader::new(&data);
    br.align_to_byte();
    assert_eq!(br.peek_bits(8), Some(0xff));
    assert_eq!(br.read_bits(3), Some(7));
    br.align_to_byte();
    assert_eq!(br.read_byte(), Some(0xa5));
    br.align_to_byte();
    assert_eq!(br.read_byte(), Some(0x5a));
    br.align_to_byte();
    assert_eq!(br.read_byte(), None);
}

#[test]
fn align_after_a_wide_peek() {
    let data: [u8; 4] = [0x01, 0x02, 0x03, 0x04];
    let mut br = BitReader::new(&data);
    assert_eq!(br.read_bits(1), Some(1));
    assert_eq!(br.peek_bits(20), Some(0x0003_0200 >> 1));
    br.align_to_byte();
    assert_eq!(br.read_byte(), Some(0x02));
    assert_eq!(br.read_byte(), Some(0x03));
    assert_eq!(br.read_byte(), Some(0x04));
    assert_eq!(br.read_byte(), None);
}

#[test]
fn read_byte_inside_a_byte_fails() {
    let data: [u8; 4] = [0x0f, 0xf0, 0x33, 0x44];
    let mut br = BitReader::new(&data);
    assert_eq!(br.read_bits(4), Some(0xf));
    assert_eq!(br.read_byte(), None);
    // Also when the buffer holds more than a byte.
    assert_eq!(br.peek_bits(12), Some(0xf00));
    assert_eq!(br.read_byte(), None);
    assert_eq!(br.read_bits(4), Some(0));
    assert_eq!(br.read_byte(), Some(0xf0));
}

#[test]
fn read_byte_from_buffer_and_from_data() {
    let data: [u8; 3] = [0x11, 0x22, 0x33];
    let mut br = BitReader::new(&data);
    assert_eq!(br.peek_bits(16), Some(0x2211));
    assert_eq!(br.read_byte(), Some(0x11));
    assert_eq!(br.read_byte(), Some(0x22));
    assert_eq!(br.read_byte(), Some(0x33));
    assert_eq!(br.read_byte(), None);
}
