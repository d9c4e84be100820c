use lib::bits::BitReader;

#[test]
fn read_bits_least_significant_first() {
    let data = [0b1011_0100u8, 0xff];
    let mut r = BitReader::new(&data);
    assert_eq!(r.read_bits(3), Some(0b100));
    assert_eq!(r.read_bits(5), Some(0b10110));
    assert_eq!(r.read_bits(8), Some(0xff));
    assert_eq!(r.read_bits(1), None);
}

#[test]
fn read_bits_across_bytes() {
    let data = [0x34u8, 0x12];
    let mut r = BitReader::new(&data);
    assert_eq!(r.read_bits(16), Some(0x1234));
}

#[test]
fn read_bits_failure_consumes_nothing() {
    let data = [0xabu8];
    let mut r = BitReader::new(&data);
    assert_eq!(r.read_bits(12), None);
    assert_eq!(r.read_bits(8), Some(0xab));
}

#[test]
fn peek_does_not_consume() {
    let data = [0b0110_1001u8];
    let mut r = BitReader::new(&data);
    assert_eq!(r.peek_bits(4), Some(0b1001));
    assert_eq!(r.peek_bits(4), Some(0b1001));
    assert_eq!(r.read_bits(4), Some(0b1001));
    assert_eq!(r.peek_bits(4), Some(0b0110));
    assert_eq!(r.peek_bits(5), None);
}

#[test]
fn skip_bits_then_read() {
    let data = [0b1111_0000u8, 0x01];
    let mut r = BitReader::new(&data);
    assert!(r.skip_bits(4));
    assert_eq!(r.read_bits(4), Some(0b1111));
    assert!(!r.skip_bits(9));
    assert_eq!(r.read_bits(8), Some(1));
}

#[test]
fn align_and_byte_position() {
    let data = [0xffu8, 0xaa, 0xbb, 0xcc];
    let mut r = BitReader::new(&data);
    assert_eq!(r.byte_position(), 0);
    assert_eq!(r.read_bits(3), Some(7));
    assert_eq!(r.byte_position(), 1);
    r.align_byte();
    assert_eq!(r.byte_position(), 1);
    assert_eq!(r.read_bits(8), Some(0xaa));
    assert_eq!(r.byte_position(), 2);
}

#[test]
fn take_bytes_after_partial_byte() {
    let data = [0x01u8, 0x10, 0x20, 0x30];
    let mut r = BitReader::new(&data);
    assert_eq!(r.read_bits(1), Some(1));
    assert_eq!(r.take_bytes(2), Some(&data[1..3]));
    assert_eq!(r.read_bits(8), Some(0x30));
    assert_eq!(r.take_bytes(1), None);
}

#[test]
fn take_bytes_too_many() {
    let data = [1u8, 2, 3];
    let mut r = BitReader::new(&data);
    assert_eq!(r.take_bytes(4), None);
    assert_eq!(r.take_bytes(3), Some(&data[..]));
}

#[test]
fn read_bits_in_two_reads_equals_one_read() {
    let data = [0b1010_0111u8, 0b0110_1100, 0xff];
    let mut whole = BitReader::new(&data);
    let all = whole.read_bits(12).unwrap();
    let mut parts = BitReader::new(&data);
    let a = parts.read_bits(5).unwrap();
    let b = parts.read_bits(7).unwrap();
    assert_eq!(all, a + (b << 5));
    assert_eq!(whole.byte_position(), parts.byte_position());
}
