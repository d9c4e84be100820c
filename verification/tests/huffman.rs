use lib::bits::BitReader;
use lib::error::PngError;
use lib::huffman::{construct, decode, try_decode, Huffman};

fn build(lengths: &[usize], count: &mut [usize; 16], symbol: &mut [usize; 8]) {
    let mut h = Huffman { count: &mut count[..], symbol: &mut symbol[..] };
    construct(&mut h, lengths, lengths.len());
}

#[test]
fn construct_counts_and_orders_symbols() {
    let mut count = [9usize; 16];
    let mut symbol = [99usize; 8];
    build(&[2, 1, 3, 3, 0], &mut count, &mut symbol);
    assert_eq!(&count[..5], &[1, 1, 1, 2, 0]);
    assert_eq!(&symbol[..4], &[1, 0, 2, 3]);
    assert_eq!(&symbol[4..], &[99, 99, 99, 99]);
}

#[test]
fn decode_canonical_codes() {
    let mut count = [0usize; 16];
    let mut symbol = [0usize; 8];
    build(&[2, 1, 3, 3], &mut count, &mut symbol);
    let h = Huffman { count: &mut count[..], symbol: &mut symbol[..] };
    // codes: 1 -> "0", 0 -> "10", 2 -> "110", 3 -> "111", packed first bit lowest
    // stream of symbols 0, 1, 3, 2: bits 1,0 | 0 | 1,1,1 | 1,1,0
    let data = [0b1111_1001u8, 0b0000_0000];
    let mut r = BitReader::new(&data);
    assert_eq!(try_decode(&mut r, &h), Ok(0));
    assert_eq!(try_decode(&mut r, &h), Ok(1));
    assert_eq!(try_decode(&mut r, &h), Ok(3));
    assert_eq!(try_decode(&mut r, &h), Ok(2));
}

#[test]
fn decode_runs_out_of_bits() {
    let mut count = [0usize; 16];
    let mut symbol = [0usize; 8];
    build(&[2, 1, 3, 3], &mut count, &mut symbol);
    let h = Huffman { count: &mut count[..], symbol: &mut symbol[..] };
    let data = [0xffu8];
    let mut r = BitReader::new(&data);
    assert_eq!(try_decode(&mut r, &h), Ok(3));
    assert_eq!(try_decode(&mut r, &h), Ok(3));
    assert_eq!(try_decode(&mut r, &h), Err(PngError::UnexpectedEnd));
}

#[test]
fn decode_without_matching_code() {
    let mut count = [0usize; 16];
    let mut symbol = [0usize; 8];
    build(&[1], &mut count, &mut symbol);
    let h = Huffman { count: &mut count[..], symbol: &mut symbol[..] };
    let data = [0xffu8, 0xff];
    let mut r = BitReader::new(&data);
    assert_eq!(try_decode(&mut r, &h), Ok(usize::MAX));
    assert_eq!(r.byte_position(), 2);
}

#[test]
fn decode_from_a_stream_with_enough_bits() {
    let mut count = [0usize; 16];
    let mut symbol = [0usize; 8];
    build(&[2, 1, 3, 3], &mut count, &mut symbol);
    let h = Huffman { count: &mut count[..], symbol: &mut symbol[..] };
    let data = [0b1111_1001u8, 0b0000_0000];
    let mut r = BitReader::new(&data);
    assert_eq!(decode(&mut r, &h), 0);
    assert_eq!(decode(&mut r, &h), 1);
    assert_eq!(decode(&mut r, &h), 3);
    assert_eq!(decode(&mut r, &h), 2);
}
