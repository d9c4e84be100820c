use lib::bits::BitReader;
use lib::error::PngError;
use lib::inflate::{
    dynamic, fixed, inflate, stored, try_dynamic, try_fixed, try_inflate, try_stored, try_zlib, zlib,
};

/// Packs bits the way deflate does: values least significant bit first, Huffman codes most
/// significant bit first.
struct BitWriter {
    bytes: Vec<u8>,
    nbits: usize,
}

impl BitWriter {
    fn new() -> Self {
        BitWriter { bytes: Vec::new(), nbits: 0 }
    }

    fn bit(&mut self, b: u32) {
        if self.nbits % 8 == 0 {
            self.bytes.push(0);
        }
        if b != 0 {
            let last = self.bytes.len() - 1;
            self.bytes[last] |= 1 << (self.nbits % 8);
        }
        self.nbits += 1;
    }

    fn value(&mut self, v: u32, n: u32) {
        for i in 0..n {
            self.bit((v >> i) & 1);
        }
    }

    fn code(&mut self, c: u32, len: u32) {
        for i in (0..len).rev() {
            self.bit((c >> i) & 1);
        }
    }

    /// A symbol of the fixed literal/length code.
    fn fixed_lit(&mut self, s: u32) {
        if s <= 143 {
            self.code(0x30 + s, 8)
        } else if s <= 255 {
            self.code(0x190 + s - 144, 9)
        } else if s <= 279 {
            self.code(s - 256, 7)
        } else {
            self.code(0xc0 + s - 280, 8)
        }
    }
}

fn fixed_header(w: &mut BitWriter) {
    w.value(1, 1);
    w.value(1, 2);
}

const HELLO: &[u8] = &[120, 156, 203, 72, 205, 201, 201, 7, 0, 6, 44, 2, 21];
const STORED: &[u8] = &[
    120, 1, 1, 13, 0, 242, 255, 115, 116, 111, 114, 101, 100, 32, 98, 121, 116, 101, 115, 33, 36,
    201, 4, 250,
];
const DYN_DATA: &[u8] = &[100, 101, 102, 108, 97, 116, 101, 32, 100, 101, 102, 108, 97, 116, 101, 32, 100, 101, 102, 108, 97, 116, 101, 32, 100, 101, 108, 116, 97, 32, 103, 97, 109, 109, 97, 32, 100, 101, 102, 108, 97, 116, 101, 32, 103, 97, 109, 109, 97, 32, 98, 101, 116, 97, 32, 100, 101, 102, 108, 97, 116, 101, 32, 112, 110, 103, 32, 103, 97, 109, 109, 97, 32, 98, 101, 116, 97, 32, 97, 108, 112, 104, 97, 32, 104, 117, 102, 102, 109, 97, 110, 32, 100, 101, 102, 108, 97, 116, 101, 32, 103, 97, 109, 109, 97, 32, 97, 108, 112, 104, 97, 32, 98, 101, 116, 97, 32, 97, 108, 112, 104, 97, 32, 97, 108, 112, 104, 97, 32, 100, 101, 108, 116, 97, 32, 100, 101, 108, 116, 97, 32, 97, 108, 112, 104, 97, 32, 100, 101, 102, 108, 97, 116, 101, 32, 99, 104, 117, 110, 107, 32, 100, 101, 102, 108, 97, 116, 101, 32, 100, 101, 108, 116, 97, 32, 100, 101, 108, 116, 97, 32, 112, 110, 103, 32, 100, 101, 102, 108, 97, 116, 101, 32, 97, 108, 112, 104, 97, 32, 98, 101, 116, 97, 32, 100, 101, 102, 108, 97, 116, 101, 32, 112, 110, 103, 32, 104, 117, 102, 102, 109, 97, 110, 32, 98, 101, 116, 97, 32, 112, 110, 103, 32, 99, 104, 117, 110, 107, 32, 100, 101, 108, 116, 97, 32, 112, 110, 103, 32, 97, 108, 112, 104, 97, 32, 98, 101, 116, 97, 32, 98, 101, 116, 97, 32, 104, 117, 102, 102, 109, 97, 110, 32, 98, 101, 116, 97, 32, 112, 110, 103, 32, 104, 117, 102, 102, 109, 97, 110, 32, 98, 101, 116, 97, 32, 97, 108, 112, 104, 97, 32, 97, 108, 112, 104, 97, 32, 100, 101, 108, 116, 97, 32, 100, 101, 108, 116, 97, 32, 97, 108, 112, 104, 97, 32, 100, 101, 102, 108, 97, 116, 101, 32, 104, 117, 102, 102, 109, 97, 110, 32, 104, 117, 102, 102, 109, 97, 110, 32, 104, 117, 102, 102, 109, 97, 110, 32, 98, 101, 116, 97, 32, 100, 101, 108, 116, 97, 32, 112, 110, 103, 32, 99, 104, 117, 110, 107, 32, 98, 101, 116, 97, 32, 112, 110, 103, 32, 99, 104, 117, 110, 107, 32, 97, 108, 112, 104, 97, 32, 104, 117, 102, 102, 109, 97, 110, 32, 98, 101, 116, 97, 32, 103, 97, 109, 109, 97, 32, 100, 101, 108, 116, 97, 32, 98, 101, 116, 97, 32, 97, 108, 112, 104, 97, 32, 97, 108, 112, 104, 97, 32, 100, 101, 102, 108, 97, 116, 101, 32, 100, 101, 102, 108, 97, 116, 101, 32, 103, 97, 109, 109, 97, 32, 100, 101, 108, 116, 97, 32, 100, 101, 102, 108, 97, 116, 101, 32, 100, 101, 108, 116, 97, 32, 103, 97, 109, 109, 97, 32, 104, 117, 102, 102, 109, 97, 110, 32, 104, 117, 102, 102, 109, 97, 110, 32, 98, 101, 116, 97, 32, 104, 117, 102, 102, 109, 97, 110, 32, 104, 117, 102, 102, 109, 97, 110, 32, 100, 101, 108, 116, 97, 32, 97, 108, 112, 104, 97, 32, 112, 110, 103, 32, 112, 110, 103, 32, 97, 108, 112, 104, 97, 32, 100, 101, 108, 116, 97, 32, 103, 97, 109, 109, 97, 32, 104, 117, 102, 102, 109, 97, 110, 32, 98, 101, 116, 97, 32, 97, 108, 112, 104, 97, 32, 103, 97, 109, 109, 97, 32, 100, 101, 108, 116, 97, 32, 100, 101, 102, 108, 97, 116, 101, 32, 112, 110, 103, 32, 97, 108, 112, 104, 97, 32, 99, 104, 117, 110, 107, 32, 112, 110, 103, 32, 104, 117, 102, 102, 109, 97, 110, 32, 98, 101, 116, 97, 32, 98, 101, 116, 97, 32, 98, 101, 116, 97, 32, 100, 101, 108, 116, 97, 32, 100, 101, 108, 116, 97, 32, 97, 108, 112, 104, 97, 32, 99, 104, 117, 110, 107, 32, 99, 104, 117, 110, 107, 32, 100, 101, 102, 108, 97, 116, 101, 32, 103, 97, 109, 109, 97, 32, 100, 101, 102, 108, 97, 116, 101, 32, 103, 97, 109, 109, 97, 32, 104, 117, 102, 102, 109, 97, 110, 32, 103, 97, 109, 109, 97, 32, 103, 97, 109, 109, 97, 32, 112, 110, 103, 32, 100, 101, 108, 116, 97, 32, 100, 101, 108, 116, 97];
const DYN_ZLIB: &[u8] = &[120, 218, 141, 82, 65, 14, 195, 32, 12, 251, 10, 95, 203, 86, 40, 210, 0, 245, 64, 255, 63, 129, 151, 146, 132, 28, 118, 49, 194, 193, 137, 49, 28, 49, 21, 234, 49, 28, 219, 90, 58, 133, 147, 106, 165, 135, 195, 238, 21, 251, 162, 174, 118, 74, 154, 202, 149, 41, 228, 59, 165, 74, 205, 232, 80, 19, 199, 128, 24, 4, 100, 6, 178, 119, 190, 219, 199, 24, 2, 142, 169, 204, 139, 182, 210, 20, 123, 152, 133, 65, 112, 55, 214, 11, 221, 132, 77, 160, 136, 255, 28, 179, 196, 174, 63, 119, 69, 89, 49, 206, 116, 116, 179, 200, 233, 151, 238, 230, 166, 31, 76, 30, 246, 30, 209, 245, 100, 73, 121, 169, 97, 109, 5, 229, 181, 18, 158, 188, 233, 75, 140, 27, 110, 161, 46, 216, 35, 133, 68, 127, 1, 239, 55, 114, 67, 236, 128, 248, 30, 79, 199, 47, 76, 5, 11, 249];

#[test]
fn zlib_fixed_block() {
    let mut out = Vec::new();
    let info = try_zlib(HELLO, &mut out).unwrap();
    assert_eq!(out, b"hello");
    assert_eq!(info.block_types, vec![1]);
    assert_eq!(info.check, 0x062C_0215);
    assert!(!info.preset_dictionary);
    assert_eq!(info.compression_level, 2);
}

#[test]
fn zlib_stored_block() {
    let mut out = Vec::new();
    let info = try_zlib(STORED, &mut out).unwrap();
    assert_eq!(out, b"stored bytes!");
    assert_eq!(info.block_types, vec![0]);
    assert_eq!(info.compression_level, 0);
}

#[test]
fn zlib_dynamic_block() {
    let mut out = Vec::new();
    let info = try_zlib(DYN_ZLIB, &mut out).unwrap();
    assert_eq!(out, DYN_DATA);
    assert_eq!(info.block_types, vec![2]);
    assert_eq!(info.compression_level, 3);
}

#[test]
fn zlib_checks_adler_of_decoded_data_only() {
    let mut out = b"x".to_vec();
    let info = try_zlib(HELLO, &mut out).unwrap();
    assert_eq!(out, b"xhello");
    assert_eq!(info.check, 0x062C_0215);
    // one empty stored block, whose Adler-32 is 1, decoded after earlier output
    let empty = [0x78, 0x01, 0x01, 0x00, 0x00, 0xff, 0xff, 0, 0, 0, 1];
    let mut out = vec![5u8, 6];
    assert!(try_zlib(&empty, &mut out).is_ok());
    assert_eq!(out, vec![5, 6]);
}

#[test]
fn zlib_header_errors() {
    let mut out = Vec::new();
    assert_eq!(try_zlib(&[], &mut out).err(), Some(PngError::ZlibTooShort));
    assert_eq!(try_zlib(&[0x78], &mut out).err(), Some(PngError::ZlibTooShort));
    assert_eq!(try_zlib(&[0x79, 0x9c], &mut out).err(), Some(PngError::ZlibCompressionMethod));
    assert_eq!(try_zlib(&[0x88, 0x9c], &mut out).err(), Some(PngError::ZlibWindowSize));
    assert_eq!(try_zlib(&[0x78, 0x00], &mut out).err(), Some(PngError::ZlibHeaderCheck));
    assert_eq!(try_zlib(&[0x78, 0x9c, 3, 0, 0], &mut out).err(), Some(PngError::ZlibTooShort));
}

#[test]
fn zlib_adler_mismatch() {
    let mut bad = HELLO.to_vec();
    let last = bad.len() - 1;
    bad[last] ^= 1;
    let mut out = Vec::new();
    assert_eq!(try_zlib(&bad, &mut out).err(), Some(PngError::Adler32Mismatch));
}

#[test]
fn inflate_stored_roundtrip() {
    let d = b"abc";
    let stream = [1u8, 3, 0, 0xfc, 0xff, b'a', b'b', b'c'];
    let mut out = b"pre".to_vec();
    let kinds = try_inflate(&stream, &mut out).unwrap();
    assert_eq!(kinds, vec![0]);
    assert_eq!(out, [&b"pre"[..], &d[..]].concat());
}

#[test]
fn inflate_two_blocks() {
    let mut w = BitWriter::new();
    w.value(0, 1);
    w.value(1, 2);
    w.fixed_lit(b'a' as u32);
    w.fixed_lit(256);
    fixed_header(&mut w);
    w.fixed_lit(b'b' as u32);
    w.fixed_lit(257);
    w.code(0, 5);
    w.fixed_lit(256);
    let mut out = Vec::new();
    assert_eq!(try_inflate(&w.bytes, &mut out), Ok(vec![1, 1]));
    assert_eq!(out, b"abbbb");
}

#[test]
fn inflate_reserved_block_type() {
    let mut out = Vec::new();
    assert_eq!(try_inflate(&[0x07], &mut out), Err(PngError::ReservedBlockType));
}

#[test]
fn inflate_empty_stream() {
    let mut out = Vec::new();
    assert_eq!(try_inflate(&[], &mut out), Err(PngError::UnexpectedEnd));
}

#[test]
fn stored_length_mismatch() {
    let data = [1u8, 2, 0, 0, 0, 7, 7];
    let mut r = BitReader::new(&data);
    assert_eq!(r.read_bits(3), Some(1));
    let mut out = Vec::new();
    assert_eq!(try_stored(&mut r, &mut out), Err(PngError::StoredLengthMismatch));
}

#[test]
fn stored_too_short() {
    let data = [1u8, 3, 0, 0xfc, 0xff, b'a'];
    let mut r = BitReader::new(&data);
    assert_eq!(r.read_bits(3), Some(1));
    let mut out = Vec::new();
    assert_eq!(try_stored(&mut r, &mut out), Err(PngError::UnexpectedEnd));
}

#[test]
fn stored_copies_bytes() {
    let data = [1u8, 2, 0, 0xfd, 0xff, 9, 8, 7];
    let mut r = BitReader::new(&data);
    assert_eq!(r.read_bits(3), Some(1));
    let mut out = vec![5];
    assert_eq!(try_stored(&mut r, &mut out), Ok(()));
    assert_eq!(out, vec![5, 9, 8]);
    assert_eq!(r.read_bits(8), Some(7));
}

#[test]
fn fixed_long_match_overlaps() {
    let mut w = BitWriter::new();
    w.fixed_lit(b'x' as u32);
    w.fixed_lit(b'y' as u32);
    // length symbol 265 is 11 or 12 (one extra bit); distance symbol 1 is 2
    w.fixed_lit(265);
    w.value(1, 1);
    w.code(1, 5);
    w.fixed_lit(256);
    let mut r = BitReader::new(&w.bytes);
    let mut out = Vec::new();
    assert_eq!(try_fixed(&mut r, &mut out), Ok(()));
    assert_eq!(out, b"xyxyxyxyxyxyxy");
}

#[test]
fn fixed_invalid_length_symbol() {
    let mut w = BitWriter::new();
    w.fixed_lit(286);
    let mut r = BitReader::new(&w.bytes);
    let mut out = Vec::new();
    assert_eq!(try_fixed(&mut r, &mut out), Err(PngError::InvalidLengthSymbol));
}

#[test]
fn fixed_invalid_distance_symbol() {
    let mut w = BitWriter::new();
    w.fixed_lit(b'a' as u32);
    w.fixed_lit(257);
    w.code(30, 5);
    // the fixed distance code has no 5-bit code 30: the decoder reads on to 15 bits
    w.value(0, 16);
    let mut r = BitReader::new(&w.bytes);
    let mut out = Vec::new();
    assert_eq!(try_fixed(&mut r, &mut out), Err(PngError::InvalidDistanceSymbol));
}

#[test]
fn fixed_distance_too_far() {
    let mut w = BitWriter::new();
    w.fixed_lit(b'a' as u32);
    w.fixed_lit(257);
    w.code(1, 5);
    w.fixed_lit(256);
    let mut r = BitReader::new(&w.bytes);
    let mut out = Vec::new();
    assert_eq!(try_fixed(&mut r, &mut out), Err(PngError::DistanceTooFar));
}

#[test]
fn fixed_unexpected_end() {
    let mut w = BitWriter::new();
    w.fixed_lit(b'a' as u32);
    let mut r = BitReader::new(&w.bytes);
    let mut out = Vec::new();
    assert_eq!(try_fixed(&mut r, &mut out), Err(PngError::UnexpectedEnd));
}

/// A dynamic block header whose code length code gives length 1 to the two symbols `a < b`
/// among the first `ncode` of the code length order (16, 17, 18, 0, 8, ...).
fn dynamic_header(w: &mut BitWriter, hlit: u32, hdist: u32, ncode: u32, ones: &[usize]) {
    w.value(hlit, 5);
    w.value(hdist, 5);
    w.value(ncode - 4, 4);
    for i in 0..ncode as usize {
        w.value(if ones.contains(&i) { 1 } else { 0 }, 3);
    }
}

#[test]
fn dynamic_repeat_without_previous() {
    let mut w = BitWriter::new();
    // symbols 16 and 17 get codes 0 and 1
    dynamic_header(&mut w, 0, 0, 4, &[0, 1]);
    w.code(0, 1);
    let mut r = BitReader::new(&w.bytes);
    let mut out = Vec::new();
    assert_eq!(try_dynamic(&mut r, &mut out), Err(PngError::RepeatWithoutPrevious));
}

#[test]
fn dynamic_too_many_code_lengths() {
    let mut w = BitWriter::new();
    // symbols 0 and 18 get codes 0 and 1
    dynamic_header(&mut w, 31, 31, 4, &[2, 3]);
    for _ in 0..3 {
        w.code(1, 1);
        w.value(127, 7);
    }
    let mut r = BitReader::new(&w.bytes);
    let mut out = Vec::new();
    assert_eq!(try_dynamic(&mut r, &mut out), Err(PngError::TooManyCodeLengths));
}

#[test]
fn dynamic_too_many_codes() {
    let mut w = BitWriter::new();
    // symbols 8 and 16 get codes 0 and 1
    dynamic_header(&mut w, 31, 0, 5, &[0, 4]);
    w.code(0, 1);
    for _ in 0..48 {
        w.code(1, 1);
        w.value(3, 2);
    }
    let mut r = BitReader::new(&w.bytes);
    let mut out = Vec::new();
    assert_eq!(try_dynamic(&mut r, &mut out), Err(PngError::TooManyCodes));
}

#[test]
fn dynamic_unexpected_end() {
    let mut w = BitWriter::new();
    w.value(0, 5);
    let mut r = BitReader::new(&w.bytes);
    let mut out = Vec::new();
    assert_eq!(try_dynamic(&mut r, &mut out), Err(PngError::UnexpectedEnd));
}

#[test]
fn accepted_zlib_headers_are_multiples_of_31() {
    for stream in [HELLO, STORED, DYN_ZLIB] {
        let mut out = Vec::new();
        assert!(try_zlib(stream, &mut out).is_ok());
        assert_eq!((stream[0] as u32 * 256 + stream[1] as u32) % 31, 0);
    }
}

#[test]
fn zlib_on_valid_stream() {
    let mut out = b"ab".to_vec();
    let info = zlib(DYN_ZLIB, &mut out);
    assert_eq!(&out[..2], b"ab");
    assert_eq!(&out[2..], DYN_DATA);
    assert_eq!(info.block_types, vec![2]);
    assert_eq!(info.compression_level, 3);
    assert_eq!(info.check, 0x4C05_0BF9);
}

#[test]
fn inflate_on_valid_stream() {
    let stream = [1u8, 3, 0, 0xfc, 0xff, b'a', b'b', b'c'];
    let mut out = Vec::new();
    assert_eq!(inflate(&stream, &mut out), vec![0]);
    assert_eq!(out, b"abc");
}

#[test]
fn block_decoders_on_valid_blocks() {
    let data = [1u8, 2, 0, 0xfd, 0xff, 9, 8, 7];
    let mut r = BitReader::new(&data);
    assert_eq!(r.read_bits(3), Some(1));
    let mut out = vec![5];
    stored(&mut r, &mut out);
    assert_eq!(out, vec![5, 9, 8]);

    let mut r = BitReader::new(&HELLO[2..]);
    assert_eq!(r.read_bits(3), Some(3));
    let mut out = Vec::new();
    fixed(&mut r, &mut out);
    assert_eq!(out, b"hello");

    let mut r = BitReader::new(&DYN_ZLIB[2..]);
    assert_eq!(r.read_bits(3), Some(5));
    let mut out = Vec::new();
    dynamic(&mut r, &mut out);
    assert_eq!(out, DYN_DATA);
}
