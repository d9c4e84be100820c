use lib::chunk::{
    check_chunk_count, check_chunk_ordering, error_checking, read_chunk, try_check_chunk_count,
    try_check_chunk_ordering, try_error_checking, try_read_chunk, Chunk, PNG_SIGNATURE,
};
use lib::crc::crc32;
use lib::error::PngError;
use lib::header::{CompressionMethod, FilterMethod, ImageType, InterlaceMethod};
use lib::image::{choose_filter, gamma_handling, parse_chunk, try_parse_chunk};

/// A 3x5 truecolour image, 8 bits per channel, whose rows use the filter types 0 to 4 in turn;
/// a tEXt chunk and two IDAT chunks that split one zlib stream.
const TINY: &[u8] = &[137, 80, 78, 71, 13, 10, 26, 10, 0, 0, 0, 13, 73, 72, 68, 82, 0, 0, 0, 3, 0, 0, 0, 5, 8, 2, 0, 0, 0, 15, 19, 193, 245, 0, 0, 0, 8, 116, 69, 88, 116, 84, 105, 116, 108, 101, 0, 72, 105, 255, 15, 167, 125, 0, 0, 0, 10, 73, 68, 65, 84, 120, 218, 1, 50, 0, 205, 255, 0, 165, 77, 163, 189, 58, 70, 0, 0, 0, 51, 73, 68, 65, 84, 202, 24, 37, 48, 187, 29, 109, 1, 19, 44, 222, 195, 247, 157, 88, 182, 163, 2, 44, 70, 65, 245, 246, 246, 233, 107, 118, 3, 183, 16, 45, 205, 43, 222, 6, 110, 205, 4, 74, 213, 45, 222, 188, 55, 81, 14, 25, 34, 94, 21, 156, 184, 156, 157, 22, 0, 0, 0, 0, 73, 69, 78, 68, 174, 66, 96, 130];

/// The rows of `TINY` with their filters undone, each led by its filter type byte.
const TINY_ROWS: &[u8] = &[0, 165, 77, 202, 24, 37, 48, 187, 29, 109, 1, 19, 44, 222, 214, 35, 123, 46, 217, 30, 2, 63, 114, 31, 203, 25, 113, 23, 68, 148, 3, 214, 73, 60, 157, 92, 52, 96, 190, 49, 4, 32, 30, 105, 254, 218, 160, 238, 232, 185];

/// The zlib stream of one stored block holding `raw`.
fn zlib_stored(raw: &[u8]) -> Vec<u8> {
    let mut z = vec![0x78, 0x01, 0x01];
    let n = raw.len() as u16;
    z.extend_from_slice(&n.to_le_bytes());
    z.extend_from_slice(&(!n).to_le_bytes());
    z.extend_from_slice(raw);
    z.extend_from_slice(&lib::adler::adler32(raw).to_be_bytes());
    z
}

/// One chunk in its stream layout, with a correct CRC.
fn chunk_bytes(t: &[u8; 4], data: &[u8]) -> Vec<u8> {
    let mut out = (data.len() as u32).to_be_bytes().to_vec();
    out.extend_from_slice(t);
    out.extend_from_slice(data);
    let mut covered = t.to_vec();
    covered.extend_from_slice(data);
    out.extend_from_slice(&crc32(&covered).to_be_bytes());
    out
}

fn ihdr(width: u32, height: u32, depth: u8, color: u8) -> Vec<u8> {
    let mut d = width.to_be_bytes().to_vec();
    d.extend_from_slice(&height.to_be_bytes());
    d.extend_from_slice(&[depth, color, 0, 0, 0]);
    d
}

/// A stream of chunks (without the signature) for a greyscale image of the given rows.
fn grey_stream(height: u32, raw: &[u8]) -> Vec<u8> {
    let mut s = chunk_bytes(b"IHDR", &ihdr(1, height, 8, 0));
    s.extend(chunk_bytes(b"IDAT", &zlib_stored(raw)));
    s.extend(chunk_bytes(b"IEND", &[]));
    s
}

fn chunk<'a>(t: &[u8; 4], data: &'a [u8]) -> Chunk<'a> {
    Chunk { length: data.len() as u32, chunk_type: *t, data, crc: 0 }
}

#[test]
fn signature_is_png() {
    assert_eq!(&TINY[..8], &PNG_SIGNATURE);
}

#[test]
fn tiny_chunks() {
    let chunks = try_read_chunk(&TINY[8..]).unwrap();
    let types: Vec<[u8; 4]> = chunks.iter().map(|c| c.chunk_type).collect();
    assert_eq!(types, vec![*b"IHDR", *b"tEXt", *b"IDAT", *b"IDAT", *b"IEND"]);
    assert_eq!(chunks[0].length, 13);
    assert_eq!(chunks[1].data, b"Title\0Hi");
    assert_eq!(chunks[2].length, 10);
    assert_eq!(chunks[3].length, 51);
    assert_eq!(chunks[4].length, 0);
    assert!(chunks.iter().all(|c| c.verify_crc()));
    assert_eq!(chunks[4].crc, 0xAE42_6082);
}

#[test]
fn tiny_decodes() {
    let chunks = try_read_chunk(&TINY[8..]).unwrap();
    let info = try_parse_chunk(&chunks).unwrap();
    assert_eq!(info.header.width, 3);
    assert_eq!(info.header.height, 5);
    assert_eq!(info.header.bit_width, 8);
    assert_eq!(info.header.color_type, 2);
    assert_eq!(info.image_type, ImageType::Truecolor);
    assert_eq!(info.compression, CompressionMethod::Deflate);
    assert_eq!(info.filter, FilterMethod::Zero);
    assert_eq!(info.interlace, InterlaceMethod::NotInterlaced);
    assert_eq!(info.zlib.block_types, vec![0]);
    assert_eq!(info.zlib.check, 0x225E_159C);
    assert_eq!(info.zlib.compression_level, 3);
    assert!(!info.zlib.preset_dictionary);
    assert_eq!(info.scanlines, TINY_ROWS);
}

#[test]
fn read_chunk_of_nothing() {
    assert_eq!(try_read_chunk(&[]).unwrap().len(), 0);
}

#[test]
fn read_chunk_truncated_header() {
    assert_eq!(try_read_chunk(&TINY[8..14]).err(), Some(PngError::TruncatedChunk));
}

#[test]
fn read_chunk_truncated_data() {
    assert_eq!(try_read_chunk(&TINY[8..40]).err(), Some(PngError::TruncatedChunk));
}

#[test]
fn verify_crc_detects_change() {
    let mut bytes = TINY[8..].to_vec();
    bytes[12] ^= 1;
    let chunks = try_read_chunk(&bytes).unwrap();
    assert!(!chunks[0].verify_crc());
    assert!(chunks[1].verify_crc());
}

#[test]
fn chunk_type_text() {
    assert_eq!(chunk(b"IHDR", &[]).chunk_type(), "IHDR");
    assert_eq!(chunk(b"tEXt", &[]).chunk_type(), "tEXt");
    assert_eq!(chunk(&[0xff, 0xfe, 0x41, 0x42], &[]).chunk_type(), "<invalid>");
}

#[test]
fn chunk_properties_critical_public() {
    let c = chunk(b"IHDR", &[]);
    assert!(c.is_critical());
    assert!(!c.is_ancillary());
    assert!(!c.is_private());
    assert!(!c.not_conform());
    assert!(!c.safe_to_copy());
    assert!(c.is_public());
    assert!(!c.is_private());
    assert!(c.is_conform());
    assert!(!c.not_conform());
    assert!(c.unsafe_to_copy());
    assert!(!c.safe_to_copy());
}

#[test]
fn chunk_properties_ancillary_private() {
    let c = chunk(b"prVt", &[]);
    assert!(!c.is_critical());
    assert!(c.is_ancillary());
    assert!(!c.is_public());
    assert!(c.is_private());
    assert!(c.is_conform());
    assert!(!c.not_conform());
    assert!(!c.unsafe_to_copy());
    assert!(c.safe_to_copy());
    let d = chunk(b"IDat", &[]);
    assert!(d.is_critical());
    assert!(!d.is_conform());
    assert!(d.not_conform());
    assert!(!d.unsafe_to_copy());
}

#[test]
fn property_text() {
    assert_eq!(
        chunk(b"IHDR", &[]).property(),
        "property: Ancillary(false) Private(false) Reserved(false) Safe-to-copy(false)"
    );
    assert_eq!(
        chunk(b"tEXt", &[]).property(),
        "property: Ancillary(true) Private(false) Reserved(false) Safe-to-copy(true)"
    );
    assert_eq!(
        chunk(b"IDat", &[]).property(),
        "property: Ancillary(false) Private(false) Reserved(true) Safe-to-copy(true)"
    );
}

#[test]
fn error_checking_letters() {
    assert_eq!(try_error_checking(chunk(b"IHDR", &[])), Ok(()));
    assert_eq!(try_error_checking(chunk(b"tEXt", &[])), Ok(()));
    assert_eq!(try_error_checking(chunk(b"IH1R", &[])), Err(PngError::InvalidChunkTypeByte));
    assert_eq!(try_error_checking(chunk(b"IH[R", &[])), Err(PngError::InvalidChunkTypeByte));
}

/// Chunks with no data, of the given types in order.
fn of_types(types: &[&[u8; 4]]) -> Vec<Chunk<'static>> {
    types.iter().map(|t| chunk(t, &[])).collect()
}

#[test]
fn chunk_count_errors() {
    let (h, p, d, e) = (b"IHDR", b"PLTE", b"IDAT", b"IEND");
    assert_eq!(try_check_chunk_count(&of_types(&[h, d, e])), Ok(()));
    assert_eq!(try_check_chunk_count(&of_types(&[d, e])), Err(PngError::IhdrCount));
    assert_eq!(try_check_chunk_count(&of_types(&[h, h, d, e])), Err(PngError::IhdrCount));
    assert_eq!(try_check_chunk_count(&of_types(&[h, p, p, d, e])), Err(PngError::PlteCount));
    assert_eq!(try_check_chunk_count(&of_types(&[h, e])), Err(PngError::NoIdat));
    assert_eq!(try_check_chunk_count(&of_types(&[h, d])), Err(PngError::IendCount));
    assert_eq!(try_check_chunk_count(&of_types(&[h, d, e, e])), Err(PngError::IendCount));
}

#[test]
fn chunk_ordering_errors() {
    let (h, t, pl, d, e) = (b"IHDR", b"tEXt", b"PLTE", b"IDAT", b"IEND");
    assert_eq!(try_check_chunk_ordering(&of_types(&[h, d, d, e])), Ok(()));
    assert_eq!(try_check_chunk_ordering(&of_types(&[h, pl, d, e])), Ok(()));
    assert_eq!(try_check_chunk_ordering(&of_types(&[h, d, t, d, e])), Err(PngError::IdatNotConsecutive));
    assert_eq!(try_check_chunk_ordering(&of_types(&[h, pl, e])), Err(PngError::PlteWithoutIdat));
    assert_eq!(try_check_chunk_ordering(&of_types(&[h, d, pl, e])), Err(PngError::PlteAfterIdat));
    assert_eq!(try_check_chunk_ordering(&of_types(&[t, h, d, e])), Err(PngError::IhdrNotFirst));
    assert_eq!(try_check_chunk_ordering(&of_types(&[h, d, e, t])), Err(PngError::IendNotLast));
}

#[test]
fn palette_after_image_data_is_refused() {
    let (h, p, d, e) = (b"IHDR", b"PLTE", b"IDAT", b"IEND");
    assert_eq!(try_check_chunk_ordering(&of_types(&[h, d, p, e])), Err(PngError::PlteAfterIdat));
    assert_eq!(try_check_chunk_ordering(&of_types(&[h, p, d, d, e])), Ok(()));
}

#[test]
fn grey_image_decodes() {
    let raw = [1, 10, 2, 5, 0, 7];
    let s = grey_stream(3, &raw);
    let chunks = try_read_chunk(&s).unwrap();
    let info = try_parse_chunk(&chunks).unwrap();
    assert_eq!(info.image_type, ImageType::Greyscale);
    assert_eq!(info.scanlines, vec![1, 10, 2, 15, 0, 7]);
    assert_eq!(info.zlib.block_types, vec![0]);
}

fn parse_err(stream: &[u8]) -> Option<PngError> {
    let chunks = try_read_chunk(stream).unwrap();
    try_parse_chunk(&chunks).err()
}

fn stream_with_ihdr(h: &[u8], raw: &[u8]) -> Vec<u8> {
    let mut s = chunk_bytes(b"IHDR", h);
    s.extend(chunk_bytes(b"IDAT", &zlib_stored(raw)));
    s.extend(chunk_bytes(b"IEND", &[]));
    s
}

#[test]
fn parse_missing_iend() {
    let mut s = chunk_bytes(b"IHDR", &ihdr(1, 1, 8, 0));
    s.extend(chunk_bytes(b"IDAT", &zlib_stored(&[0, 0])));
    assert_eq!(parse_err(&s), Some(PngError::IendCount));
}

#[test]
fn parse_ihdr_too_short() {
    assert_eq!(parse_err(&stream_with_ihdr(&[0, 0, 0, 1], &[0, 0])), Some(PngError::IhdrTooShort));
}

#[test]
fn parse_invalid_color_type() {
    assert_eq!(parse_err(&stream_with_ihdr(&ihdr(1, 1, 8, 5), &[0, 0])), Some(PngError::InvalidColorType));
}

#[test]
fn parse_invalid_methods() {
    let mut h = ihdr(1, 1, 8, 0);
    h[10] = 1;
    assert_eq!(parse_err(&stream_with_ihdr(&h, &[0, 0])), Some(PngError::InvalidCompressionMethod));
    let mut h = ihdr(1, 1, 8, 0);
    h[11] = 1;
    assert_eq!(parse_err(&stream_with_ihdr(&h, &[0, 0])), Some(PngError::InvalidFilterMethod));
    let mut h = ihdr(1, 1, 8, 0);
    h[12] = 2;
    assert_eq!(parse_err(&stream_with_ihdr(&h, &[0, 0])), Some(PngError::InvalidInterlaceMethod));
}

#[test]
fn parse_adam7_header() {
    let mut h = ihdr(1, 1, 8, 0);
    h[12] = 1;
    let s = stream_with_ihdr(&h, &[0, 9]);
    let chunks = try_read_chunk(&s).unwrap();
    let info = try_parse_chunk(&chunks).unwrap();
    assert_eq!(info.interlace, InterlaceMethod::Adam7);
    assert_eq!(info.scanlines, vec![0, 9]);
}

#[test]
fn parse_palette_length() {
    let mut s = chunk_bytes(b"IHDR", &ihdr(1, 1, 8, 3));
    s.extend(chunk_bytes(b"PLTE", &[1, 2, 3, 4]));
    s.extend(chunk_bytes(b"IDAT", &zlib_stored(&[0, 0])));
    s.extend(chunk_bytes(b"IEND", &[]));
    assert_eq!(parse_err(&s), Some(PngError::PaletteLength));
}

#[test]
fn parse_palette_ok() {
    let mut s = chunk_bytes(b"IHDR", &ihdr(1, 1, 8, 3));
    s.extend(chunk_bytes(b"PLTE", &[1, 2, 3]));
    s.extend(chunk_bytes(b"IDAT", &zlib_stored(&[0, 0])));
    s.extend(chunk_bytes(b"IEND", &[]));
    let chunks = try_read_chunk(&s).unwrap();
    let info = try_parse_chunk(&chunks).unwrap();
    assert_eq!(info.image_type, ImageType::IndexedColor);
}

#[test]
fn parse_zero_height() {
    assert_eq!(parse_err(&grey_stream(0, &[0, 0])), Some(PngError::ZeroHeight));
}

#[test]
fn parse_empty_scanline() {
    assert_eq!(parse_err(&grey_stream(3, &[0, 0])), Some(PngError::EmptyScanline));
}

#[test]
fn parse_invalid_filter_type() {
    assert_eq!(parse_err(&grey_stream(2, &[0, 1, 5, 1])), Some(PngError::InvalidFilterType));
}

#[test]
fn parse_bad_zlib() {
    let mut s = chunk_bytes(b"IHDR", &ihdr(1, 1, 8, 0));
    s.extend(chunk_bytes(b"IDAT", &[0x78, 0x01]));
    s.extend(chunk_bytes(b"IEND", &[]));
    assert_eq!(parse_err(&s), Some(PngError::ZlibTooShort));
}

#[test]
fn encoder_helpers_do_nothing_visible() {
    gamma_handling();
    choose_filter(&[1, 200, 3], &[0, 0, 0], 8);
}

#[test]
fn read_chunk_gives_back_written_chunks() {
    let mut s = chunk_bytes(b"IHDR", &ihdr(7, 9, 16, 6));
    s.extend(chunk_bytes(b"zzZz", &[1, 2, 3, 0, 255]));
    s.extend(chunk_bytes(b"IEND", &[]));
    let chunks = try_read_chunk(&s).unwrap();
    assert_eq!(chunks.len(), 3);
    assert_eq!(chunks[0].chunk_type, *b"IHDR");
    assert_eq!(chunks[0].data, &ihdr(7, 9, 16, 6)[..]);
    assert_eq!(chunks[1].chunk_type, *b"zzZz");
    assert_eq!(chunks[1].length, 5);
    assert_eq!(chunks[1].data, &[1, 2, 3, 0, 255]);
    assert_eq!(chunks[2].chunk_type, *b"IEND");
    assert!(chunks.iter().all(|c| c.verify_crc()));
}

#[test]
fn unfiltered_rows_keep_filter_bytes_and_length() {
    let raw = [4, 9, 3, 1, 1, 2, 0, 0, 2, 2, 5, 5];
    let s = grey_stream(4, &raw);
    let chunks = try_read_chunk(&s).unwrap();
    let info = try_parse_chunk(&chunks).unwrap();
    assert_eq!(info.scanlines.len(), raw.len());
    for k in 0..4 {
        assert_eq!(info.scanlines[3 * k], raw[3 * k]);
    }
}

#[test]
fn well_formed_stream_decodes_through_checking_free_calls() {
    let chunks = read_chunk(&TINY[8..]);
    assert_eq!(chunks.len(), 5);
    for c in &chunks {
        error_checking(Chunk { length: c.length, chunk_type: c.chunk_type, data: c.data, crc: c.crc });
    }
    check_chunk_count(&chunks);
    check_chunk_ordering(&chunks);
    let info = parse_chunk(&chunks);
    assert_eq!(info.header.width, 3);
    assert_eq!(info.header.height, 5);
    assert_eq!(info.zlib.block_types, vec![0]);
    assert_eq!(info.scanlines, TINY_ROWS);
    assert_eq!(read_chunk(&[]).len(), 0);
}
