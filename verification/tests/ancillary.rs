use lib::ancillary::{
    parse_actl, parse_chrm, parse_fctl, parse_fdat_sequence, parse_gama, parse_itxt, parse_phys,
    parse_srgb, parse_text,
};
use lib::chunk::Chunk;
use lib::error::PngError;

fn chunk<'a>(t: &[u8; 4], data: &'a [u8]) -> Chunk<'a> {
    Chunk { length: data.len() as u32, chunk_type: *t, data, crc: 0 }
}

#[test]
fn text_keyword_and_string() {
    let t = parse_text(b"Title\0Hi").unwrap();
    assert_eq!(t.keyword, "Title");
    assert_eq!(t.text_string, "Hi");
}

#[test]
fn text_splits_at_first_null() {
    let t = parse_text(b"a\0b\0c").unwrap();
    assert_eq!(t.keyword, "a");
    assert_eq!(t.text_string, "b\0c");
}

#[test]
fn text_empty_fields() {
    let t = parse_text(b"\0").unwrap();
    assert_eq!(t.keyword, "");
    assert_eq!(t.text_string, "");
}

#[test]
fn text_without_null() {
    assert_eq!(parse_text(b"Title").err(), Some(PngError::MissingNullSeparator));
}

#[test]
fn text_invalid_utf8() {
    assert_eq!(parse_text(b"\xff\0x").err(), Some(PngError::InvalidUtf8));
    assert_eq!(parse_text(b"x\0\xff").err(), Some(PngError::InvalidUtf8));
}

#[test]
fn itxt_fields() {
    let c = parse_itxt(b"Author\x00\x01\x00en\x00Autor\x00Jos\xc3\xa9").unwrap();
    assert_eq!(c.keyword, "Author");
    assert_eq!(c.compression_flag, 1);
    assert_eq!(c.compression_method, 0);
    assert_eq!(c.language_tag, "en");
    assert_eq!(c.translated_keyword, "Autor");
    assert_eq!(c.text, "José");
}

#[test]
fn itxt_errors() {
    assert_eq!(parse_itxt(b"Author").err(), Some(PngError::MissingNullSeparator));
    assert_eq!(parse_itxt(b"Author\0\0").err(), Some(PngError::TruncatedText));
    assert_eq!(parse_itxt(b"Author\0\0\0en").err(), Some(PngError::MissingNullSeparator));
    assert_eq!(parse_itxt(b"Author\0\0\0en\0Autor").err(), Some(PngError::MissingNullSeparator));
    assert_eq!(parse_itxt(b"Author\0\0\0\xff\0\0").err(), Some(PngError::InvalidUtf8));
    assert_eq!(parse_itxt(b"Author\0\0\0\0\0\xff").err(), Some(PngError::InvalidUtf8));
}

#[test]
fn phys_fields() {
    let data = [0, 0, 0x0b, 0x13, 0, 0, 0x0b, 0x12, 1];
    let p = parse_phys(&chunk(b"pHYs", &data)).unwrap();
    assert_eq!(p.pixels_per_unit_x_axis, 2835);
    assert_eq!(p.pixels_per_unit_y_axis, 2834);
    assert_eq!(p.unit_specifier, 1);
}

#[test]
fn phys_wrong_length() {
    assert_eq!(parse_phys(&chunk(b"pHYs", &[0; 8])).err(), Some(PngError::WrongChunkLength));
}

#[test]
fn phys_data_shorter_than_length() {
    let c = Chunk { length: 9, chunk_type: *b"pHYs", data: &[0; 4], crc: 0 };
    assert_eq!(parse_phys(&c).err(), Some(PngError::ChunkDataLength));
}

#[test]
fn srgb_intent() {
    assert_eq!(parse_srgb(&chunk(b"sRGB", &[2])), Ok(2));
    assert_eq!(parse_srgb(&chunk(b"sRGB", &[2, 3])), Err(PngError::WrongChunkLength));
}

#[test]
fn chrm_fields() {
    let mut data = Vec::new();
    for v in [31270u32, 32900, 64000, 33000, 30000, 60000, 15000, 6000] {
        data.extend_from_slice(&v.to_be_bytes());
    }
    let c = parse_chrm(&chunk(b"cHRM", &data)).unwrap();
    assert_eq!(c.white_point_x, 31270);
    assert_eq!(c.white_point_y, 32900);
    assert_eq!(c.red_x, 64000);
    assert_eq!(c.red_y, 33000);
    assert_eq!(c.green_x, 30000);
    assert_eq!(c.green_y, 60000);
    assert_eq!(c.blue_x, 15000);
    assert_eq!(c.blue_y, 6000);
    assert_eq!(parse_chrm(&chunk(b"cHRM", &data[..28])).err(), Some(PngError::WrongChunkLength));
}

#[test]
fn gama_value() {
    assert_eq!(parse_gama(&chunk(b"gAMA", &45455u32.to_be_bytes())), Ok(45455));
    assert_eq!(parse_gama(&chunk(b"gAMA", &[0, 1])), Err(PngError::WrongChunkLength));
    let c = Chunk { length: 4, chunk_type: *b"gAMA", data: &[0, 1], crc: 0 };
    assert_eq!(parse_gama(&c), Err(PngError::ChunkDataLength));
}

#[test]
fn actl_fields() {
    let a = parse_actl(&chunk(b"acTL", &[0, 0, 0, 3, 0, 0, 0, 0])).unwrap();
    assert_eq!(a.num_frames, 3);
    assert_eq!(a.num_plays, 0);
    assert_eq!(parse_actl(&chunk(b"acTL", &[0; 9])).err(), Some(PngError::WrongChunkLength));
    let c = Chunk { length: 8, chunk_type: *b"acTL", data: &[0; 9], crc: 0 };
    assert_eq!(parse_actl(&c).err(), Some(PngError::ChunkDataLength));
}

#[test]
fn fctl_fields() {
    let mut data = Vec::new();
    for v in [1u32, 100, 50, 10, 20] {
        data.extend_from_slice(&v.to_be_bytes());
    }
    data.extend_from_slice(&7u16.to_be_bytes());
    data.extend_from_slice(&0u16.to_be_bytes());
    data.extend_from_slice(&[1, 0]);
    let f = parse_fctl(&chunk(b"fcTL", &data)).unwrap();
    assert_eq!(f.sequence_number, 1);
    assert_eq!(f.width, 100);
    assert_eq!(f.height, 50);
    assert_eq!(f.x_offset, 10);
    assert_eq!(f.y_offset, 20);
    assert_eq!(f.delay_num, 7);
    assert_eq!(f.delay_den, 0);
    assert_eq!(f.dispose_op, 1);
    assert_eq!(f.blend_op, 0);
    assert_eq!(parse_fctl(&chunk(b"fcTL", &data[..25])).err(), Some(PngError::WrongChunkLength));
}

#[test]
fn fdat_sequence_number() {
    assert_eq!(parse_fdat_sequence(&chunk(b"fdAT", &[0, 0, 1, 2, 9, 9])), Ok(258));
    assert_eq!(parse_fdat_sequence(&chunk(b"fdAT", &[0, 0, 1])), Err(PngError::ChunkDataLength));
}
