use lib::flac::bits::BitReader;
use lib::flac::error::FlacError;
use lib::flac::frame::{decode_frame, read_frame, try_read_frame};
use lib::flac::header::{crc16, crc8, decode_number, try_decode_number, Channel, FrameHeader};
use lib::flac::metadata::{
    parse_application_id, parse_block, parse_picture, parse_streaminfo, parse_vorbis_comment,
    read_block, try_parse_block, try_read_block, BlockContent, MetadataBlockType, PictureType,
    SIGNATURE,
};
use lib::flac::subframe::{
    fixed_restore, lpc_restore, read_residual, read_subframe, read_subframe_constant,
    read_subframe_fixed, read_subframe_lpc, read_subframe_verbatim, try_read_subframe,
    SubframeType,
};

/// A frame of 16 samples at 44.1 kHz, 16 bits, two independent channels: a fixed predictor of
/// order 2 with Rice-coded residuals, then a constant subframe.
const FRAME1: &[u8] = &[255, 248, 105, 24, 0, 15, 146, 20, 0, 100, 0, 120, 0, 210, 96, 210, 90, 74, 139, 131, 21, 14, 96, 7, 255, 200, 251, 20];
const SAMPLES1: [i32; 16] = [100, 120, 135, 160, 170, 171, 165, 150, 140, 120, 100, 90, 85, 80, 82, 90];

/// A frame of 8 samples taking its rate and depth from STREAMINFO, left/side coded: a linear
/// predictor of order 2 whose residual has a Rice partition and an escaped one, then a
/// verbatim side channel.
const FRAME2: &[u8] = &[255, 248, 96, 128, 1, 7, 225, 66, 10, 251, 65, 15, 232, 136, 16, 159, 54, 132, 126, 16, 16, 4, 5, 253, 2, 126, 192, 223, 144, 64, 248, 68];
const LEFT2: [i32; 8] = [10, -5, 3, 7, -8, 0, 1, 2];
const SIDE2: [i32; 8] = [1, 2, -3, 4, -5, 6, -7, 8];

/// STREAMINFO, VORBIS_COMMENT, PICTURE, APPLICATION and a last PADDING block.
const META: &[u8] = &[0, 0, 0, 34, 16, 0, 16, 0, 0, 0, 14, 10, 11, 12, 5, 98, 34, 113, 35, 69, 103, 137, 0, 1, 2, 3, 4, 5, 6, 7, 8, 9, 10, 11, 12, 13, 14, 15, 4, 0, 0, 45, 7, 0, 0, 0, 114, 101, 102, 32, 49, 46, 52, 2, 0, 0, 0, 10, 0, 0, 0, 84, 73, 84, 76, 69, 61, 84, 101, 115, 116, 12, 0, 0, 0, 65, 82, 84, 73, 83, 84, 61, 74, 111, 115, 195, 169, 6, 0, 0, 49, 0, 0, 0, 3, 0, 0, 0, 9, 105, 109, 97, 103, 101, 47, 112, 110, 103, 0, 0, 0, 5, 99, 111, 118, 101, 114, 0, 0, 0, 32, 0, 0, 0, 16, 0, 0, 0, 24, 0, 0, 0, 0, 0, 0, 0, 3, 1, 2, 3, 2, 0, 0, 7, 114, 105, 102, 102, 120, 121, 122, 129, 0, 0, 3, 0, 0, 0];

fn two_frames() -> Vec<u8> {
    let mut v = FRAME1.to_vec();
    v.extend_from_slice(FRAME2);
    v
}

#[test]
fn signature_bytes() {
    assert_eq!(&SIGNATURE, b"fLaC");
}

#[test]
fn crc_check_values() {
    assert_eq!(crc8(b"123456789"), 0xF4);
    assert_eq!(crc16(b"123456789"), 0xFEE8);
    assert_eq!(crc8(b""), 0);
    assert_eq!(crc16(b""), 0);
}

#[test]
fn frame_footer_crc16_matches() {
    let n = FRAME1.len();
    assert_eq!(crc16(&FRAME1[..n - 2]), u16::from_be_bytes([FRAME1[n - 2], FRAME1[n - 1]]));
}

#[test]
fn coded_numbers() {
    assert_eq!(try_decode_number(&[0x05, 0xff]), Ok((5, 1)));
    assert_eq!(try_decode_number(&[0xC3, 0xA9]), Ok((233, 2)));
    assert_eq!(try_decode_number(&[0xE2, 0x82, 0xAC]), Ok((8364, 3)));
    assert_eq!(try_decode_number(&[0xFE, 0x82, 0x80, 0x80, 0x80, 0x80, 0x81]), Ok((2147483649, 7)));
    assert_eq!(try_decode_number(&[]), Err(FlacError::TruncatedFrame));
    assert_eq!(try_decode_number(&[0x80]), Err(FlacError::InvalidCodedNumber));
    assert_eq!(try_decode_number(&[0xFF, 0x80]), Err(FlacError::InvalidCodedNumber));
    assert_eq!(try_decode_number(&[0xE2, 0x82]), Err(FlacError::TruncatedFrame));
    assert_eq!(try_decode_number(&[0xC3, 0x29]), Err(FlacError::InvalidCodedNumber));
}

#[test]
fn bit_reader_msb_first() {
    let data = [0b1011_0010u8, 0b1111_0000];
    let mut r = BitReader::new(&data);
    assert_eq!(r.read_bits(3), 0b101);
    assert_eq!(r.position(), 3);
    assert_eq!(r.read_bits(7), 0b1_0010_11);
    assert_eq!(r.remaining(), 6);
    r.skip(2);
    assert_eq!(r.read_bits(4), 0);
}

#[test]
fn bit_reader_signed_and_unary() {
    let data = [0b1110_0001u8, 0b0100_0000];
    let mut r = BitReader::new(&data);
    assert_eq!(r.read_signed(3), Some(-1));
    assert_eq!(r.read_signed(0), Some(0));
    assert_eq!(r.try_unary(), Some(4));
    assert_eq!(r.read_signed(3), Some(2));
    assert_eq!(r.try_unary(), None);
}

#[test]
fn header_of_first_frame() {
    let h = FrameHeader::try_new(FRAME1).unwrap();
    assert_eq!(h.frame_sync_code, 0xFFF8);
    assert!(!h.blocking_strategy_bit);
    assert_eq!(h.block_size_bits, 6);
    assert_eq!(h.block_size(), 16);
    assert_eq!(h.sample_rate(0), 44_100);
    assert_eq!(h.channel(), 2);
    assert_eq!(h.channel_assignment(), Channel::Independent);
    assert_eq!(h.bit_depth(0), 16);
    assert_eq!(h.code_number, 0);
    assert_eq!(h.pos, 7);
    assert_eq!(h.crc, crc8(&FRAME1[..6]));
}

#[test]
fn header_values_from_streaminfo() {
    let h = FrameHeader::try_new(FRAME2).unwrap();
    assert_eq!(h.block_size(), 8);
    assert_eq!(h.sample_rate(22_050), 22_050);
    assert_eq!(h.bit_depth(8), 8);
    assert_eq!(h.channel_assignment(), Channel::Leftside);
    assert_eq!(h.code_number, 1);
}

#[test]
fn header_tables() {
    let mut h = FrameHeader::try_new(FRAME1).unwrap();
    for (bits, size) in [(1u8, 192u16), (2, 576), (3, 1152), (4, 2304), (5, 4608), (8, 256), (15, 32768)] {
        h.block_size_bits = bits;
        assert_eq!(h.block_size(), size);
    }
    for (bits, rate) in [(1u8, 88_200u32), (4, 8_000), (11, 96_000)] {
        h.sample_rate_bits = bits;
        assert_eq!(h.sample_rate(0), rate);
    }
    for (bits, depth) in [(1u8, 8u8), (2, 12), (4, 16), (5, 20), (6, 24), (7, 32)] {
        h.bit_depth_bits = bits;
        assert_eq!(h.bit_depth(0), depth);
    }
    for (bits, n, a) in [(7u8, 8u8, Channel::Independent), (9, 2, Channel::Sideright), (10, 2, Channel::Midside)] {
        h.channals_bits = bits;
        assert_eq!(h.channel(), n);
        assert_eq!(h.channel_assignment(), a);
    }
}

#[test]
fn header_errors() {
    assert_eq!(FrameHeader::try_new(&[0xFF]), Err(FlacError::TruncatedFrame));
    assert_eq!(FrameHeader::try_new(&[0xFF, 0xF0, 0, 0, 0, 0]), Err(FlacError::BadSyncCode));
    assert_eq!(FrameHeader::try_new(&[0xFF, 0xF8, 0x69]), Err(FlacError::TruncatedFrame));
    assert_eq!(FrameHeader::try_new(&[0xFF, 0xF8, 0x69, 0x18, 0x00]), Err(FlacError::TruncatedFrame));
    assert_eq!(FrameHeader::try_new(&[0xFF, 0xF8, 0x79, 0x18, 0x00, 0xFF, 0xFF, 0x00]), Err(FlacError::BlockSizeOverflow));
    assert_eq!(FrameHeader::try_new(&[0xFF, 0xF8, 0x09, 0x18, 0xFF, 0x00]), Err(FlacError::InvalidCodedNumber));
}

#[test]
fn variable_blocking_and_uncommon_rate() {
    // sample rate bits 13: a 16-bit rate in Hz follows the coded number
    let mut h = vec![0xFF, 0xF9, 0x1D, 0x08, 0x03, 0x1F, 0x40];
    h.push(crc8(&h));
    let fh = FrameHeader::try_new(&h).unwrap();
    assert!(fh.blocking_strategy_bit);
    assert_eq!(fh.uncommon_sample_rate, 8000);
    assert_eq!(fh.code_number, 3);
    assert_eq!(fh.pos, 8);
    assert_eq!(fh.block_size(), 192);
    assert_eq!(fh.sample_rate(0), 8000);
}

#[test]
fn uncommon_rates_in_khz_and_tens_of_hz() {
    let mut h = vec![0xFF, 0xF8, 0x1C, 0x08, 0x00, 0x30];
    h.push(crc8(&h));
    let fh = FrameHeader::try_new(&h).unwrap();
    assert_eq!(fh.uncommon_sample_rate, 48);
    assert_eq!(fh.sample_rate(0), 48_000);
    let mut h = vec![0xFF, 0xF8, 0x1E, 0x08, 0x00, 0x11, 0x3A];
    h.push(crc8(&h));
    let fh = FrameHeader::try_new(&h).unwrap();
    assert_eq!(fh.uncommon_sample_rate, 4410);
    assert_eq!(fh.sample_rate(0), 44_100);
    // sample rate bits 6 to 8 are table values: nothing follows the coded number
    let mut h = vec![0xFF, 0xF8, 0x16, 0x08, 0x00];
    h.push(crc8(&h));
    let fh = FrameHeader::try_new(&h).unwrap();
    assert_eq!(fh.pos, 6);
    assert_eq!(fh.sample_rate(0), 22_050);
}

#[test]
fn decode_first_frame() {
    let f = decode_frame(FRAME1, 0, None, None).unwrap();
    assert_eq!(f.block_size, 16);
    assert_eq!(f.sample_rate, 44_100);
    assert_eq!(f.channels, 2);
    assert_eq!(f.bit_depth, 16);
    assert_eq!(f.end, FRAME1.len());
    assert_eq!(f.subframes.len(), 2);
    assert_eq!(f.subframes[0].subframe.subframe_type, SubframeType::FixedPredictor);
    assert_eq!(f.subframes[0].subframe.order, Some(2));
    assert_eq!(f.subframes[0].samples, SAMPLES1.to_vec());
    assert_eq!(f.subframes[1].subframe.subframe_type, SubframeType::Constant);
    assert_eq!(f.subframes[1].subframe.order, None);
    assert_eq!(f.subframes[1].samples, vec![-7; 16]);
}

#[test]
fn decode_second_frame() {
    let f = decode_frame(FRAME2, 0, Some(22_050), Some(8)).unwrap();
    assert_eq!(f.block_size, 8);
    assert_eq!(f.sample_rate, 22_050);
    assert_eq!(f.bit_depth, 8);
    assert_eq!(f.assignment, Channel::Leftside);
    assert_eq!(f.subframes[0].subframe.subframe_type, SubframeType::LinearPredictor);
    assert_eq!(f.subframes[0].subframe.order, Some(2));
    assert_eq!(f.subframes[0].samples, LEFT2.to_vec());
    assert_eq!(f.subframes[1].subframe.subframe_type, SubframeType::Verbatim);
    assert_eq!(f.subframes[1].samples, SIDE2.to_vec());
    assert_eq!(f.end, FRAME2.len());
}

#[test]
fn frame_needs_streaminfo() {
    assert!(matches!(decode_frame(FRAME2, 0, None, Some(8)), Err(FlacError::MissingStreaminfo)));
    assert!(matches!(decode_frame(FRAME2, 0, Some(22_050), None), Err(FlacError::MissingStreaminfo)));
}

#[test]
fn frame_header_crc_checked() {
    let mut bad = FRAME1.to_vec();
    bad[6] ^= 1;
    assert!(matches!(decode_frame(&bad, 0, None, None), Err(FlacError::HeaderCrcMismatch)));
}

#[test]
fn frame_reserved_values() {
    let mut h = vec![0xFF, 0xF8, 0x09, 0x18, 0x00];
    h.push(crc8(&h));
    assert!(matches!(decode_frame(&h, 0, None, None), Err(FlacError::ReservedBlockSize)));
    let mut h = vec![0xFF, 0xF8, 0x1F, 0x18, 0x00];
    h.push(crc8(&h));
    assert!(matches!(decode_frame(&h, 0, None, None), Err(FlacError::ForbiddenSampleRate)));
    let mut h = vec![0xFF, 0xF8, 0x19, 0xB8, 0x00];
    h.push(crc8(&h));
    assert!(matches!(decode_frame(&h, 0, None, None), Err(FlacError::ReservedChannels)));
    let mut h = vec![0xFF, 0xF8, 0x19, 0x16, 0x00];
    h.push(crc8(&h));
    assert!(matches!(decode_frame(&h, 0, None, None), Err(FlacError::ReservedBitDepth)));
}

#[test]
fn truncated_frame_data() {
    assert!(matches!(decode_frame(&FRAME1[..12], 0, None, None), Err(FlacError::UnexpectedEnd)));
    assert!(matches!(decode_frame(&FRAME1[..FRAME1.len() - 1], 0, None, None), Err(FlacError::TruncatedFrame)));
}

#[test]
fn read_two_frames() {
    let data = two_frames();
    let frames = try_read_frame(&data, Some(22_050), Some(8)).unwrap();
    assert_eq!(frames.len(), 2);
    assert_eq!(frames[0].end, FRAME1.len());
    assert_eq!(frames[1].end, data.len());
    assert_eq!(frames[1].subframes[0].samples, LEFT2.to_vec());
    assert_eq!(try_read_frame(&[], None, None).unwrap().len(), 0);
}

#[test]
fn subframe_errors() {
    let data = [0x80u8, 0, 0, 0];
    let mut r = BitReader::new(&data);
    assert!(matches!(try_read_subframe(&mut r, 16, 4), Err(FlacError::SubframePadding)));
    let data = [0b0000_0100u8, 0, 0, 0];
    let mut r = BitReader::new(&data);
    assert!(matches!(try_read_subframe(&mut r, 16, 4), Err(FlacError::ReservedSubframeType)));
    // wasted bits: k = 3 (two zero bits, then a one) is more than the 2 bits per sample
    let data = [0b0000_0011u8, 0b0010_0000, 0, 0];
    let mut r = BitReader::new(&data);
    assert!(matches!(try_read_subframe(&mut r, 2, 4), Err(FlacError::WastedBits)));
}

#[test]
fn subframe_with_wasted_bits_flag() {
    // constant subframe, wasted flag set, then k - 1 = 1 in unary ("01"): the constant is
    // stored with 16 - 2 = 14 bits (-11) and shifted up by 2 bits
    let data = [0b0000_0001u8, 0b0111_1111, 0b1111_0101];
    let mut r = BitReader::new(&data);
    let (sub, samples) = try_read_subframe(&mut r, 16, 3).unwrap();
    assert_eq!(sub.subframe_type, SubframeType::Constant);
    assert_eq!(samples, vec![-44, -44, -44]);
    assert_eq!(r.position(), 24);
    // k equal to the precision leaves no sample bits
    let data = [0b0000_0001u8, 0b0001_0000];
    let mut r = BitReader::new(&data);
    let (_, samples) = try_read_subframe(&mut r, 4, 2).unwrap();
    assert_eq!(samples, vec![0, 0]);
    assert_eq!(r.position(), 12);
}

#[test]
fn restore_fixed_orders() {
    let mut s = [5, 1, 1, 1];
    fixed_restore(&mut s, 1);
    assert_eq!(s, [5, 6, 7, 8]);
    let mut s = [1, 2, 0, 0, 1];
    fixed_restore(&mut s, 2);
    assert_eq!(s, [1, 2, 3, 4, 6]);
    let mut s = [0, 1, 4, 0, 0];
    fixed_restore(&mut s, 3);
    assert_eq!(s, [0, 1, 4, 9, 16]);
    let mut s = [0, 1, 8, 27, 0];
    fixed_restore(&mut s, 4);
    assert_eq!(s, [0, 1, 8, 27, 64]);
    let mut s = [3, -4];
    fixed_restore(&mut s, 0);
    assert_eq!(s, [3, -4]);
}

#[test]
fn restore_linear_prediction() {
    let mut s = [10, -5, 10, 4, -12, 8, -1, 2];
    lpc_restore(&mut s, &[3, -1], 2);
    assert_eq!(s, LEFT2);
    let mut s = [i32::MAX, 1];
    lpc_restore(&mut s, &[1], 0);
    assert_eq!(s, [i32::MAX, i32::MIN]);
}

#[test]
fn metadata_blocks() {
    let (blocks, used) = try_read_block(META).unwrap();
    assert_eq!(used, META.len());
    let types: Vec<u8> = blocks.iter().map(|b| b.block_type).collect();
    assert_eq!(types, vec![0, 4, 6, 2, 1]);
    assert_eq!(blocks[4].block_data, &[0, 0, 0]);
    let parsed = try_parse_block(&blocks).unwrap();
    assert_eq!(parsed.len(), 5);
    assert_eq!(parsed[0].block_type, MetadataBlockType::Streaminfo);
    assert_eq!(parsed[0].length, 34);
    match &parsed[0].content {
        BlockContent::Streaminfo(s) => {
            assert_eq!(s.minimum_block_size, 4096);
            assert_eq!(s.maximum_block_size, 4096);
            assert_eq!(s.minimum_frame_size, 14);
            assert_eq!(s.maximum_frame_size, 0x0a0b0c);
            assert_eq!(s.sample_rate, 22_050);
            assert_eq!(s.channels, 2);
            assert_eq!(s.bits_per_sample, 8);
            assert_eq!(s.total_number_samples, 0x1_2345_6789);
            assert_eq!(s.checksum, [0, 1, 2, 3, 4, 5, 6, 7, 8, 9, 10, 11, 12, 13, 14, 15]);
        }
        _ => panic!("STREAMINFO expected"),
    }
    match &parsed[1].content {
        BlockContent::Vorbiscomment(v) => {
            assert_eq!(v.vendor_string, "ref 1.4");
            assert_eq!(v.length, 7);
            assert_eq!(v.field_number, 2);
            assert_eq!(v.fields[0].field, "TITLE=Test");
            assert_eq!(v.fields[1].field, "ARTIST=José");
            assert_eq!(v.fields[1].number, 12);
        }
        _ => panic!("VORBIS_COMMENT expected"),
    }
    match &parsed[2].content {
        BlockContent::Picture(p) => {
            assert_eq!(p.picture_type, PictureType::FrontCover);
            assert_eq!(p.media_type, "image/png");
            assert_eq!(p.description, "cover");
            assert_eq!((p.width, p.height, p.color_depth, p.colors), (32, 16, 24, 0));
            assert_eq!(p.data, &[1, 2, 3]);
        }
        _ => panic!("PICTURE expected"),
    }
    match &parsed[3].content {
        BlockContent::Application(id) => assert_eq!(*id, "riff"),
        _ => panic!("APPLICATION expected"),
    }
    assert!(matches!(parsed[4].content, BlockContent::Other));
    assert_eq!(parsed[4].block_type, MetadataBlockType::Padding);
}

#[test]
fn whole_stream() {
    let mut stream = SIGNATURE.to_vec();
    stream.extend_from_slice(META);
    stream.extend(two_frames());
    let (blocks, used) = try_read_block(&stream[4..]).unwrap();
    let parsed = try_parse_block(&blocks).unwrap();
    let (rate, depth) = match &parsed[0].content {
        BlockContent::Streaminfo(s) => (s.sample_rate, s.bits_per_sample),
        _ => panic!("STREAMINFO expected"),
    };
    let frames = try_read_frame(&stream[4 + used..], Some(rate), Some(depth)).unwrap();
    assert_eq!(frames.len(), 2);
    assert_eq!(frames[0].subframes[0].samples, SAMPLES1.to_vec());
    assert_eq!(frames[1].subframes[1].samples, SIDE2.to_vec());
}

#[test]
fn metadata_errors() {
    assert!(matches!(try_read_block(&[0x80, 0, 0]), Err(FlacError::TruncatedBlock)));
    assert!(matches!(try_read_block(&[0x80, 0, 0, 5, 1, 2]), Err(FlacError::TruncatedBlock)));
    assert!(matches!(try_read_block(&[0x01, 0, 0, 0]), Err(FlacError::TruncatedBlock)));
    let (blocks, _) = try_read_block(&[0xFF, 0, 0, 0]).unwrap();
    assert!(matches!(try_parse_block(&blocks), Err(FlacError::ForbiddenBlockType)));
    let (blocks, _) = try_read_block(&[0x80, 0, 0, 1, 9]).unwrap();
    assert!(matches!(try_parse_block(&blocks), Err(FlacError::StreaminfoLength)));
    let mut two = META[..38].to_vec();
    two.extend_from_slice(&META[..38]);
    two[38] |= 0x80;
    let (blocks, _) = try_read_block(&two).unwrap();
    assert_eq!(blocks.len(), 2);
    assert!(matches!(try_parse_block(&blocks), Err(FlacError::DuplicateStreaminfo)));
    let (blocks, _) = try_read_block(&[0x87, 0, 0, 1, 9]).unwrap();
    let parsed = try_parse_block(&blocks).unwrap();
    assert_eq!(parsed[0].block_type, MetadataBlockType::Reserved);
}

#[test]
fn block_parsers_refuse_short_data() {
    assert!(matches!(parse_streaminfo(&[0; 33]), Err(FlacError::StreaminfoLength)));
    assert!(matches!(parse_application_id(b"ab"), Err(FlacError::TruncatedField)));
    assert!(matches!(parse_application_id(&[0xff, 0, 0, 0]), Err(FlacError::InvalidUtf8)));
    assert!(matches!(parse_vorbis_comment(&[9, 0, 0, 0, 1]), Err(FlacError::TruncatedField)));
    assert!(matches!(parse_vorbis_comment(&[1, 0, 0, 0, 0xff, 0, 0, 0, 0]), Err(FlacError::InvalidUtf8)));
    assert!(matches!(parse_picture(&[0, 0, 0, 3, 0, 0, 0, 9, 1]), Err(FlacError::TruncatedField)));
}

#[test]
fn picture_types_by_number() {
    assert_eq!(PictureType::from(0), PictureType::Other);
    assert_eq!(PictureType::from(3), PictureType::FrontCover);
    assert_eq!(PictureType::from(17), PictureType::ABrightColoredFish);
    assert_eq!(PictureType::from(20), PictureType::PublisherOrStudioLogotype);
    assert_eq!(PictureType::from(21), PictureType::Other);
}

#[test]
fn block_type_numbers() {
    assert_eq!(MetadataBlockType::from_u8(0), MetadataBlockType::Streaminfo);
    assert_eq!(MetadataBlockType::from_u8(5), MetadataBlockType::Cuesheet);
    assert_eq!(MetadataBlockType::from_u8(6), MetadataBlockType::Picture);
    assert_eq!(MetadataBlockType::from_u8(126), MetadataBlockType::Reserved);
}

#[test]
fn appended_crc_gives_zero() {
    let data = b"a FLAC frame header";
    let mut with8 = data.to_vec();
    with8.push(crc8(data));
    assert_eq!(crc8(&with8), 0);
    let c = crc16(data);
    let mut with16 = data.to_vec();
    with16.extend_from_slice(&c.to_be_bytes());
    assert_eq!(crc16(&with16), 0);
}

fn fixed_prediction(s: &[i32], order: usize, t: usize) -> i64 {
    let v = |k: usize| s[t - k] as i64;
    match order {
        0 => 0,
        1 => v(1),
        2 => 2 * v(1) - v(2),
        3 => 3 * v(1) - 3 * v(2) + v(3),
        _ => 4 * v(1) - 6 * v(2) + 4 * v(3) - v(4),
    }
}

#[test]
fn fixed_restore_gives_back_samples() {
    for order in 0..=4 {
        let mut r: Vec<i32> = (0..SAMPLES1.len())
            .map(|t| if t < order { SAMPLES1[t] } else { (SAMPLES1[t] as i64 - fixed_prediction(&SAMPLES1, order, t)) as i32 })
            .collect();
        fixed_restore(&mut r, order);
        assert_eq!(r, SAMPLES1.to_vec());
    }
}

#[test]
fn lpc_restore_gives_back_samples() {
    let s = [i32::MAX, i32::MIN, 5, -9, 1 << 20, 7, 7, 7];
    let c = [2, -1, 3];
    let shift = 1;
    let mut r = s.to_vec();
    for t in c.len()..s.len() {
        let mut pred: i128 = 0;
        for j in 0..c.len() {
            pred += c[c.len() - 1 - j] as i128 * s[t - c.len() + j] as i128;
        }
        r[t] = s[t].wrapping_sub((pred >> shift) as i32);
    }
    lpc_restore(&mut r, &c, shift);
    assert_eq!(r, s.to_vec());
}

#[test]
fn msb_reads_in_two_parts_equal_one_read() {
    let data = [0b1010_0111u8, 0b0110_1100];
    let mut whole = BitReader::new(&data);
    let all = whole.read_bits(12);
    let mut parts = BitReader::new(&data);
    let a = parts.read_bits(5);
    let b = parts.read_bits(7);
    assert_eq!(all, (a << 7) + b);
}

#[test]
fn valid_stream_through_unchecked_readers() {
    let mut stream = SIGNATURE.to_vec();
    stream.extend_from_slice(META);
    stream.extend(two_frames());
    let (blocks, used) = read_block(&stream[4..]);
    let parsed = parse_block(&blocks);
    assert_eq!(parsed.len(), blocks.len());
    let (rate, depth) = match &parsed[0].content {
        BlockContent::Streaminfo(s) => (s.sample_rate, s.bits_per_sample),
        _ => panic!("STREAMINFO expected"),
    };
    let frames = read_frame(&stream[4 + used..], Some(rate), Some(depth));
    assert_eq!(frames.len(), 2);
    assert_eq!(frames[0].subframes[0].samples, SAMPLES1.to_vec());
    assert_eq!(frames[1].subframes[1].samples, SIDE2.to_vec());
    let h = FrameHeader::new(FRAME1);
    assert_eq!(h.pos, 7);
    assert_eq!(h.block_size(), 16);
    assert_eq!(decode_number(&[0xC3, 0xA9]), (233, 2));
    let mut r = BitReader::new(&FRAME1[h.pos..]);
    let (sub, samples) = read_subframe(&mut r, 16, 16);
    assert_eq!(sub.subframe_type, SubframeType::FixedPredictor);
    assert_eq!(samples, SAMPLES1.to_vec());
}

#[test]
fn unchecked_subframe_parts() {
    let mut r = BitReader::new(&[0b0001_0000u8]);
    assert_eq!(r.unary(), 3);
    assert_eq!(r.position(), 4);
    let mut r = BitReader::new(&[0xA0u8]);
    assert_eq!(read_subframe_constant(&mut r, 3, 4), vec![-6, -6, -6]);
    let mut r = BitReader::new(&[0x3Fu8]);
    assert_eq!(read_subframe_verbatim(&mut r, 2, 4), vec![3, -1]);
    // residual method 0, partition order 0, Rice parameter 0; unary 0 and 1 give 0 and -1
    let mut r = BitReader::new(&[0x00u8, 0x28]);
    let mut samples = vec![7];
    read_residual(&mut r, &mut samples, 2, 0);
    assert_eq!(samples, vec![7, 0, -1]);
    assert_eq!(r.position(), 13);
    let mut r = BitReader::new(&[0x00u8, 0x28]);
    assert_eq!(read_subframe_fixed(&mut r, 2, 4, 0), vec![0, -1]);
    // order 1: warm-up 3, coefficient precision 4, shift 0, coefficient 1, one residual 0
    let mut r = BitReader::new(&[0x33u8, 0x00, 0x80, 0x10]);
    assert_eq!(read_subframe_lpc(&mut r, 2, 4, 1), vec![3, 3]);
    assert_eq!(r.position(), 28);
}
