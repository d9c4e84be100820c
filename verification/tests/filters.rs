use lib::header::{
    CompressionMethod, FilterMethod, FilterType, IHDRChunkData, ImageType, InterlaceMethod,
};

const LINE: [u8; 7] = [121, 66, 189, 242, 33, 6, 240];
const PREV: [u8; 7] = [132, 119, 98, 240, 243, 203, 77];

fn unfilter(ft: FilterType, bpp: usize) -> [u8; 7] {
    let mut line = LINE;
    ft.apply(&mut line, &PREV, bpp);
    line
}

#[test]
fn unfilter_none() {
    assert_eq!(unfilter(FilterType::NoFilter, 2), LINE);
}

#[test]
fn unfilter_sub() {
    assert_eq!(unfilter(FilterType::Sub, 2), [121, 66, 54, 52, 87, 58, 71]);
}

#[test]
fn unfilter_up() {
    assert_eq!(unfilter(FilterType::Up, 2), [253, 185, 31, 226, 20, 209, 61]);
}

#[test]
fn unfilter_average() {
    assert_eq!(unfilter(FilterType::Average, 2), [187, 125, 75, 168, 192, 191, 118]);
}

#[test]
fn unfilter_paeth() {
    assert_eq!(unfilter(FilterType::Paeth, 2), [253, 185, 186, 226, 20, 209, 4]);
}

#[test]
fn unfilter_with_zero_bytes_per_pixel() {
    assert_eq!(unfilter(FilterType::Sub, 0), [242, 132, 122, 228, 66, 12, 224]);
    assert_eq!(unfilter(FilterType::Average, 0), [247, 158, 76, 227, 171, 110, 142]);
    assert_eq!(unfilter(FilterType::Paeth, 0), [242, 132, 122, 228, 66, 12, 224]);
}

#[test]
fn unfilter_sub_with_wide_pixels() {
    assert_eq!(unfilter(FilterType::Sub, 9), LINE);
}

#[test]
fn filter_type_numbers() {
    assert_eq!(FilterType::filter_type(0), FilterType::NoFilter);
    assert_eq!(FilterType::filter_type(1), FilterType::Sub);
    assert_eq!(FilterType::filter_type(2), FilterType::Up);
    assert_eq!(FilterType::filter_type(3), FilterType::Average);
    assert_eq!(FilterType::filter_type(4), FilterType::Paeth);
}

#[test]
fn image_types_and_channels() {
    let cases = [
        (0u8, ImageType::Greyscale, 1usize),
        (2, ImageType::Truecolor, 3),
        (3, ImageType::IndexedColor, 1),
        (4, ImageType::GreyscaleWithAlpha, 2),
        (6, ImageType::TruecolorWithAlpha, 4),
    ];
    for (v, t, c) in cases {
        assert_eq!(ImageType::image_type(v), t);
        assert_eq!(t.channal(), c);
    }
}

#[test]
fn method_numbers() {
    assert_eq!(InterlaceMethod::method(0), InterlaceMethod::NotInterlaced);
    assert_eq!(InterlaceMethod::method(1), InterlaceMethod::Adam7);
    assert_eq!(FilterMethod::method(0), FilterMethod::Zero);
    assert_eq!(CompressionMethod::method(0), CompressionMethod::Deflate);
}

#[test]
fn ihdr_fields_big_endian() {
    let buf = [0u8, 0, 1, 2, 0, 0, 0, 5, 8, 6, 0, 0, 1, 99];
    let h = IHDRChunkData::parse(&buf);
    assert_eq!(h.width, 258);
    assert_eq!(h.height, 5);
    assert_eq!(h.bit_width, 8);
    assert_eq!(h.color_type, 6);
    assert_eq!(h.compression_method, 0);
    assert_eq!(h.filter_method, 0);
    assert_eq!(h.interlace_method, 1);
}
