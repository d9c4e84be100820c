use vstd::prelude::*;
use vstd::utf8::{valid_utf8, decode_utf8};
use crate::chunk::{Chunk, str_from_utf8};
use crate::endian::{be_u16, be_u32, spec_be_u16, spec_be_u32};
use crate::error::PngError;

verus! {

/// The index of the first zero byte from index `i` on.
pub open spec fn zero_from(s: Seq<u8>, i: int) -> Option<int>
    decreases s.len() - i,
{
    if i < 0 || i >= s.len() {
        None
    } else if s[i] == 0 {
        Some(i)
    } else {
        zero_from(s, i + 1)
    }
}

pub proof fn lemma_zero_from_bounds(s: Seq<u8>, i: int)
    ensures
        zero_from(s, i) matches Some(p) ==> i <= p < s.len() && s[p] == 0,
    decreases s.len() - i,
{
    if 0 <= i < s.len() && s[i] != 0 {
        lemma_zero_from_bounds(s, i + 1);
    }
}

/// The index of the first zero byte from `from` on.
fn find_zero(data: &[u8], from: usize) -> (r: Option<usize>)
    requires
        from <= data@.len(),
    ensures
        match zero_from(data@, from as int) {
            Some(p) => r == Some(p as usize) && from <= p < data@.len(),
            None => r is None,
        },
{
    proof {
        lemma_zero_from_bounds(data@, from as int);
    }
    let mut i = from;
    while i < data.len()
        invariant
            from <= i <= data@.len(),
            zero_from(data@, i as int) == zero_from(data@, from as int),
        decreases data@.len() - i,
    {
        if data[i] == 0 {
            return Some(i);
        }
        i += 1;
    }
    None
}

/// The bytes `data[a..b]` as text, or an error when they are not valid UTF-8.
fn utf8_field<'a>(data: &'a [u8], a: usize, b: usize) -> (r: Result<&'a str, PngError>)
    requires
        a <= b <= data@.len(),
    ensures
        valid_utf8(data@.subrange(a as int, b as int)) ==> (r matches Ok(s) && s@ == decode_utf8(
            data@.subrange(a as int, b as int),
        )),
        !valid_utf8(data@.subrange(a as int, b as int)) ==> r == Err::<&str, PngError>(
            PngError::InvalidUtf8,
        ),
{
    match str_from_utf8(vstd::slice::slice_subrange(data, a, b)) {
        Some(s) => Ok(s),
        None => Err(PngError::InvalidUtf8),
    }
}

/// A tEXt chunk: a keyword, a null separator and the text.
pub struct TextChunk<'a> {
    pub keyword: &'a str,
    pub text_string: &'a str,
}

/// The keyword and text of a tEXt chunk's data.
pub open spec fn spec_text(data: Seq<u8>) -> Result<(Seq<char>, Seq<char>), PngError> {
    match zero_from(data, 0) {
        None => Err(PngError::MissingNullSeparator),
        Some(p) => {
            if !valid_utf8(data.subrange(0, p)) {
                Err(PngError::InvalidUtf8)
            } else if !valid_utf8(data.subrange(p + 1, data.len() as int)) {
                Err(PngError::InvalidUtf8)
            } else {
                Ok(
                    (
                        decode_utf8(data.subrange(0, p)),
                        decode_utf8(data.subrange(p + 1, data.len() as int)),
                    ),
                )
            }
        },
    }
}

/// Splits a tEXt chunk's data at its first null byte into keyword and text.
pub fn parse_text<'a>(data: &'a [u8]) -> (r: Result<TextChunk<'a>, PngError>)
    ensures
        match spec_text(data@) {
            Ok((k, t)) => r matches Ok(c) && c.keyword@ == k && c.text_string@ == t,
            Err(e) => r matches Err(e2) && e2 == e,
        },
{
    let len = data.len();
    let null_pos = match find_zero(data, 0) {
        Some(p) => p,
        None => {
            return Err(PngError::MissingNullSeparator);
        },
    };
    let keyword = match utf8_field(data, 0, null_pos) {
        Ok(s) => s,
        Err(e) => {
            return Err(e);
        },
    };
    let text_string = match utf8_field(data, null_pos + 1, data.len()) {
        Ok(s) => s,
        Err(e) => {
            return Err(e);
        },
    };
    Ok(TextChunk { keyword, text_string })
}

/// An iTXt chunk: keyword, compression flag and method, language tag, translated keyword and
/// text.
pub struct ItxtChunk<'a> {
    pub keyword: &'a str,
    pub compression_flag: u8,
    pub compression_method: u8,
    pub language_tag: &'a str,
    pub translated_keyword: &'a str,
    pub text: &'a str,
}

/// The fields of an iTXt chunk's data: keyword, compression flag, compression method, language
/// tag, translated keyword and text.
pub open spec fn spec_itxt(data: Seq<u8>) -> Result<
    (Seq<char>, u8, u8, Seq<char>, Seq<char>, Seq<char>),
    PngError,
> {
    match zero_from(data, 0) {
        None => Err(PngError::MissingNullSeparator),
        Some(p) => {
            if !valid_utf8(data.subrange(0, p)) {
                Err(PngError::InvalidUtf8)
            } else if p + 2 >= data.len() {
                Err(PngError::TruncatedText)
            } else {
                match zero_from(data, p + 3) {
                    None => Err(PngError::MissingNullSeparator),
                    Some(q) => {
                        if !valid_utf8(data.subrange(p + 3, q)) {
                            Err(PngError::InvalidUtf8)
                        } else {
                            match zero_from(data, q + 1) {
                                None => Err(PngError::MissingNullSeparator),
                                Some(t) => {
                                    if !valid_utf8(data.subrange(q + 1, t)) {
                                        Err(PngError::InvalidUtf8)
                                    } else if !valid_utf8(
                                        data.subrange(t + 1, data.len() as int),
                                    ) {
                                        Err(PngError::InvalidUtf8)
                                    } else {
                                        Ok(
                                            (
                                                decode_utf8(data.subrange(0, p)),
                                                data[p + 1],
                                                data[p + 2],
                                                decode_utf8(data.subrange(p + 3, q)),
                                                decode_utf8(data.subrange(q + 1, t)),
                                                decode_utf8(
                                                    data.subrange(t + 1, data.len() as int),
                                                ),
                                            ),
                                        )
                                    }
                                },
                            }
                        }
                    },
                }
            }
        },
    }
}

/// Splits an iTXt chunk's data into its fields.
pub fn parse_itxt<'a>(data: &'a [u8]) -> (r: Result<ItxtChunk<'a>, PngError>)
    ensures
        match spec_itxt(data@) {
            Ok((k, f, m, l, tk, t)) => r matches Ok(c) && c.keyword@ == k && c.compression_flag
                == f && c.compression_method == m && c.language_tag@ == l
                && c.translated_keyword@ == tk && c.text@ == t,
            Err(e) => r matches Err(e2) && e2 == e,
        },
{
    let len = data.len();
    let null_pos = match find_zero(data, 0) {
        Some(p) => p,
        None => {
            return Err(PngError::MissingNullSeparator);
        },
    };
    let keyword = match utf8_field(data, 0, null_pos) {
        Ok(s) => s,
        Err(e) => {
            return Err(e);
        },
    };
    if data.len() - null_pos <= 2 {
        return Err(PngError::TruncatedText);
    }
    let compression_flag = data[null_pos + 1];
    let compression_method = data[null_pos + 2];
    let language_tag_start = null_pos + 3;
    let language_tag_end = match find_zero(data, language_tag_start) {
        Some(p) => p,
        None => {
            return Err(PngError::MissingNullSeparator);
        },
    };
    let language_tag = match utf8_field(data, language_tag_start, language_tag_end) {
        Ok(s) => s,
        Err(e) => {
            return Err(e);
        },
    };
    let translated_keyword_start = language_tag_end + 1;
    let translated_keyword_end = match find_zero(data, translated_keyword_start) {
        Some(p) => p,
        None => {
            return Err(PngError::MissingNullSeparator);
        },
    };
    let translated_keyword = match utf8_field(
        data,
        translated_keyword_start,
        translated_keyword_end,
    ) {
        Ok(s) => s,
        Err(e) => {
            return Err(e);
        },
    };
    let text = match utf8_field(data, translated_keyword_end + 1, data.len()) {
        Ok(s) => s,
        Err(e) => {
            return Err(e);
        },
    };
    Ok(
        ItxtChunk {
            keyword,
            compression_flag,
            compression_method,
            language_tag,
            translated_keyword,
            text,
        },
    )
}

/// A pHYs chunk: pixels per unit on each axis and the unit (0 unknown, 1 metre).
pub struct PhysChunk {
    pub pixels_per_unit_x_axis: u32,
    pub pixels_per_unit_y_axis: u32,
    pub unit_specifier: u8,
}

/// Reads a pHYs chunk, whose length must be 9.
pub fn parse_phys(chunk: &Chunk) -> (r: Result<PhysChunk, PngError>)
    ensures
        chunk.length != 9 ==> (r matches Err(e) && e == PngError::WrongChunkLength),
        chunk.length == 9 && chunk.data@.len() < 9 ==> (r matches Err(e) && e
            == PngError::ChunkDataLength),
        chunk.length == 9 && chunk.data@.len() >= 9 ==> (r matches Ok(p)
            && p.pixels_per_unit_x_axis == spec_be_u32(chunk.data@, 0)
            && p.pixels_per_unit_y_axis == spec_be_u32(chunk.data@, 4) && p.unit_specifier
            == chunk.data@[8]),
{
    if chunk.length != 9 {
        return Err(PngError::WrongChunkLength);
    }
    let data = chunk.data;
    if data.len() < 9 {
        return Err(PngError::ChunkDataLength);
    }
    Ok(
        PhysChunk {
            pixels_per_unit_x_axis: be_u32(data, 0),
            pixels_per_unit_y_axis: be_u32(data, 4),
            unit_specifier: data[8],
        },
    )
}

/// Reads an sRGB chunk, whose length must be 1: the rendering intent.
pub fn parse_srgb(chunk: &Chunk) -> (r: Result<u8, PngError>)
    ensures
        chunk.length != 1 ==> (r matches Err(e) && e == PngError::WrongChunkLength),
        chunk.length == 1 && chunk.data@.len() < 1 ==> (r matches Err(e) && e
            == PngError::ChunkDataLength),
        chunk.length == 1 && chunk.data@.len() >= 1 ==> (r matches Ok(v) && v == chunk.data@[0]),
{
    if chunk.length != 1 {
        return Err(PngError::WrongChunkLength);
    }
    if chunk.data.len() < 1 {
        return Err(PngError::ChunkDataLength);
    }
    Ok(chunk.data[0])
}

/// A cHRM chunk: white point and primary chromaticities, each times 100000.
pub struct ChrmChunk {
    pub white_point_x: u32,
    pub white_point_y: u32,
    pub red_x: u32,
    pub red_y: u32,
    pub green_x: u32,
    pub green_y: u32,
    pub blue_x: u32,
    pub blue_y: u32,
}

/// Reads a cHRM chunk, whose length must be 32.
pub fn parse_chrm(chunk: &Chunk) -> (r: Result<ChrmChunk, PngError>)
    ensures
        chunk.length != 32 ==> (r matches Err(e) && e == PngError::WrongChunkLength),
        chunk.length == 32 && chunk.data@.len() < 32 ==> (r matches Err(e) && e
            == PngError::ChunkDataLength),
        chunk.length == 32 && chunk.data@.len() >= 32 ==> (r matches Ok(c) && c.white_point_x
            == spec_be_u32(chunk.data@, 0) && c.white_point_y == spec_be_u32(chunk.data@, 4)
            && c.red_x == spec_be_u32(chunk.data@, 8) && c.red_y == spec_be_u32(chunk.data@, 12)
            && c.green_x == spec_be_u32(chunk.data@, 16) && c.green_y == spec_be_u32(
            chunk.data@,
            20,
        ) && c.blue_x == spec_be_u32(chunk.data@, 24) && c.blue_y == spec_be_u32(
            chunk.data@,
            28,
        )),
{
    if chunk.length != 32 {
        return Err(PngError::WrongChunkLength);
    }
    let data = chunk.data;
    if data.len() < 32 {
        return Err(PngError::ChunkDataLength);
    }
    Ok(
        ChrmChunk {
            white_point_x: be_u32(data, 0),
            white_point_y: be_u32(data, 4),
            red_x: be_u32(data, 8),
            red_y: be_u32(data, 12),
            green_x: be_u32(data, 16),
            green_y: be_u32(data, 20),
            blue_x: be_u32(data, 24),
            blue_y: be_u32(data, 28),
        },
    )
}

/// Reads a gAMA chunk, whose length must be 4: the gamma times 100000.
pub fn parse_gama(chunk: &Chunk) -> (r: Result<u32, PngError>)
    ensures
        chunk.length != 4 ==> (r matches Err(e) && e == PngError::WrongChunkLength),
        chunk.length == 4 && chunk.data@.len() < 4 ==> (r matches Err(e) && e
            == PngError::ChunkDataLength),
        chunk.length == 4 && chunk.data@.len() >= 4 ==> (r matches Ok(v) && v == spec_be_u32(
            chunk.data@,
            0,
        )),
{
    if chunk.length != 4 {
        return Err(PngError::WrongChunkLength);
    }
    if chunk.data.len() < 4 {
        return Err(PngError::ChunkDataLength);
    }
    Ok(be_u32(chunk.data, 0))
}

/// An acTL chunk: the number of frames and of plays.
pub struct ActlChunk {
    pub num_frames: u32,
    pub num_plays: u32,
}

/// Reads an acTL chunk, whose length must be 8 and whose data must hold exactly 8 bytes.
pub fn parse_actl(chunk: &Chunk) -> (r: Result<ActlChunk, PngError>)
    ensures
        chunk.length != 8 ==> (r matches Err(e) && e == PngError::WrongChunkLength),
        chunk.length == 8 && chunk.data@.len() != 8 ==> (r matches Err(e) && e
            == PngError::ChunkDataLength),
        chunk.length == 8 && chunk.data@.len() == 8 ==> (r matches Ok(a) && a.num_frames
            == spec_be_u32(chunk.data@, 0) && a.num_plays == spec_be_u32(chunk.data@, 4)),
{
    if chunk.length != 8 {
        return Err(PngError::WrongChunkLength);
    }
    if chunk.data.len() != 8 {
        return Err(PngError::ChunkDataLength);
    }
    Ok(ActlChunk { num_frames: be_u32(chunk.data, 0), num_plays: be_u32(chunk.data, 4) })
}

/// An fcTL chunk: the frame's sequence number, size, offset, delay, dispose and blend
/// operations.
pub struct FctlChunk {
    pub sequence_number: u32,
    pub width: u32,
    pub height: u32,
    pub x_offset: u32,
    pub y_offset: u32,
    pub delay_num: u16,
    pub delay_den: u16,
    pub dispose_op: u8,
    pub blend_op: u8,
}

/// Reads an fcTL chunk, whose length must be 26.
pub fn parse_fctl(chunk: &Chunk) -> (r: Result<FctlChunk, PngError>)
    ensures
        chunk.length != 26 ==> (r matches Err(e) && e == PngError::WrongChunkLength),
        chunk.length == 26 && chunk.data@.len() < 26 ==> (r matches Err(e) && e
            == PngError::ChunkDataLength),
        chunk.length == 26 && chunk.data@.len() >= 26 ==> (r matches Ok(f) && f.sequence_number
            == spec_be_u32(chunk.data@, 0) && f.width == spec_be_u32(chunk.data@, 4) && f.height
            == spec_be_u32(chunk.data@, 8) && f.x_offset == spec_be_u32(chunk.data@, 12)
            && f.y_offset == spec_be_u32(chunk.data@, 16) && f.delay_num == spec_be_u16(
            chunk.data@,
            20,
        ) && f.delay_den == spec_be_u16(chunk.data@, 22) && f.dispose_op == chunk.data@[24]
            && f.blend_op == chunk.data@[25]),
{
    if chunk.length != 26 {
        return Err(PngError::WrongChunkLength);
    }
    let data = chunk.data;
    if data.len() < 26 {
        return Err(PngError::ChunkDataLength);
    }
    Ok(
        FctlChunk {
            sequence_number: be_u32(data, 0),
            width: be_u32(data, 4),
            height: be_u32(data, 8),
            x_offset: be_u32(data, 12),
            y_offset: be_u32(data, 16),
            delay_num: be_u16(data, 20),
            delay_den: be_u16(data, 22),
            dispose_op: data[24],
            blend_op: data[25],
        },
    )
}

/// The sequence number that starts an fdAT chunk's data.
pub fn parse_fdat_sequence(chunk: &Chunk) -> (r: Result<u32, PngError>)
    ensures
        chunk.data@.len() < 4 ==> (r matches Err(e) && e == PngError::ChunkDataLength),
        chunk.data@.len() >= 4 ==> (r matches Ok(v) && v == spec_be_u32(chunk.data@, 0)),
{
    if chunk.data.len() < 4 {
        return Err(PngError::ChunkDataLength);
    }
    Ok(be_u32(chunk.data, 0))
}

} // verus!
