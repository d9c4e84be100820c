use vstd::prelude::*;
use vstd::utf8::{valid_utf8, decode_utf8};
use crate::chunk::str_from_utf8;
use crate::flac::error::FlacError;

verus! {

// ---------------------------------------------------------------------------------------------
// Metadata blocks (RFC 9639, 8)
// ---------------------------------------------------------------------------------------------

/// The four bytes that start every FLAC stream.
pub const SIGNATURE: [u8; 4] = [0x66, 0x4C, 0x61, 0x43];

/// The big-endian number in the three bytes from `at`.
pub open spec fn be24(s: Seq<u8>, at: int) -> int {
    s[at] * 65536 + s[at + 1] * 256 + s[at + 2]
}

/// The big-endian number in the four bytes from `at`.
pub open spec fn be32(s: Seq<u8>, at: int) -> int {
    s[at] * 16777216 + s[at + 1] * 65536 + s[at + 2] * 256 + s[at + 3]
}

/// The little-endian number in the four bytes from `at` (the Vorbis comment byte order).
pub open spec fn le32(s: Seq<u8>, at: int) -> int {
    s[at] + s[at + 1] * 256 + s[at + 2] * 65536 + s[at + 3] * 16777216
}

/// The kinds of metadata block.
#[derive(Clone, Copy, Debug, PartialEq, Eq, Structural)]
pub enum MetadataBlockType {
    Streaminfo,
    Padding,
    Application,
    Seektable,
    Vorbiscomment,
    Cuesheet,
    Picture,
    /// Types 7 to 126.
    Reserved,
    /// Type 127, which would be confused with a frame sync code.
    Forbidden,
}

/// The block type that a type number names.
pub open spec fn spec_block_type(value: u8) -> MetadataBlockType {
    if value == 0 {
        MetadataBlockType::Streaminfo
    } else if value == 1 {
        MetadataBlockType::Padding
    } else if value == 2 {
        MetadataBlockType::Application
    } else if value == 3 {
        MetadataBlockType::Seektable
    } else if value == 4 {
        MetadataBlockType::Vorbiscomment
    } else if value == 5 {
        MetadataBlockType::Cuesheet
    } else if value == 6 {
        MetadataBlockType::Picture
    } else {
        MetadataBlockType::Reserved
    }
}

/// Law: the type numbers 0 to 6 name STREAMINFO, PADDING, APPLICATION, SEEKTABLE,
/// VORBIS_COMMENT, CUESHEET and PICTURE (RFC 9639, 8.1), no two of them the same type and none
/// of them reserved; the numbers above 6 are reserved.
pub proof fn lemma_block_type_names(v: u8, w: u8)
    ensures
        spec_block_type(0) == MetadataBlockType::Streaminfo,
        spec_block_type(1) == MetadataBlockType::Padding,
        spec_block_type(2) == MetadataBlockType::Application,
        spec_block_type(3) == MetadataBlockType::Seektable,
        spec_block_type(4) == MetadataBlockType::Vorbiscomment,
        spec_block_type(5) == MetadataBlockType::Cuesheet,
        spec_block_type(6) == MetadataBlockType::Picture,
        v <= 6 && w <= 6 && v != w ==> spec_block_type(v) != spec_block_type(w),
        v <= 6 ==> spec_block_type(v) != MetadataBlockType::Reserved,
        v > 6 ==> spec_block_type(v) == MetadataBlockType::Reserved,
{
}

impl MetadataBlockType {
    /// The block type that a type number up to 126 names.
    pub fn from_u8(value: u8) -> (r: Self)
        requires
            value <= 126,
        ensures
            r == spec_block_type(value),
    {
        match value {
            0 => Self::Streaminfo,
            1 => Self::Padding,
            2 => Self::Application,
            3 => Self::Seektable,
            4 => Self::Vorbiscomment,
            5 => Self::Cuesheet,
            6 => Self::Picture,
            _ => Self::Reserved,
        }
    }
}

/// A metadata block: its type number and its data.
pub struct Block<'a> {
    pub block_type: u8,
    pub block_data: &'a [u8],
}

impl<'a> View for Block<'a> {
    type V = (u8, Seq<u8>);

    open spec fn view(&self) -> (u8, Seq<u8>) {
        (self.block_type, self.block_data@)
    }
}

/// Reading the metadata blocks from `pos` on, up to and including the one flagged last: each
/// has a header byte (last-block flag, 7-bit type), a 24-bit big-endian length, then its data.
/// Gives the blocks and the position after the last one.
pub open spec fn spec_read_blocks(buf: Seq<u8>, pos: int) -> Result<(Seq<(u8, Seq<u8>)>, int), FlacError>
    decreases buf.len() - pos,
{
    if pos < 0 || pos + 4 > buf.len() {
        Err(FlacError::TruncatedBlock)
    } else {
        let end = pos + 4 + be24(buf, pos + 1);
        if end > buf.len() {
            Err(FlacError::TruncatedBlock)
        } else {
            let block = (buf[pos] % 128, buf.subrange(pos + 4, end));
            if buf[pos] >= 128 {
                Ok((seq![block], end))
            } else {
                match spec_read_blocks(buf, end) {
                    Err(e) => Err(e),
                    Ok((rest, p)) => Ok((seq![block] + rest, p)),
                }
            }
        }
    }
}

/// The stream layout of a metadata block: the header byte (last-block flag and type), the
/// 24-bit big-endian length, then the data.
pub open spec fn block_bytes(t: u8, d: Seq<u8>, last: bool) -> Seq<u8> {
    seq![
        (if last {
            t + 128
        } else {
            t as int
        }) as u8,
        (d.len() / 65536) as u8,
        (d.len() / 256 % 256) as u8,
        (d.len() % 256) as u8,
    ] + d
}

/// The stream layout of metadata blocks, the last one flagged last.
pub open spec fn block_stream(bs: Seq<(u8, Seq<u8>)>) -> Seq<u8>
    decreases bs.len(),
{
    if bs.len() == 0 {
        seq![]
    } else {
        block_bytes(bs[0].0, bs[0].1, bs.len() == 1) + block_stream(bs.drop_first())
    }
}

/// Every block has a 7-bit type and a length that fits in 24 bits.
pub open spec fn blocks_fit(bs: Seq<(u8, Seq<u8>)>) -> bool {
    forall|i: int| 0 <= i < bs.len() ==> #[trigger] bs[i].0 < 128 && bs[i].1.len() < 0x100_0000
}

proof fn lemma_read_block_stream_from(p: Seq<u8>, bs: Seq<(u8, Seq<u8>)>, tail: Seq<u8>)
    requires
        bs.len() > 0,
        blocks_fit(bs),
    ensures
        spec_read_blocks(p + block_stream(bs) + tail, p.len() as int) == Ok::<
            (Seq<(u8, Seq<u8>)>, int),
            FlacError,
        >((bs, (p.len() + block_stream(bs).len()) as int)),
    decreases bs.len(),
{
    let (t, d) = bs[0];
    assert(bs[0].0 < 128 && bs[0].1.len() < 0x100_0000);
    let last = bs.len() == 1;
    let rest = bs.drop_first();
    let head = block_bytes(t, d, last);
    let buf = p + block_stream(bs) + tail;
    let pos = p.len() as int;
    let q = p + head;
    assert(block_stream(bs) == head + block_stream(rest));
    assert(buf =~= q + block_stream(rest) + tail);
    let n = d.len() as int;
    assert(buf[pos] == head[0]);
    assert(buf[pos + 1] == head[1] && buf[pos + 2] == head[2] && buf[pos + 3] == head[3]);
    assert((n / 65536) * 65536 + (n / 256 % 256) * 256 + n % 256 == n) by (nonlinear_arith)
        requires
            0 <= n < 0x100_0000,
    ;
    assert(be24(buf, pos + 1) == n);
    assert(buf.subrange(pos + 4, pos + 4 + n) =~= d);
    assert(buf[pos] % 128 == t);
    assert((buf[pos] >= 128) == last);
    if last {
        assert(rest.len() == 0);
        assert(block_stream(rest) =~= seq![]);
        assert(seq![(buf[pos] % 128, d)] =~= bs);
    } else {
        assert forall|i: int| 0 <= i < rest.len() implies #[trigger] rest[i].0 < 128
            && rest[i].1.len() < 0x100_0000 by {
            assert(rest[i] == bs[i + 1]);
        }
        lemma_read_block_stream_from(q, rest, tail);
        assert(seq![(t, d)] + rest =~= bs);
    }
}

/// Law: reading the metadata blocks of a stream laid out as blocks, the last one flagged,
/// gives back the blocks and the length of their layout, whatever follows them.
pub proof fn lemma_read_block_stream(bs: Seq<(u8, Seq<u8>)>, tail: Seq<u8>)
    requires
        bs.len() > 0,
        blocks_fit(bs),
    ensures
        spec_read_blocks(block_stream(bs) + tail, 0) == Ok::<(Seq<(u8, Seq<u8>)>, int), FlacError>(
            (bs, block_stream(bs).len() as int),
        ),
{
    lemma_read_block_stream_from(seq![], bs, tail);
    assert(seq![] + block_stream(bs) + tail =~= block_stream(bs) + tail);
}

/// Reads the metadata blocks at the start of `buf` (after the signature), up to and including
/// the one flagged last; gives them and the number of bytes they take.
pub fn try_read_block(buf: &[u8]) -> (r: Result<(Vec<Block<'_>>, usize), FlacError>)
    ensures
        match spec_read_blocks(buf@, 0) {
            Ok((bs, p)) => r matches Ok((v, q)) && v@.map_values(|b: Block| b@) == bs && q == p,
            Err(e) => r matches Err(e2) && e2 == e,
        },
{
    let ghost goal = spec_read_blocks(buf@, 0);
    let mut blocks: Vec<Block> = Vec::new();
    let mut pos: usize = 0;
    proof {
        match goal {
            Ok((bs, p)) => {
                assert(blocks@.map_values(|b: Block| b@) + bs =~= bs);
            },
            Err(e) => {},
        }
    }
    loop
        invariant
            pos <= buf@.len(),
            goal == spec_read_blocks(buf@, 0),
            match spec_read_blocks(buf@, pos as int) {
                Ok((rest, p)) => goal == Ok::<(Seq<(u8, Seq<u8>)>, int), FlacError>(
                    (blocks@.map_values(|b: Block| b@) + rest, p),
                ),
                Err(e) => goal == Err::<(Seq<(u8, Seq<u8>)>, int), FlacError>(e),
            },
        decreases buf@.len() - pos,
    {
        if buf.len() - pos < 4 {
            return Err(FlacError::TruncatedBlock);
        }
        let head = buf[pos];
        let is_last = head >> 7u8 == 1;
        let block_type = head & 0x7F;
        assert((head >> 7u8 == 1) == (head >= 128) && head & 0x7F == head % 128) by (bit_vector);
        let block_size = (buf[pos + 1] as usize) * 65536 + (buf[pos + 2] as usize) * 256 + (buf[pos
            + 3] as usize);
        pos += 4;
        if buf.len() - pos < block_size {
            return Err(FlacError::TruncatedBlock);
        }
        let block_data = vstd::slice::slice_subrange(buf, pos, pos + block_size);
        pos += block_size;
        let ghost before = blocks@.map_values(|b: Block| b@);
        let block = Block { block_type, block_data };
        let ghost bv = block@;
        blocks.push(block);
        proof {
            assert(blocks@.map_values(|b: Block| b@) =~= before.push(bv));
        }
        if is_last {
            proof {
                assert(before.push(bv) =~= before + seq![bv]);
            }
            return Ok((blocks, pos));
        }
        proof {
            match spec_read_blocks(buf@, pos as int) {
                Ok((rest, p)) => {
                    assert(before + (seq![bv] + rest) =~= before.push(bv) + rest);
                },
                Err(e) => {},
            }
        }
    }
}

// ---------------------------------------------------------------------------------------------
// The layouts of the blocks whose data the reader does not read
// ---------------------------------------------------------------------------------------------

/// A PADDING block: bytes that mean nothing.
pub struct Padding<'a> {
    pub padding: &'a [u8],
}

/// An APPLICATION block: a registered application ID and the application's data.
pub struct Application<'a> {
    pub id: u32,
    pub data: &'a [u8],
}

/// A SEEKTABLE block.
pub struct SeekTable<'a> {
    pub seek_points: &'a [Point],
}

/// A seek point.
pub struct Point {
    /// The number of the first sample of the target frame, or all ones for a placeholder.
    pub sample: u64,
    /// The offset in bytes from the first frame header to the target frame's header.
    pub offset: u64,
    /// The number of samples in the target frame.
    pub number: u16,
}

/// A CUESHEET block (for a CD-DA, Compact Disc Digital Audio).
pub struct Cuesheet {
    /// The media catalog number, in printable ASCII.
    pub media_catalog_number: [u8; 128],
    /// The number of lead-in samples.
    pub number_of_samples: u64,
    /// The cue sheet is that of a CD-DA.
    pub is_cd_da: bool,
    /// Reserved bits, all zero.
    pub reserved: (),
    /// The number of tracks.
    pub number_of_tracks: u8,
    /// The number of track descriptions that follow.
    pub number_of_structures: u8,
}

/// A track of a cue sheet.
pub struct CuesheetTrack {
    /// The offset of the track's first index point, in samples from the start of the audio.
    pub track_offset: u64,
    pub track_number: u8,
    /// The track's ISRC.
    pub track_isrc: u8,
    /// False for audio, true for other data.
    pub track_type: bool,
    pub pre_emphasis_flag: bool,
    /// Reserved bits, all zero.
    pub reserved: (),
    pub number_of_track_index_points: u8,
}

/// An index point of a cue sheet track.
pub struct CuesheetTrackIndexPoint {
    /// The offset in samples from the track offset.
    pub offset: u64,
    /// The index point number.
    pub index: u8,
    /// Reserved bits, all zero.
    pub reserved: (),
}

// ---------------------------------------------------------------------------------------------
// STREAMINFO (RFC 9639, 8.2)
// ---------------------------------------------------------------------------------------------

/// The fields of a STREAMINFO block.
#[derive(Clone, Copy, Debug)]
pub struct StreamInfo {
    /// The minimum block size, in samples, of all blocks but the last.
    pub minimum_block_size: u16,
    /// The maximum block size, in samples.
    pub maximum_block_size: u16,
    /// The minimum frame size in bytes; 0 when not known.
    pub minimum_frame_size: u32,
    /// The maximum frame size in bytes; 0 when not known.
    pub maximum_frame_size: u32,
    /// The sample rate in Hz.
    pub sample_rate: u32,
    /// The number of channels, 1 to 8.
    pub channels: u8,
    /// The bits per sample, 4 to 32.
    pub bits_per_sample: u8,
    /// The total number of interchannel samples; 0 when not known.
    pub total_number_samples: u64,
    /// The MD5 checksum of the unencoded audio data.
    pub checksum: [u8; 16],
}

/// The STREAMINFO data holds the fields that `s` has.
pub open spec fn streaminfo_fields(data: Seq<u8>, s: StreamInfo) -> bool {
    &&& s.minimum_block_size == data[0] * 256 + data[1]
    &&& s.maximum_block_size == data[2] * 256 + data[3]
    &&& s.minimum_frame_size == be24(data, 4)
    &&& s.maximum_frame_size == be24(data, 7)
    &&& s.sample_rate == be24(data, 10) / 16
    &&& s.channels == (be24(data, 10) / 2) % 8 + 1
    &&& s.bits_per_sample == (be24(data, 10) % 2) * 16 + data[13] / 16 + 1
    &&& s.total_number_samples == (data[13] % 16) * 0x1_0000_0000 + be32(data, 14)
    &&& s.checksum@ == data.subrange(18, 34)
}

/// Reads the fields of a STREAMINFO block's data, which is 34 bytes long.
pub fn parse_streaminfo(data: &[u8]) -> (r: Result<StreamInfo, FlacError>)
    ensures
        data@.len() != 34 ==> r == Err::<StreamInfo, FlacError>(FlacError::StreaminfoLength),
        data@.len() == 34 ==> (r matches Ok(s) && streaminfo_fields(data@, s)),
{
    if data.len() != 34 {
        return Err(FlacError::StreaminfoLength);
    }
    let minimum_block_size = (data[0] as u16) * 256 + data[1] as u16;
    let maximum_block_size = (data[2] as u16) * 256 + data[3] as u16;
    let minimum_frame_size = (data[4] as u32) * 65536 + (data[5] as u32) * 256 + data[6] as u32;
    let maximum_frame_size = (data[7] as u32) * 65536 + (data[8] as u32) * 256 + data[9] as u32;
    let value = (data[10] as u32) * 65536 + (data[11] as u32) * 256 + data[12] as u32;
    let sample_rate = value >> 4u32;
    let temp = data[13];
    assert(value >> 4u32 == value / 16 && (value >> 1u32) & 0x7 == (value / 2) % 8 && ((value >> 1u32)
        & 0x7) < 8) by (bit_vector);
    let channels = (((value >> 1u32) & 0x7) + 1) as u8;
    assert(value < 0x100_0000 ==> ((((value & 1) << 4u32) as u8) | (temp >> 4u8)) == (value % 2) * 16
        + temp / 16) by (bit_vector);
    let bits_per_sample = ((((value & 1) << 4u32) as u8) | (temp >> 4u8)) + 1;
    let high = (temp & 0x0F) as u64;
    assert(temp & 0x0F == temp % 16) by (bit_vector);
    let total_number_samples = high * 0x1_0000_0000 + (data[14] as u64) * 16777216 + (data[15]
        as u64) * 65536 + (data[16] as u64) * 256 + data[17] as u64;
    let checksum: [u8; 16] = [
        data[18],
        data[19],
        data[20],
        data[21],
        data[22],
        data[23],
        data[24],
        data[25],
        data[26],
        data[27],
        data[28],
        data[29],
        data[30],
        data[31],
        data[32],
        data[33],
    ];
    proof {
        assert(checksum@ =~= data@.subrange(18, 34));
    }
    Ok(
        StreamInfo {
            minimum_block_size,
            maximum_block_size,
            minimum_frame_size,
            maximum_frame_size,
            sample_rate,
            channels,
            bits_per_sample,
            total_number_samples,
            checksum,
        },
    )
}

// ---------------------------------------------------------------------------------------------
// APPLICATION (RFC 9639, 8.4)
// ---------------------------------------------------------------------------------------------

/// The registered application ID of an APPLICATION block's data, as text.
pub fn parse_application_id(data: &[u8]) -> (r: Result<&str, FlacError>)
    ensures
        data@.len() < 4 ==> r == Err::<&str, FlacError>(FlacError::TruncatedField),
        data@.len() >= 4 && !valid_utf8(data@.subrange(0, 4)) ==> r == Err::<&str, FlacError>(
            FlacError::InvalidUtf8,
        ),
        data@.len() >= 4 && valid_utf8(data@.subrange(0, 4)) ==> (r matches Ok(s) && s@
            == decode_utf8(data@.subrange(0, 4))),
{
    if data.len() < 4 {
        return Err(FlacError::TruncatedField);
    }
    match str_from_utf8(vstd::slice::slice_subrange(data, 0, 4)) {
        Some(s) => Ok(s),
        None => Err(FlacError::InvalidUtf8),
    }
}

/// The text in `data[a..b]`, refused when the range runs past the data or the bytes are not
/// valid UTF-8.
pub open spec fn spec_text_at(data: Seq<u8>, a: int, b: int) -> Result<Seq<char>, FlacError> {
    if b > data.len() {
        Err(FlacError::TruncatedField)
    } else if !valid_utf8(data.subrange(a, b)) {
        Err(FlacError::InvalidUtf8)
    } else {
        Ok(decode_utf8(data.subrange(a, b)))
    }
}

/// The text in `data[a..a + n]`.
fn text_at<'a>(data: &'a [u8], a: usize, n: usize) -> (r: Result<&'a str, FlacError>)
    requires
        a <= data@.len(),
    ensures
        match spec_text_at(data@, a as int, a + n) {
            Ok(t) => r matches Ok(s) && s@ == t,
            Err(e) => r matches Err(e2) && e2 == e,
        },
{
    if data.len() - a < n {
        return Err(FlacError::TruncatedField);
    }
    match str_from_utf8(vstd::slice::slice_subrange(data, a, a + n)) {
        Some(s) => Ok(s),
        None => Err(FlacError::InvalidUtf8),
    }
}

/// The big-endian `u32` at `at`.
fn read_be32(data: &[u8], at: usize) -> (r: u32)
    requires
        at + 4 <= data@.len(),
    ensures
        r == be32(data@, at as int),
{
    (data[at] as u32) * 16777216 + (data[at + 1] as u32) * 65536 + (data[at + 2] as u32) * 256
        + data[at + 3] as u32
}

/// The little-endian `u32` at `at`.
fn read_le32(data: &[u8], at: usize) -> (r: u32)
    requires
        at + 4 <= data@.len(),
    ensures
        r == le32(data@, at as int),
{
    data[at] as u32 + (data[at + 1] as u32) * 256 + (data[at + 2] as u32) * 65536 + (data[at
        + 3] as u32) * 16777216
}

// ---------------------------------------------------------------------------------------------
// VORBIS_COMMENT (RFC 9639, 8.6)
// ---------------------------------------------------------------------------------------------

/// One comment field: its length in bytes and its text.
pub struct Field<'a> {
    pub number: u32,
    pub field: &'a str,
}

impl<'a> View for Field<'a> {
    type V = (u32, Seq<char>);

    open spec fn view(&self) -> (u32, Seq<char>) {
        (self.number, self.field@)
    }
}

/// A Vorbis comment block: the vendor string and its length, and the comment fields and
/// their count.
pub struct VorbisComment<'a> {
    pub length: u32,
    pub vendor_string: &'a str,
    pub field_number: u32,
    pub fields: Vec<Field<'a>>,
}

/// What a Vorbis comment block holds, in spec terms.
pub struct VorbisView {
    pub length: u32,
    pub vendor_string: Seq<char>,
    pub field_number: u32,
    pub fields: Seq<(u32, Seq<char>)>,
}

impl<'a> View for VorbisComment<'a> {
    type V = VorbisView;

    open spec fn view(&self) -> VorbisView {
        VorbisView {
            length: self.length,
            vendor_string: self.vendor_string@,
            field_number: self.field_number,
            fields: self.fields@.map_values(|f: Field<'a>| f@),
        }
    }
}

/// Reading `k` comment fields from `pos`: each a little-endian 32-bit length, then that many
/// bytes of UTF-8 text.
pub open spec fn spec_comments(data: Seq<u8>, pos: int, k: nat) -> Result<
    (Seq<(u32, Seq<char>)>, int),
    FlacError,
>
    decreases k,
{
    if k == 0 {
        Ok((seq![], pos))
    } else {
        match spec_comments(data, pos, (k - 1) as nat) {
            Err(e) => Err(e),
            Ok((fs, p)) => {
                if p + 4 > data.len() {
                    Err(FlacError::TruncatedField)
                } else {
                    let n = le32(data, p);
                    match spec_text_at(data, p + 4, p + 4 + n) {
                        Err(e) => Err(e),
                        Ok(t) => Ok((fs.push((n as u32, t)), p + 4 + n)),
                    }
                }
            },
        }
    }
}

/// Reading a Vorbis comment block's data: the vendor string's length (little-endian 32 bits)
/// and text, the number of fields, then the fields.
pub open spec fn spec_vorbis_comment(data: Seq<u8>) -> Result<VorbisView, FlacError> {
    if data.len() < 4 {
        Err(FlacError::TruncatedField)
    } else {
        let length = le32(data, 0);
        match spec_text_at(data, 4, 4 + length) {
            Err(e) => Err(e),
            Ok(vendor) => {
                if 4 + length + 4 > data.len() {
                    Err(FlacError::TruncatedField)
                } else {
                    let count = le32(data, 4 + length);
                    match spec_comments(data, 8 + length, count as nat) {
                        Err(e) => Err(e),
                        Ok((fs, p)) => Ok(
                            VorbisView {
                                length: length as u32,
                                vendor_string: vendor,
                                field_number: count as u32,
                                fields: fs,
                            },
                        ),
                    }
                }
            },
        }
    }
}

/// Reads a Vorbis comment block's data.
pub fn parse_vorbis_comment<'a>(data: &'a [u8]) -> (r: Result<VorbisComment<'a>, FlacError>)
    ensures
        match spec_vorbis_comment(data@) {
            Ok(v) => r matches Ok(c) && c@ == v,
            Err(e) => r matches Err(e2) && e2 == e,
        },
{
    if data.len() < 4 {
        return Err(FlacError::TruncatedField);
    }
    let length = read_le32(data, 0);
    let vendor_string = match text_at(data, 4, length as usize) {
        Ok(s) => s,
        Err(e) => {
            return Err(e);
        },
    };
    let mut pos = 4 + length as usize;
    if data.len() - pos < 4 {
        return Err(FlacError::TruncatedField);
    }
    let comment_len = read_le32(data, pos);
    pos += 4;
    let ghost start = pos as int;
    let mut fields: Vec<Field<'a>> = Vec::new();
    proof {
        assert(fields@.map_values(|f: Field<'a>| f@) =~= seq![]);
    }
    let mut i: u32 = 0;
    while i < comment_len
        invariant
            i <= comment_len,
            pos <= data@.len(),
            data@.len() >= 4,
            length == le32(data@, 0),
            spec_text_at(data@, 4, 4 + length) == Ok::<Seq<char>, FlacError>(vendor_string@),
            4 + length + 4 <= data@.len(),
            comment_len == le32(data@, 4 + length),
            start == 8 + length,
            spec_comments(data@, start, i as nat) == Ok::<(Seq<(u32, Seq<char>)>, int), FlacError>(
                (fields@.map_values(|f: Field<'a>| f@), pos as int),
            ),
        decreases comment_len - i,
    {
        if data.len() - pos < 4 {
            proof {
                lemma_comments_err_stays(data@, start, (i + 1) as nat, comment_len as nat);
            }
            return Err(FlacError::TruncatedField);
        }
        let len = read_le32(data, pos) as usize;
        pos += 4;
        let field = match text_at(data, pos, len) {
            Ok(s) => s,
            Err(e) => {
                proof {
                    lemma_comments_err_stays(data@, start, (i + 1) as nat, comment_len as nat);
                }
                return Err(e);
            },
        };
        let ghost before = fields@.map_values(|f: Field<'a>| f@);
        let f = Field { number: len as u32, field };
        fields.push(f);
        proof {
            assert(fields@.map_values(|f: Field<'a>| f@) =~= before.push(f@));
        }
        pos += len;
        i += 1;
    }
    Ok(VorbisComment { length, vendor_string, field_number: comment_len, fields })
}

/// Once reading some comment fields fails, reading more fails in the same way.
proof fn lemma_comments_err_stays(data: Seq<u8>, pos: int, a: nat, b: nat)
    requires
        a <= b,
        spec_comments(data, pos, a) is Err,
    ensures
        spec_comments(data, pos, b) == spec_comments(data, pos, a),
    decreases b,
{
    if a < b {
        lemma_comments_err_stays(data, pos, a, (b - 1) as nat);
    }
}

// ---------------------------------------------------------------------------------------------
// PICTURE (RFC 9639, 8.8)
// ---------------------------------------------------------------------------------------------

/// The picture types of RFC 9639, table 13.
#[derive(Debug, Clone, Copy, PartialEq, Eq, Structural)]
pub enum PictureType {
    /// Other.
    Other,
    /// PNG file icon of 32x32 pixels.
    PngFileIcon32x32,
    /// General file icon.
    GeneralFileIcon,
    /// Front cover.
    FrontCover,
    /// Back cover.
    BackCover,
    /// Liner notes page.
    LinerNotesPage,
    /// Media label (e.g., CD, Vinyl or Cassette label).
    MediaLabel,
    /// Lead artist, lead performer, or soloist.
    LeadArtist,
    /// Artist or performer.
    ArtistOrPerformer,
    /// Conductor.
    Conductor,
    /// Band or orchestra.
    BandOrOrchestra,
    /// Composer.
    Composer,
    /// Lyricist or text writer.
    LyricistOrTextWriter,
    /// Recording location.
    RecordingLocation,
    /// During recording.
    DuringRecording,
    /// During performance.
    DuringPerformance,
    /// Movie or video screen capture.
    MovieOrVideoScreenCapture,
    /// A bright colored fish.
    ABrightColoredFish,
    /// Illustration.
    Illustration,
    /// Band or artist logotype.
    BandOrArtistLogotype,
    /// Publisher or studio logotype.
    PublisherOrStudioLogotype,
}

/// The picture type that a number names; numbers past the table name `Other`.
pub open spec fn spec_picture_type(v: u32) -> PictureType {
    if v == 0 {
        PictureType::Other
    } else if v == 1 {
        PictureType::PngFileIcon32x32
    } else if v == 2 {
        PictureType::GeneralFileIcon
    } else if v == 3 {
        PictureType::FrontCover
    } else if v == 4 {
        PictureType::BackCover
    } else if v == 5 {
        PictureType::LinerNotesPage
    } else if v == 6 {
        PictureType::MediaLabel
    } else if v == 7 {
        PictureType::LeadArtist
    } else if v == 8 {
        PictureType::ArtistOrPerformer
    } else if v == 9 {
        PictureType::Conductor
    } else if v == 10 {
        PictureType::BandOrOrchestra
    } else if v == 11 {
        PictureType::Composer
    } else if v == 12 {
        PictureType::LyricistOrTextWriter
    } else if v == 13 {
        PictureType::RecordingLocation
    } else if v == 14 {
        PictureType::DuringRecording
    } else if v == 15 {
        PictureType::DuringPerformance
    } else if v == 16 {
        PictureType::MovieOrVideoScreenCapture
    } else if v == 17 {
        PictureType::ABrightColoredFish
    } else if v == 18 {
        PictureType::Illustration
    } else if v == 19 {
        PictureType::BandOrArtistLogotype
    } else if v == 20 {
        PictureType::PublisherOrStudioLogotype
    } else {
        PictureType::Other
    }
}

impl From<u32> for PictureType {
    fn from(value: u32) -> (r: Self)
        ensures
            r == spec_picture_type(value),
    {
        match value {
            0 => PictureType::Other,
            1 => PictureType::PngFileIcon32x32,
            2 => PictureType::GeneralFileIcon,
            3 => PictureType::FrontCover,
            4 => PictureType::BackCover,
            5 => PictureType::LinerNotesPage,
            6 => PictureType::MediaLabel,
            7 => PictureType::LeadArtist,
            8 => PictureType::ArtistOrPerformer,
            9 => PictureType::Conductor,
            10 => PictureType::BandOrOrchestra,
            11 => PictureType::Composer,
            12 => PictureType::LyricistOrTextWriter,
            13 => PictureType::RecordingLocation,
            14 => PictureType::DuringRecording,
            15 => PictureType::DuringPerformance,
            16 => PictureType::MovieOrVideoScreenCapture,
            17 => PictureType::ABrightColoredFish,
            18 => PictureType::Illustration,
            19 => PictureType::BandOrArtistLogotype,
            20 => PictureType::PublisherOrStudioLogotype,
            _ => PictureType::Other,
        }
    }
}

impl vstd::std_specs::convert::FromSpecImpl<u32> for PictureType {
    open spec fn obeys_from_spec() -> bool {
        true
    }

    open spec fn from_spec(v: u32) -> Self {
        spec_picture_type(v)
    }
}

/// A PICTURE block: the picture type (and the number it was read from), the MIME type and
/// description with their lengths, the picture's size, colour depth and number of colours, and
/// the picture data with its length.
pub struct Picture<'a> {
    pub picture_type: PictureType,
    pub picture_type_code: u32,
    pub media_length: u32,
    pub media_type: &'a str,
    pub description_length: u32,
    pub description: &'a str,
    pub width: u32,
    pub height: u32,
    pub color_depth: u32,
    pub colors: u32,
    pub data_length: u32,
    pub data: &'a [u8],
}

/// What a PICTURE block holds, in spec terms.
pub struct PictureView {
    pub picture_type: PictureType,
    pub picture_type_code: u32,
    pub media_length: u32,
    pub media_type: Seq<char>,
    pub description_length: u32,
    pub description: Seq<char>,
    pub width: u32,
    pub height: u32,
    pub color_depth: u32,
    pub colors: u32,
    pub data_length: u32,
    pub data: Seq<u8>,
}

impl<'a> View for Picture<'a> {
    type V = PictureView;

    open spec fn view(&self) -> PictureView {
        PictureView {
            picture_type: self.picture_type,
            picture_type_code: self.picture_type_code,
            media_length: self.media_length,
            media_type: self.media_type@,
            description_length: self.description_length,
            description: self.description@,
            width: self.width,
            height: self.height,
            color_depth: self.color_depth,
            colors: self.colors,
            data_length: self.data_length,
            data: self.data@,
        }
    }
}

/// Reading a PICTURE block's data: big-endian 32-bit fields, the MIME type and description
/// each after its length, and the picture data after its length.
pub open spec fn spec_picture(d: Seq<u8>) -> Result<PictureView, FlacError> {
    if d.len() < 8 {
        Err(FlacError::TruncatedField)
    } else {
        let code = be32(d, 0);
        let m = be32(d, 4);
        match spec_text_at(d, 8, 8 + m) {
            Err(e) => Err(e),
            Ok(media) => {
                let p = 8 + m;
                if p + 4 > d.len() {
                    Err(FlacError::TruncatedField)
                } else {
                    let dl = be32(d, p);
                    match spec_text_at(d, p + 4, p + 4 + dl) {
                        Err(e) => Err(e),
                        Ok(desc) => {
                            let q = p + 4 + dl;
                            if q + 20 > d.len() {
                                Err(FlacError::TruncatedField)
                            } else {
                                let n = be32(d, q + 16);
                                if q + 20 + n > d.len() {
                                    Err(FlacError::TruncatedField)
                                } else {
                                    Ok(
                                        PictureView {
                                            picture_type: spec_picture_type(code as u32),
                                            picture_type_code: code as u32,
                                            media_length: m as u32,
                                            media_type: media,
                                            description_length: dl as u32,
                                            description: desc,
                                            width: be32(d, q) as u32,
                                            height: be32(d, q + 4) as u32,
                                            color_depth: be32(d, q + 8) as u32,
                                            colors: be32(d, q + 12) as u32,
                                            data_length: n as u32,
                                            data: d.subrange(q + 20, q + 20 + n),
                                        },
                                    )
                                }
                            }
                        },
                    }
                }
            },
        }
    }
}

/// Reads a PICTURE block's data.
pub fn parse_picture<'a>(data: &'a [u8]) -> (r: Result<Picture<'a>, FlacError>)
    ensures
        match spec_picture(data@) {
            Ok(v) => r matches Ok(p) && p@ == v,
            Err(e) => r matches Err(e2) && e2 == e,
        },
{
    if data.len() < 8 {
        return Err(FlacError::TruncatedField);
    }
    let picture_type_code = read_be32(data, 0);
    let media_length = read_be32(data, 4);
    let media_type = match text_at(data, 8, media_length as usize) {
        Ok(s) => s,
        Err(e) => {
            return Err(e);
        },
    };
    let mut pos = 8 + media_length as usize;
    if data.len() - pos < 4 {
        return Err(FlacError::TruncatedField);
    }
    let description_length = read_be32(data, pos);
    pos += 4;
    let description = match text_at(data, pos, description_length as usize) {
        Ok(s) => s,
        Err(e) => {
            return Err(e);
        },
    };
    pos += description_length as usize;
    if data.len() - pos < 20 {
        return Err(FlacError::TruncatedField);
    }
    let width = read_be32(data, pos);
    let height = read_be32(data, pos + 4);
    let color_depth = read_be32(data, pos + 8);
    let colors = read_be32(data, pos + 12);
    let data_length = read_be32(data, pos + 16);
    pos += 20;
    if data.len() - pos < data_length as usize {
        return Err(FlacError::TruncatedField);
    }
    let picture_data = vstd::slice::slice_subrange(data, pos, pos + data_length as usize);
    Ok(
        Picture {
            picture_type: PictureType::from(picture_type_code),
            picture_type_code,
            media_length,
            media_type,
            description_length,
            description,
            width,
            height,
            color_depth,
            colors,
            data_length,
            data: picture_data,
        },
    )
}

// ---------------------------------------------------------------------------------------------
// Reading the metadata
// ---------------------------------------------------------------------------------------------

/// What a metadata block holds, for the block types whose data is read.
pub enum BlockContent<'a> {
    Streaminfo(StreamInfo),
    Application(&'a str),
    Vorbiscomment(VorbisComment<'a>),
    Picture(Picture<'a>),
    /// Padding, seek tables, cue sheets and reserved types, whose data is not read.
    Other,
}

/// A metadata block with its type, its length and what its data holds.
pub struct ParsedBlock<'a> {
    pub block_type: MetadataBlockType,
    pub length: usize,
    pub content: BlockContent<'a>,
}

/// Why a block is refused, if it is, given whether a STREAMINFO block came before it: type
/// 127 is forbidden (and larger numbers do not fit the 7-bit field); a STREAMINFO block must be 34 bytes long and the only one; the data of an
/// APPLICATION, VORBIS_COMMENT or PICTURE block must read.
pub open spec fn spec_block_failure(b: (u8, Seq<u8>), seen_streaminfo: bool) -> Option<FlacError> {
    let (t, d) = b;
    if t >= 127 {
        Some(FlacError::ForbiddenBlockType)
    } else if t == 0 {
        if d.len() != 34 {
            Some(FlacError::StreaminfoLength)
        } else if seen_streaminfo {
            Some(FlacError::DuplicateStreaminfo)
        } else {
            None
        }
    } else if t == 2 {
        if d.len() < 4 {
            Some(FlacError::TruncatedField)
        } else if !valid_utf8(d.subrange(0, 4)) {
            Some(FlacError::InvalidUtf8)
        } else {
            None
        }
    } else if t == 4 {
        match spec_vorbis_comment(d) {
            Err(e) => Some(e),
            Ok(_) => None,
        }
    } else if t == 6 {
        match spec_picture(d) {
            Err(e) => Some(e),
            Ok(_) => None,
        }
    } else {
        None
    }
}

/// The first refusal among blocks `i..`, given whether a STREAMINFO block came before them.
pub open spec fn spec_blocks_failure(bs: Seq<(u8, Seq<u8>)>, i: int, seen_streaminfo: bool) -> Option<
    FlacError,
>
    decreases bs.len() - i,
{
    if i < 0 || i >= bs.len() {
        None
    } else {
        match spec_block_failure(bs[i], seen_streaminfo) {
            Some(e) => Some(e),
            None => spec_blocks_failure(bs, i + 1, seen_streaminfo || bs[i].0 == 0),
        }
    }
}

/// `p` is what block `b` holds.
pub open spec fn parsed_block_of(b: (u8, Seq<u8>), p: ParsedBlock) -> bool {
    let (t, d) = b;
    &&& p.block_type == spec_block_type(t)
    &&& p.length == d.len()
    &&& match p.content {
        BlockContent::Streaminfo(s) => t == 0 && streaminfo_fields(d, s),
        BlockContent::Application(a) => t == 2 && a@ == decode_utf8(d.subrange(0, 4)),
        BlockContent::Vorbiscomment(v) => t == 4 && spec_vorbis_comment(d) == Ok::<
            VorbisView,
            FlacError,
        >(v@),
        BlockContent::Picture(pic) => t == 6 && spec_picture(d) == Ok::<PictureView, FlacError>(
            pic@,
        ),
        BlockContent::Other => t != 0 && t != 2 && t != 4 && t != 6,
    }
}

/// Reads what each metadata block holds.
pub fn try_parse_block<'a>(blocks: &Vec<Block<'a>>) -> (r: Result<Vec<ParsedBlock<'a>>, FlacError>)
    ensures
        match spec_blocks_failure(blocks@.map_values(|b: Block| b@), 0, false) {
            Some(e) => r matches Err(e2) && e2 == e,
            None => r matches Ok(v) && v@.len() == blocks@.len() && forall|i: int|
                0 <= i < blocks@.len() ==> parsed_block_of(#[trigger] blocks@[i]@, v@[i]),
        },
{
    let ghost bs = blocks@.map_values(|b: Block| b@);
    let mut parsed: Vec<ParsedBlock<'a>> = Vec::new();
    let mut seen_streaminfo = false;
    let mut i: usize = 0;
    while i < blocks.len()
        invariant
            i <= blocks@.len(),
            bs == blocks@.map_values(|b: Block| b@),
            spec_blocks_failure(bs, 0, false) == spec_blocks_failure(bs, i as int, seen_streaminfo),
            parsed@.len() == i,
            forall|k: int| 0 <= k < i ==> parsed_block_of(#[trigger] blocks@[k]@, parsed@[k]),
        decreases blocks@.len() - i,
    {
        let t = blocks[i].block_type;
        let data = blocks[i].block_data;
        let ghost b = blocks@[i as int]@;
        proof {
            assert(bs[i as int] == b);
        }
        if t >= 127 {
            return Err(FlacError::ForbiddenBlockType);
        }
        let block_type = MetadataBlockType::from_u8(t);
        let content = match block_type {
            MetadataBlockType::Streaminfo => {
                let info = match parse_streaminfo(data) {
                    Ok(s) => s,
                    Err(e) => {
                        return Err(e);
                    },
                };
                if seen_streaminfo {
                    return Err(FlacError::DuplicateStreaminfo);
                }
                seen_streaminfo = true;
                BlockContent::Streaminfo(info)
            },
            MetadataBlockType::Application => match parse_application_id(data) {
                Ok(id) => BlockContent::Application(id),
                Err(e) => {
                    return Err(e);
                },
            },
            MetadataBlockType::Vorbiscomment => match parse_vorbis_comment(data) {
                Ok(v) => BlockContent::Vorbiscomment(v),
                Err(e) => {
                    return Err(e);
                },
            },
            MetadataBlockType::Picture => match parse_picture(data) {
                Ok(p) => BlockContent::Picture(p),
                Err(e) => {
                    return Err(e);
                },
            },
            _ => BlockContent::Other,
        };
        parsed.push(ParsedBlock { block_type, length: data.len(), content });
        i += 1;
    }
    Ok(parsed)
}

/// Reads the metadata blocks of a stream whose blocks are all present, up to and including the
/// one flagged last; gives them and the number of bytes they take. `try_read_block` is the
/// form that reports a truncated block.
pub fn read_block(buf: &[u8]) -> (r: (Vec<Block<'_>>, usize))
    requires
        spec_read_blocks(buf@, 0) is Ok,
    ensures
        spec_read_blocks(buf@, 0) == Ok::<(Seq<(u8, Seq<u8>)>, int), FlacError>(
            (r.0@.map_values(|b: Block| b@), r.1 as int),
        ),
{
    try_read_block(buf).unwrap()
}

/// Reads what each of a sequence of well-formed metadata blocks holds. `try_parse_block` is
/// the form that reports the first block it refuses.
pub fn parse_block<'a>(blocks: &Vec<Block<'a>>) -> (r: Vec<ParsedBlock<'a>>)
    requires
        spec_blocks_failure(blocks@.map_values(|b: Block| b@), 0, false) is None,
    ensures
        r@.len() == blocks@.len(),
        forall|i: int| 0 <= i < blocks@.len() ==> parsed_block_of(#[trigger] blocks@[i]@, r@[i]),
{
    try_parse_block(blocks).unwrap()
}

} // verus!
