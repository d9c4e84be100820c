use vstd::prelude::*;
use crate::flac::bits::BitReader;
use crate::flac::error::FlacError;
use crate::flac::header::{
    Channel, FrameHeader, crc8, spec_crc8, spec_frame_header, spec_block_size, spec_sample_rate,
    spec_bit_depth, spec_channels, spec_channel_assignment,
};
use crate::flac::subframe::{Subframe, try_read_subframe, spec_read_subframe, reader_ok};

verus! {

// ---------------------------------------------------------------------------------------------
// Frames (RFC 9639, 9)
// ---------------------------------------------------------------------------------------------

/// A decoded subframe: its kind and its samples.
pub struct DecodedSubframe {
    pub subframe: Subframe,
    pub samples: Vec<i32>,
}

impl View for DecodedSubframe {
    type V = (Subframe, Seq<i32>);

    open spec fn view(&self) -> (Subframe, Seq<i32>) {
        (self.subframe, self.samples@)
    }
}

/// What a decoded frame is, in spec terms.
pub struct FrameView {
    pub header: FrameHeader,
    pub block_size: u16,
    pub sample_rate: u32,
    pub channels: u8,
    pub bit_depth: u8,
    pub assignment: Channel,
    pub subframes: Seq<(Subframe, Seq<i32>)>,
    pub end: int,
}

/// A decoded frame: its header, the values the header gives, one subframe per channel, and
/// the position in the buffer just after the frame's footer.
pub struct Frame {
    pub header: FrameHeader,
    pub block_size: u16,
    pub sample_rate: u32,
    pub channels: u8,
    pub bit_depth: u8,
    pub assignment: Channel,
    pub subframes: Vec<DecodedSubframe>,
    pub end: usize,
}

impl View for Frame {
    type V = FrameView;

    open spec fn view(&self) -> FrameView {
        FrameView {
            header: self.header,
            block_size: self.block_size,
            sample_rate: self.sample_rate,
            channels: self.channels,
            bit_depth: self.bit_depth,
            assignment: self.assignment,
            subframes: self.subframes@.map_values(|d: DecodedSubframe| d@),
            end: self.end as int,
        }
    }
}

/// The block size, sample rate, channel count and bit depth that a frame header gives, with
/// the STREAMINFO rate and depth for the header values that defer to them; in the order in
/// which they are taken, the reserved and forbidden values are refused.
pub open spec fn spec_frame_params(h: FrameHeader, rate: Option<u32>, depth: Option<u8>) -> Result<
    (u16, u32, u8, u8),
    FlacError,
> {
    if h.block_size_bits == 0 {
        Err(FlacError::ReservedBlockSize)
    } else if h.sample_rate_bits == 15 {
        Err(FlacError::ForbiddenSampleRate)
    } else if h.sample_rate_bits == 0 && rate is None {
        Err(FlacError::MissingStreaminfo)
    } else if h.channals_bits > 10 {
        Err(FlacError::ReservedChannels)
    } else if h.bit_depth_bits == 3 {
        Err(FlacError::ReservedBitDepth)
    } else if h.bit_depth_bits == 0 && depth is None {
        Err(FlacError::MissingStreaminfo)
    } else {
        Ok(
            (
                spec_block_size(h.block_size_bits, h.uncommon_block_size) as u16,
                spec_sample_rate(
                    h.sample_rate_bits,
                    h.uncommon_sample_rate,
                    if rate is Some {
                        rate->Some_0
                    } else {
                        0
                    },
                ) as u32,
                spec_channels(h.channals_bits) as u8,
                spec_bit_depth(
                    h.bit_depth_bits,
                    if depth is Some {
                        depth->Some_0
                    } else {
                        0
                    },
                ) as u8,
            ),
        )
    }
}

/// The bits per sample of channel `i`: one more than the bit depth for the side channel.
pub open spec fn channel_precision(assignment: Channel, i: nat, depth: nat) -> nat {
    match assignment {
        Channel::Independent => depth,
        Channel::Leftside => if i == 1 {
            depth + 1
        } else {
            depth
        },
        Channel::Sideright => if i == 0 {
            depth + 1
        } else {
            depth
        },
        Channel::Midside => if i == 1 {
            depth + 1
        } else {
            depth
        },
    }
}

/// Law: in a frame whose channels are decorrelated, exactly one of the two channels is read
/// with one more bit, the side channel: it comes second in left/side and in mid/side, first in
/// side/right. The left channel of left/side keeps the bit depth, and independent channels
/// all keep it.
pub proof fn lemma_side_channel_precision(i: nat, depth: nat)
    ensures
        channel_precision(Channel::Independent, i, depth) == depth,
        channel_precision(Channel::Leftside, 0, depth) == depth,
        i >= 2 ==> channel_precision(Channel::Leftside, i, depth) == depth,
        channel_precision(Channel::Leftside, 0, depth) + channel_precision(Channel::Leftside, 1, depth)
            == 2 * depth + 1,
        channel_precision(Channel::Midside, i, depth) == channel_precision(
            Channel::Leftside,
            i,
            depth,
        ),
        channel_precision(Channel::Sideright, 0, depth) == channel_precision(
            Channel::Leftside,
            1,
            depth,
        ),
        channel_precision(Channel::Sideright, 1, depth) == channel_precision(
            Channel::Leftside,
            0,
            depth,
        ),
        i >= 2 ==> channel_precision(Channel::Sideright, i, depth) == depth,
{
}

/// Reading the subframes of channels `i..channels` from bit `pos` of the frame data.
pub open spec fn spec_subframes(
    data: Seq<u8>,
    pos: int,
    i: nat,
    channels: nat,
    depth: nat,
    assignment: Channel,
    block_size: nat,
) -> Result<(Seq<(Subframe, Seq<i32>)>, int), FlacError>
    decreases channels - i,
{
    if i >= channels {
        Ok((seq![], pos))
    } else {
        match spec_read_subframe(data, pos, channel_precision(assignment, i, depth), block_size) {
            Err(e) => Err(e),
            Ok((sub, s, p)) => match spec_subframes(
                data,
                p,
                i + 1,
                channels,
                depth,
                assignment,
                block_size,
            ) {
                Err(e) => Err(e),
                Ok((rest, p2)) => Ok((seq![(sub, s)] + rest, p2)),
            },
        }
    }
}

/// Decoding the frame at byte `pos` of `buf`: its header, whose CRC-8 must match, one subframe
/// per channel, then the zero bits up to the next byte and the 2-byte CRC-16 (which is not
/// checked).
pub open spec fn spec_decode_frame(buf: Seq<u8>, pos: int, rate: Option<u32>, depth: Option<u8>) -> Result<
    FrameView,
    FlacError,
> {
    match spec_frame_header(buf.subrange(pos, buf.len() as int)) {
        Err(e) => Err(e),
        Ok(h) => match spec_frame_params(h, rate, depth) {
            Err(e) => Err(e),
            Ok((bs, sr, ch, bd)) => {
                let hend = pos + h.pos;
                if h.crc != spec_crc8(buf.subrange(pos, hend - 1)) {
                    Err(FlacError::HeaderCrcMismatch)
                } else {
                    let assignment = spec_channel_assignment(h.channals_bits);
                    match spec_subframes(
                        buf.subrange(hend, buf.len() as int),
                        0,
                        0,
                        ch as nat,
                        bd as nat,
                        assignment,
                        bs as nat,
                    ) {
                        Err(e) => Err(e),
                        Ok((subs, bits)) => {
                            let end = hend + bits / 8 + (if bits % 8 == 0 {
                                0int
                            } else {
                                1int
                            }) + 2;
                            if end > buf.len() {
                                Err(FlacError::TruncatedFrame)
                            } else {
                                Ok(
                                    FrameView {
                                        header: h,
                                        block_size: bs,
                                        sample_rate: sr,
                                        channels: ch,
                                        bit_depth: bd,
                                        assignment,
                                        subframes: subs,
                                        end,
                                    },
                                )
                            }
                        },
                    }
                }
            },
        },
    }
}

/// Reads the subframes of all channels of a frame.
#[verifier::rlimit(30)]
fn read_subframes(
    stream: &mut BitReader,
    channels: u8,
    depth: u8,
    assignment: Channel,
    block_size: u16,
) -> (r: Result<Vec<DecodedSubframe>, FlacError>)
    requires
        reader_ok(*old(stream)),
    ensures
        reader_ok(*final(stream)),
        final(stream).data@ == old(stream).data@,
        match spec_subframes(
            old(stream).data@,
            old(stream).bit_pos as int,
            0,
            channels as nat,
            depth as nat,
            assignment,
            block_size as nat,
        ) {
            Ok((subs, p)) => r matches Ok(v) && v@.map_values(|d: DecodedSubframe| d@) == subs
                && final(stream).bit_pos == p,
            Err(e) => r matches Err(e2) && e2 == e,
        },
{
    let ghost data = stream.data@;
    let ghost pos0 = stream.bit_pos as int;
    let ghost goal = spec_subframes(
        data,
        pos0,
        0,
        channels as nat,
        depth as nat,
        assignment,
        block_size as nat,
    );
    let mut subframes: Vec<DecodedSubframe> = Vec::new();
    proof {
        match goal {
            Ok((subs, p)) => {
                assert(subframes@.map_values(|d: DecodedSubframe| d@) + subs =~= subs);
            },
            Err(e) => {},
        }
    }
    let mut i: u8 = 0;
    while i < channels
        invariant
            i <= channels,
            reader_ok(*stream),
            stream.data@ == data,
            data == old(stream).data@,
            pos0 == old(stream).bit_pos,
            goal == spec_subframes(
                data,
                pos0,
                0,
                channels as nat,
                depth as nat,
                assignment,
                block_size as nat,
            ),
            match spec_subframes(
                data,
                stream.bit_pos as int,
                i as nat,
                channels as nat,
                depth as nat,
                assignment,
                block_size as nat,
            ) {
                Ok((rest, p)) => goal == Ok::<(Seq<(Subframe, Seq<i32>)>, int), FlacError>(
                    (subframes@.map_values(|d: DecodedSubframe| d@) + rest, p),
                ),
                Err(e) => goal == Err::<(Seq<(Subframe, Seq<i32>)>, int), FlacError>(e),
            },
        decreases channels - i,
    {
        let mut precision = depth as usize;
        match assignment {
            Channel::Independent => {},
            Channel::Leftside => {
                if i == 1 {
                    precision += 1;
                }
            },
            Channel::Sideright => {
                if i == 0 {
                    precision += 1;
                }
            },
            Channel::Midside => {
                if i == 1 {
                    precision += 1;
                }
            },
        }
        let ghost cur = stream.bit_pos as int;
        match try_read_subframe(stream, precision, block_size as u32) {
            Ok((subframe, samples)) => {
                let ghost before = subframes@.map_values(|d: DecodedSubframe| d@);
                let d = DecodedSubframe { subframe, samples };
                subframes.push(d);
                proof {
                    assert(subframes@.map_values(|d: DecodedSubframe| d@) =~= before.push(d@));
                    match spec_subframes(
                        data,
                        stream.bit_pos as int,
                        (i + 1) as nat,
                        channels as nat,
                        depth as nat,
                        assignment,
                        block_size as nat,
                    ) {
                        Ok((rest, p)) => {
                            assert(before + (seq![d@] + rest) =~= before.push(d@) + rest);
                        },
                        Err(e) => {},
                    }
                }
            },
            Err(e) => {
                return Err(e);
            },
        }
        i += 1;
    }
    proof {
        assert(subframes@.map_values(|d: DecodedSubframe| d@) + seq![] =~= subframes@.map_values(
            |d: DecodedSubframe| d@,
        ));
    }
    Ok(subframes)
}

/// Decodes the frame at byte `pos` of `buf`; `rate` and `depth` are the sample rate and bit
/// depth of the STREAMINFO block, when there was one.
#[verifier::rlimit(30)]
pub fn decode_frame(buf: &[u8], pos: usize, rate: Option<u32>, depth: Option<u8>) -> (r: Result<
    Frame,
    FlacError,
>)
    requires
        pos <= buf@.len(),
        8 * buf@.len() <= usize::MAX,
    ensures
        match spec_decode_frame(buf@, pos as int, rate, depth) {
            Ok(f) => r matches Ok(g) && g@ == f,
            Err(e) => r matches Err(e2) && e2 == e,
        },
        r matches Ok(g) ==> pos < g.end <= buf@.len(),
{
    let rest = vstd::slice::slice_subrange(buf, pos, buf.len());
    let header = match FrameHeader::try_new(rest) {
        Ok(h) => h,
        Err(e) => {
            return Err(e);
        },
    };
    if header.block_size_bits == 0 {
        return Err(FlacError::ReservedBlockSize);
    }
    let block_size = header.block_size();
    if header.sample_rate_bits == 15 {
        return Err(FlacError::ForbiddenSampleRate);
    }
    let streaminfo_rate = match rate {
        Some(r) => r,
        None => {
            if header.sample_rate_bits == 0 {
                return Err(FlacError::MissingStreaminfo);
            }
            0
        },
    };
    let sample_rate = header.sample_rate(streaminfo_rate);
    if header.channals_bits > 10 {
        return Err(FlacError::ReservedChannels);
    }
    let channel = header.channel();
    if header.bit_depth_bits == 3 {
        return Err(FlacError::ReservedBitDepth);
    }
    let streaminfo_depth = match depth {
        Some(d) => d,
        None => {
            if header.bit_depth_bits == 0 {
                return Err(FlacError::MissingStreaminfo);
            }
            0
        },
    };
    let bit_depth = header.bit_depth(streaminfo_depth);
    let hend = pos + header.pos;
    if header.crc != crc8(vstd::slice::slice_subrange(buf, pos, hend - 1)) {
        return Err(FlacError::HeaderCrcMismatch);
    }
    let assignment = header.channel_assignment();
    let mut stream = BitReader::new(vstd::slice::slice_subrange(buf, hend, buf.len()));
    let subframes = match read_subframes(&mut stream, channel, bit_depth, assignment, block_size) {
        Ok(s) => s,
        Err(e) => {
            return Err(e);
        },
    };
    let bits = stream.bit_pos;
    let temp = if bits % 8 == 0 {
        0
    } else {
        1
    };
    if buf.len() - hend < bits / 8 + temp + 2 {
        return Err(FlacError::TruncatedFrame);
    }
    let end = hend + bits / 8 + temp + 2;
    Ok(
        Frame {
            header,
            block_size,
            sample_rate,
            channels: channel,
            bit_depth,
            assignment,
            subframes,
            end,
        },
    )
}

/// Decoding the frames from byte `pos` to the end of `buf`, one after the other.
pub open spec fn spec_read_frames(buf: Seq<u8>, pos: int, rate: Option<u32>, depth: Option<u8>) -> Result<
    Seq<FrameView>,
    FlacError,
>
    decreases buf.len() - pos,
{
    if pos >= buf.len() {
        Ok(seq![])
    } else {
        match spec_decode_frame(buf, pos, rate, depth) {
            Err(e) => Err(e),
            Ok(f) => {
                // a decoded frame always ends after its start; this only makes the recursion's
                // end evident
                if f.end <= pos {
                    Err(FlacError::TruncatedFrame)
                } else {
                    match spec_read_frames(buf, f.end, rate, depth) {
                        Err(e) => Err(e),
                        Ok(rest) => Ok(seq![f] + rest),
                    }
                }
            },
        }
    }
}

/// Decodes all frames of `buf`, the audio data after the metadata blocks; `rate` and `depth`
/// are the sample rate and bit depth of the STREAMINFO block, when there was one.
pub fn try_read_frame(buf: &[u8], rate: Option<u32>, depth: Option<u8>) -> (r: Result<
    Vec<Frame>,
    FlacError,
>)
    requires
        8 * buf@.len() <= usize::MAX,
    ensures
        match spec_read_frames(buf@, 0, rate, depth) {
            Ok(fs) => r matches Ok(v) && v@.map_values(|f: Frame| f@) == fs,
            Err(e) => r matches Err(e2) && e2 == e,
        },
{
    let ghost goal = spec_read_frames(buf@, 0, rate, depth);
    let mut frames: Vec<Frame> = Vec::new();
    proof {
        match goal {
            Ok(fs) => {
                assert(frames@.map_values(|f: Frame| f@) + fs =~= fs);
            },
            Err(e) => {},
        }
    }
    let mut pos: usize = 0;
    while pos < buf.len()
        invariant
            pos <= buf@.len(),
            8 * buf@.len() <= usize::MAX,
            goal == spec_read_frames(buf@, 0, rate, depth),
            match spec_read_frames(buf@, pos as int, rate, depth) {
                Ok(rest) => goal == Ok::<Seq<FrameView>, FlacError>(
                    frames@.map_values(|f: Frame| f@) + rest,
                ),
                Err(e) => goal == Err::<Seq<FrameView>, FlacError>(e),
            },
        decreases buf@.len() - pos,
    {
        let frame = match decode_frame(buf, pos, rate, depth) {
            Ok(f) => f,
            Err(e) => {
                return Err(e);
            },
        };
        let next = frame.end;
        let ghost before = frames@.map_values(|f: Frame| f@);
        let ghost fv = frame@;
        frames.push(frame);
        proof {
            assert(frames@.map_values(|f: Frame| f@) =~= before.push(fv));
            match spec_read_frames(buf@, next as int, rate, depth) {
                Ok(rest) => {
                    assert(before + (seq![fv] + rest) =~= before.push(fv) + rest);
                },
                Err(e) => {},
            }
        }
        pos = next;
    }
    proof {
        assert(frames@.map_values(|f: Frame| f@) + seq![] =~= frames@.map_values(|f: Frame| f@));
    }
    Ok(frames)
}

/// Decodes the frames of a stream whose frames are all valid. `try_read_frame` is the form
/// that reports the first error.
pub fn read_frame(buf: &[u8], rate: Option<u32>, depth: Option<u8>) -> (r: Vec<Frame>)
    requires
        8 * buf@.len() <= usize::MAX,
        spec_read_frames(buf@, 0, rate, depth) is Ok,
    ensures
        spec_read_frames(buf@, 0, rate, depth) == Ok::<Seq<FrameView>, FlacError>(
            r@.map_values(|f: Frame| f@),
        ),
{
    try_read_frame(buf, rate, depth).unwrap()
}

} // verus!
