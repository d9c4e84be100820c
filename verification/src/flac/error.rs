use vstd::prelude::*;

verus! {

/// Why a FLAC stream, one of its metadata blocks or one of its frames was rejected.
#[derive(Debug, Clone, Copy, PartialEq, Eq, Structural)]
pub enum FlacError {
    /// A metadata block header or its data runs past the end of the buffer.
    TruncatedBlock,
    /// A metadata block has the forbidden type 127.
    ForbiddenBlockType,
    /// The STREAMINFO block is not 34 bytes long.
    StreaminfoLength,
    /// A second STREAMINFO block.
    DuplicateStreaminfo,
    /// A field of a metadata block runs past the end of the block.
    TruncatedField,
    /// A text field is not valid UTF-8.
    InvalidUtf8,
    /// A frame header runs past the end of the buffer.
    TruncatedFrame,
    /// A frame does not start with the sync code.
    BadSyncCode,
    /// The coded number of a frame header starts with a byte that no coded number starts
    /// with, or a following byte is not a continuation byte.
    InvalidCodedNumber,
    /// An uncommon block size stored as 16 bits is 65535, so the block size does not fit.
    BlockSizeOverflow,
    /// The frame header's CRC-8 does not match.
    HeaderCrcMismatch,
    /// The block size bits are the reserved value 0.
    ReservedBlockSize,
    /// The sample rate bits are the forbidden value 15.
    ForbiddenSampleRate,
    /// The channel bits are one of the reserved values 11 to 15.
    ReservedChannels,
    /// The bit depth bits are the reserved value 3.
    ReservedBitDepth,
    /// The frame takes its sample rate or bit depth from STREAMINFO, and there was none.
    MissingStreaminfo,
    /// The subframe data runs past the end of the frame data.
    UnexpectedEnd,
    /// The first bit of a subframe header is not zero.
    SubframePadding,
    /// The subframe type is one of the reserved values.
    ReservedSubframeType,
    /// The wasted bits flag leaves no bits per sample.
    WastedBits,
    /// The residual coding method is one of the reserved values 2 and 3.
    ReservedResidualCoding,
    /// The first residual partition is shorter than the predictor order.
    PartitionTooSmall,
    /// The linear predictor's right shift is negative.
    NegativeShift,
    /// A sample or its prediction needs more bits than the decoder holds.
    SampleRange,
}

} // verus!
