use vstd::prelude::*;

verus! {

/// Why a PNG stream, one of its chunks, or its compressed image data was rejected.
#[derive(Debug, Clone, Copy, PartialEq, Eq, Structural)]
pub enum PngError {
    /// A chunk's length, type, data or CRC field runs past the end of the buffer.
    TruncatedChunk,
    /// The stream does not hold exactly one IHDR chunk.
    IhdrCount,
    /// The stream holds more than one PLTE chunk.
    PlteCount,
    /// The stream holds no IDAT chunk.
    NoIdat,
    /// The stream does not hold exactly one IEND chunk.
    IendCount,
    /// IDAT chunks are separated by another chunk.
    IdatNotConsecutive,
    /// A PLTE chunk is present but no IDAT chunk follows it.
    PlteWithoutIdat,
    /// A PLTE chunk does not come before the first IDAT chunk.
    PlteAfterIdat,
    /// The first chunk is not IHDR.
    IhdrNotFirst,
    /// The last chunk is not IEND.
    IendNotLast,
    /// A chunk type byte is not an ASCII letter.
    InvalidChunkTypeByte,
    /// The IHDR chunk holds fewer than 13 bytes.
    IhdrTooShort,
    /// The colour type is not 0, 2, 3, 4 or 6.
    InvalidColorType,
    /// The compression method is not 0.
    InvalidCompressionMethod,
    /// The filter method is not 0.
    InvalidFilterMethod,
    /// The interlace method is not 0 or 1.
    InvalidInterlaceMethod,
    /// The PLTE chunk's length is not a multiple of 3.
    PaletteLength,
    /// The zlib stream is too short for its header and trailer.
    ZlibTooShort,
    /// The zlib compression method is not 8 (deflate).
    ZlibCompressionMethod,
    /// The zlib window size field is above 7.
    ZlibWindowSize,
    /// The zlib header check bits do not match.
    ZlibHeaderCheck,
    /// The Adler-32 checksum of the inflated data does not match the trailer.
    Adler32Mismatch,
    /// The deflate stream ends in the middle of a block.
    UnexpectedEnd,
    /// A deflate block has the reserved block type 3.
    ReservedBlockType,
    /// A stored block's length and its one's complement disagree.
    StoredLengthMismatch,
    /// A literal/length symbol above 285 was decoded.
    InvalidLengthSymbol,
    /// A distance symbol above 29 was decoded.
    InvalidDistanceSymbol,
    /// A back-reference reaches before the start of the output.
    DistanceTooFar,
    /// The code lengths of a dynamic block overflow the length table.
    TooManyCodeLengths,
    /// A dynamic block repeats the previous code length before any was given.
    RepeatWithoutPrevious,
    /// A dynamic block gives more codes than its code table can hold.
    TooManyCodes,
    /// The image height is zero.
    ZeroHeight,
    /// The inflated image data is shorter than one byte per row.
    EmptyScanline,
    /// A scanline starts with a filter type above 4.
    InvalidFilterType,
    /// A text chunk lacks a null separator.
    MissingNullSeparator,
    /// A text field is not valid UTF-8.
    InvalidUtf8,
    /// An iTXt chunk ends before its compression fields.
    TruncatedText,
    /// A chunk's length field differs from the length its type requires.
    WrongChunkLength,
    /// A chunk's data does not have the length its fields take.
    ChunkDataLength,
}

} // verus!
