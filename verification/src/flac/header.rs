use vstd::prelude::*;
use vstd::arithmetic::power2::{pow2, lemma2_to64};
use crate::flac::error::FlacError;

verus! {

// ---------------------------------------------------------------------------------------------
// Checksums (RFC 9639, 9.1.8 and 9.3)
// ---------------------------------------------------------------------------------------------

/// The CRC-8 generator x^8 + x^2 + x + 1, without its leading term.
pub const CRC8_POLY: u8 = 0x07;

/// The CRC-16 generator x^16 + x^15 + x^2 + 1, without its leading term.
pub const CRC16_POLY: u16 = 0x8005;

/// One bit step of the CRC-8 register: shift left, and add the generator when a one bit
/// leaves.
pub open spec fn crc8_step(c: u8) -> u8 {
    if c & 0x80 != 0 {
        (c << 1u8) ^ CRC8_POLY
    } else {
        c << 1u8
    }
}

/// `k` bit steps of the CRC-8 register.
pub open spec fn crc8_steps(c: u8, k: nat) -> u8
    decreases k,
{
    if k == 0 {
        c
    } else {
        crc8_step(crc8_steps(c, (k - 1) as nat))
    }
}

/// The CRC-8 of the bytes: the register starts at 0 and takes in each byte, most significant
/// bit first.
pub open spec fn spec_crc8(data: Seq<u8>) -> u8
    decreases data.len(),
{
    if data.len() == 0 {
        0
    } else {
        crc8_steps(spec_crc8(data.drop_last()) ^ data.last(), 8)
    }
}

/// One bit step of the CRC-16 register.
pub open spec fn crc16_step(c: u16) -> u16 {
    if c & 0x8000 != 0 {
        (c << 1u16) ^ CRC16_POLY
    } else {
        c << 1u16
    }
}

/// `k` bit steps of the CRC-16 register.
pub open spec fn crc16_steps(c: u16, k: nat) -> u16
    decreases k,
{
    if k == 0 {
        c
    } else {
        crc16_step(crc16_steps(c, (k - 1) as nat))
    }
}

/// The CRC-16 of the bytes: the register starts at 0 and takes in each byte at its high end.
pub open spec fn spec_crc16(data: Seq<u8>) -> u16
    decreases data.len(),
{
    if data.len() == 0 {
        0
    } else {
        crc16_steps(spec_crc16(data.drop_last()) ^ ((data.last() as u16) << 8u16), 8)
    }
}

/// Law: appending their CRC-8 to the bytes makes the CRC-8 zero.
pub proof fn lemma_crc8_append(data: Seq<u8>)
    ensures
        spec_crc8(data.push(spec_crc8(data))) == 0,
{
    let c = spec_crc8(data);
    assert(data.push(c).drop_last() =~= data);
    assert(c ^ c == 0) by (bit_vector);
    reveal_with_fuel(crc8_steps, 9);
    assert(crc8_step(0) == 0) by (bit_vector);
}

/// Eight bit steps move a byte in the low half of the CRC-16 register to the high half.
proof fn lemma_crc16_byte_up(v: u16)
    requires
        v < 256,
    ensures
        crc16_steps(v, 8) == v << 8u16,
{
    reveal_with_fuel(crc16_steps, 9);
    assert(crc16_step(crc16_step(crc16_step(crc16_step(crc16_step(crc16_step(crc16_step(
        crc16_step(v),
    ))))))) == v << 8u16) by (bit_vector)
        requires
            v < 256,
    ;
}

/// Law: appending their CRC-16, most significant byte first, to the bytes makes the CRC-16
/// zero.
pub proof fn lemma_crc16_append(data: Seq<u8>)
    ensures
        spec_crc16(data.push((spec_crc16(data) >> 8u16) as u8).push(spec_crc16(data) as u8)) == 0,
{
    let c = spec_crc16(data);
    let hi = (c >> 8u16) as u8;
    let lo = c as u8;
    let d1 = data.push(hi);
    let d2 = d1.push(lo);
    assert(d2.drop_last() =~= d1);
    assert(d1.drop_last() =~= data);
    assert(c ^ ((hi as u16) << 8u16) == lo as u16) by (bit_vector)
        requires
            hi == (c >> 8u16) as u8,
            lo == c as u8,
    ;
    lemma_crc16_byte_up(lo as u16);
    assert(spec_crc16(d1) == (lo as u16) << 8u16);
    assert(((lo as u16) << 8u16) ^ ((lo as u16) << 8u16) == 0) by (bit_vector);
    reveal_with_fuel(crc16_steps, 9);
    assert(crc16_step(0) == 0) by (bit_vector);
}

/// The CRC-8 that protects a frame header.
pub fn crc8(data: &[u8]) -> (r: u8)
    ensures
        r == spec_crc8(data@),
{
    let mut crc: u8 = 0;
    let mut i: usize = 0;
    while i < data.len()
        invariant
            i <= data@.len(),
            crc == spec_crc8(data@.take(i as int)),
        decreases data@.len() - i,
    {
        proof {
            assert(data@.take(i + 1).drop_last() =~= data@.take(i as int));
        }
        crc ^= data[i];
        let ghost start = crc;
        let mut j: usize = 0;
        while j < 8
            invariant
                j <= 8,
                crc == crc8_steps(start, j as nat),
            decreases 8 - j,
        {
            if (crc & 0x80) != 0 {
                crc = (crc << 1u8) ^ CRC8_POLY;
            } else {
                crc = crc << 1u8;
            }
            j += 1;
        }
        i += 1;
    }
    proof {
        assert(data@.take(i as int) =~= data@);
    }
    crc
}

/// The CRC-16 that protects a whole frame.
pub fn crc16(data: &[u8]) -> (r: u16)
    ensures
        r == spec_crc16(data@),
{
    let mut crc: u16 = 0;
    let mut i: usize = 0;
    while i < data.len()
        invariant
            i <= data@.len(),
            crc == spec_crc16(data@.take(i as int)),
        decreases data@.len() - i,
    {
        proof {
            assert(data@.take(i + 1).drop_last() =~= data@.take(i as int));
        }
        crc ^= (data[i] as u16) << 8u16;
        let ghost start = crc;
        let mut j: usize = 0;
        while j < 8
            invariant
                j <= 8,
                crc == crc16_steps(start, j as nat),
            decreases 8 - j,
        {
            if (crc & 0x8000) != 0 {
                crc = (crc << 1u16) ^ CRC16_POLY;
            } else {
                crc = crc << 1u16;
            }
            j += 1;
        }
        i += 1;
    }
    proof {
        assert(data@.take(i as int) =~= data@);
    }
    crc
}

// ---------------------------------------------------------------------------------------------
// The coded number (RFC 9639, 9.1.5)
// ---------------------------------------------------------------------------------------------

/// The length of a coded number and the mask of the value bits of its first byte, given that
/// byte; `None` for a byte that starts no coded number.
pub open spec fn coded_number_shape(first: u8) -> Option<(nat, u8)> {
    if first & 0x80 == 0 {
        Some((1, 0x7F))
    } else if first & 0xE0 == 0xC0 {
        Some((2, 0x1F))
    } else if first & 0xF0 == 0xE0 {
        Some((3, 0x0F))
    } else if first & 0xF8 == 0xF0 {
        Some((4, 0x07))
    } else if first & 0xFC == 0xF8 {
        Some((5, 0x03))
    } else if first & 0xFE == 0xFC {
        Some((6, 0x01))
    } else if first == 0xFE {
        Some((7, 0x00))
    } else {
        None
    }
}

/// The value of the first `k` bytes of a coded number: the value bits of the first byte, then
/// six bits from each following byte.
pub open spec fn coded_value(bytes: Seq<u8>, mask: u8, k: nat) -> nat
    decreases k,
{
    if k <= 1 {
        (bytes[0] & mask) as nat
    } else {
        coded_value(bytes, mask, (k - 1) as nat) * 64 + (bytes[k - 1] & 0x3F) as nat
    }
}

/// Decoding the coded number at the start of `bytes`: its value and its length in bytes.
pub open spec fn spec_decode_number(bytes: Seq<u8>) -> Result<(u64, usize), FlacError> {
    if bytes.len() == 0 {
        Err(FlacError::TruncatedFrame)
    } else {
        match coded_number_shape(bytes[0]) {
            None => Err(FlacError::InvalidCodedNumber),
            Some((len, mask)) => {
                if bytes.len() < len {
                    Err(FlacError::TruncatedFrame)
                } else if exists|i: int| 1 <= i < len && #[trigger] bytes[i] & 0xC0 != 0x80 {
                    Err(FlacError::InvalidCodedNumber)
                } else {
                    Ok((coded_value(bytes, mask, len) as u64, len as usize))
                }
            },
        }
    }
}

proof fn lemma_coded_value_bound(bytes: Seq<u8>, mask: u8, k: nat)
    requires
        mask <= 0x7F,
    ensures
        coded_value(bytes, mask, k) < pow2((7 + 6 * k) as nat),
    decreases k,
{
    lemma2_to64();
    if k <= 1 {
        let b0 = bytes[0];
        assert((b0 & mask) <= mask) by (bit_vector);
        if k == 1 {
            vstd::arithmetic::power2::lemma_pow2_strictly_increases(7, 13);
        }
    } else {
        lemma_coded_value_bound(bytes, mask, (k - 1) as nat);
        let b = bytes[k - 1];
        assert((b & 0x3F) < 64) by (bit_vector);
        vstd::arithmetic::power2::lemma_pow2_adds((7 + 6 * (k - 1)) as nat, 6);
        assert((7 + 6 * (k - 1)) as nat + 6 == (7 + 6 * k) as nat);
        let v = coded_value(bytes, mask, (k - 1) as nat);
        let p = pow2((7 + 6 * (k - 1)) as nat);
        assert((v * 64 + ((b & 0x3F) as nat)) < p * 64) by (nonlinear_arith)
            requires
                v < p,
                (b & 0x3F) < 64,
        ;
    }
}

/// Decodes the coded number (the frame or sample number) at the start of `bytes`, giving its
/// value and its length in bytes.
pub fn try_decode_number(bytes: &[u8]) -> (r: Result<(u64, usize), FlacError>)
    ensures
        r == spec_decode_number(bytes@),
{
    if bytes.len() == 0 {
        return Err(FlacError::TruncatedFrame);
    }
    let first = bytes[0];
    let (len, mask): (usize, u8) = if first & 0b1000_0000 == 0 {
        (1, 0x7F)
    } else if first & 0b1110_0000 == 0b1100_0000 {
        (2, 0x1F)
    } else if first & 0b1111_0000 == 0b1110_0000 {
        (3, 0x0F)
    } else if first & 0b1111_1000 == 0b1111_0000 {
        (4, 0x07)
    } else if first & 0b1111_1100 == 0b1111_1000 {
        (5, 0x03)
    } else if first & 0b1111_1110 == 0b1111_1100 {
        (6, 0x01)
    } else if first == 0b1111_1110 {
        (7, 0x00)
    } else {
        return Err(FlacError::InvalidCodedNumber);
    };
    if bytes.len() < len {
        return Err(FlacError::TruncatedFrame);
    }
    let mut value = (first & mask) as u64;
    let mut i: usize = 1;
    while i < len
        invariant
            1 <= i <= len <= 7,
            len <= bytes@.len(),
            coded_number_shape(bytes@[0]) == Some((len as nat, mask)),
            mask <= 0x7F,
            value == coded_value(bytes@, mask, i as nat),
            forall|k: int| 1 <= k < i ==> #[trigger] bytes@[k] & 0xC0 == 0x80,
        decreases len - i,
    {
        let b = bytes[i];
        if b & 0xc0 != 0x80 {
            return Err(FlacError::InvalidCodedNumber);
        }
        proof {
            lemma_coded_value_bound(bytes@, mask, i as nat);
            vstd::arithmetic::power2::lemma_pow2_strictly_increases((7 + 6 * i) as nat, 58);
            lemma2_to64();
            assert(pow2(58) == 0x400_0000_0000_0000) by {
                vstd::arithmetic::power2::lemma2_to64_rest();
            }
            assert((value << 6u64) | ((b & 0x3f) as u64) == value * 64 + (b & 0x3f) as u64)
                by (bit_vector)
                requires
                    value < 0x400_0000_0000_0000,
            ;
        }
        value = (value << 6u64) | ((b & 0x3f) as u64);
        i += 1;
    }
    proof {
        assert(!exists|k: int| 1 <= k < len && #[trigger] bytes@[k] & 0xC0 != 0x80);
    }
    Ok((value, len))
}

// ---------------------------------------------------------------------------------------------
// The frame header (RFC 9639, 9.1)
// ---------------------------------------------------------------------------------------------

/// How the channels of a frame are coded (RFC 9639, 4.2).
#[derive(Debug, Clone, Copy, PartialEq, Eq, Structural)]
pub enum Channel {
    /// Each channel on its own.
    Independent,
    /// Left and side (left minus right).
    Leftside,
    /// Mid (average) and side.
    Midside,
    /// Side and right.
    Sideright,
}

/// The fields of a frame header, and the length of the header in bytes (`pos`).
#[derive(Debug, Clone, Copy, PartialEq, Eq, Structural)]
pub struct FrameHeader {
    /// The sync code, 0xFFF8 (its last bit cleared).
    pub frame_sync_code: u16,
    /// 0 for fixed-size blocks, 1 for variable-size blocks.
    pub blocking_strategy_bit: bool,
    pub block_size_bits: u8,
    pub sample_rate_bits: u8,
    pub channals_bits: u8,
    pub bit_depth_bits: u8,
    /// The frame number (fixed blocks) or sample number (variable blocks).
    pub code_number: u64,
    /// The uncommon block size read after the coded number, 0 when none is read.
    pub uncommon_block_size: u16,
    /// The uncommon sample rate field read after it (kHz, Hz or tens of Hz, by the sample rate
    /// bits), 0 when none is read.
    pub uncommon_sample_rate: u32,
    /// The header's CRC-8.
    pub crc: u8,
    /// The length of the header, its CRC included.
    pub pos: usize,
}

/// The big-endian number in the two bytes from `at`.
pub open spec fn be16(buf: Seq<u8>, at: int) -> int {
    buf[at] * 256 + buf[at + 1]
}

/// The uncommon block size that follows the coded number at `p`, and the position after it:
/// 8 bits plus one for block size bits 6, 16 bits plus one for 7, nothing otherwise.
pub open spec fn spec_uncommon_block_size(buf: Seq<u8>, bits: u8, p: int) -> Result<(u16, int), FlacError> {
    if bits == 6 {
        if p + 1 > buf.len() {
            Err(FlacError::TruncatedFrame)
        } else {
            Ok(((buf[p] + 1) as u16, p + 1))
        }
    } else if bits == 7 {
        if p + 2 > buf.len() {
            Err(FlacError::TruncatedFrame)
        } else if be16(buf, p) == 0xFFFF {
            Err(FlacError::BlockSizeOverflow)
        } else {
            Ok(((be16(buf, p) + 1) as u16, p + 2))
        }
    } else {
        Ok((0, p))
    }
}

/// The uncommon sample rate that follows at `p`, and the position after it: 8 bits (kHz) for
/// sample rate bits 12, 16 bits (Hz) for 13, 16 bits (tens of Hz) for 14, nothing otherwise.
pub open spec fn spec_uncommon_sample_rate(buf: Seq<u8>, bits: u8, p: int) -> Result<(u32, int), FlacError> {
    if bits == 12 {
        if p + 1 > buf.len() {
            Err(FlacError::TruncatedFrame)
        } else {
            Ok((buf[p] as u32, p + 1))
        }
    } else if bits == 13 || bits == 14 {
        if p + 2 > buf.len() {
            Err(FlacError::TruncatedFrame)
        } else {
            Ok((be16(buf, p) as u32, p + 2))
        }
    } else {
        Ok((0, p))
    }
}

/// Reading a frame header at the start of `buf`.
pub open spec fn spec_frame_header(buf: Seq<u8>) -> Result<FrameHeader, FlacError> {
    if buf.len() < 2 {
        Err(FlacError::TruncatedFrame)
    } else if !(buf[0] == 0xFF && buf[1] & 0xFE == 0xF8) {
        Err(FlacError::BadSyncCode)
    } else if buf.len() < 4 {
        Err(FlacError::TruncatedFrame)
    } else {
        let bs = buf[2] >> 4u8;
        let sr = buf[2] & 0x0F;
        match spec_decode_number(buf.subrange(4, buf.len() as int)) {
            Err(e) => Err(e),
            Ok((number, len)) => match spec_uncommon_block_size(buf, bs, 4 + len) {
                Err(e) => Err(e),
                Ok((ubs, p2)) => match spec_uncommon_sample_rate(buf, sr, p2) {
                    Err(e) => Err(e),
                    Ok((usr, p3)) => {
                        if p3 >= buf.len() {
                            Err(FlacError::TruncatedFrame)
                        } else {
                            Ok(
                                FrameHeader {
                                    frame_sync_code: 0xFFF8,
                                    blocking_strategy_bit: buf[1] & 1 == 1,
                                    block_size_bits: bs,
                                    sample_rate_bits: sr,
                                    channals_bits: buf[3] >> 4u8,
                                    bit_depth_bits: (buf[3] >> 1u8) & 0x07,
                                    code_number: number,
                                    uncommon_block_size: ubs,
                                    uncommon_sample_rate: usr,
                                    crc: buf[p3],
                                    pos: (p3 + 1) as usize,
                                },
                            )
                        }
                    },
                },
            },
        }
    }
}

/// The block size that the block size bits give (RFC 9639, 9.1.1).
pub open spec fn spec_block_size(bits: u8, uncommon: u16) -> int {
    if bits == 1 {
        192
    } else if 2 <= bits <= 5 {
        (144 * pow2(bits as nat)) as int
    } else if bits == 6 || bits == 7 {
        uncommon as int
    } else {
        pow2(bits as nat) as int
    }
}

/// The sample rate that the sample rate bits give (RFC 9639, 9.1.2), with `streaminfo` the
/// rate of the STREAMINFO block for bits 0.
pub open spec fn spec_sample_rate(bits: u8, uncommon: u32, streaminfo: u32) -> int {
    if bits == 0 {
        streaminfo as int
    } else if bits == 1 {
        88_200
    } else if bits == 2 {
        176_400
    } else if bits == 3 {
        192_000
    } else if bits == 4 {
        8_000
    } else if bits == 5 {
        16_000
    } else if bits == 6 {
        22_050
    } else if bits == 7 {
        24_000
    } else if bits == 8 {
        32_000
    } else if bits == 9 {
        44_100
    } else if bits == 10 {
        48_000
    } else if bits == 11 {
        96_000
    } else if bits == 12 {
        1000 * uncommon
    } else if bits == 14 {
        10 * uncommon
    } else {
        uncommon as int
    }
}

/// Law: sample rate bits 1 to 11 name the fixed rates of RFC 9639, 9.1.2, whatever the
/// uncommon and STREAMINFO rates are, and no two of these codes name the same rate.
pub proof fn lemma_common_sample_rates(bits: u8, other: u8, u: u32, s: u32)
    ensures
        spec_sample_rate(1, u, s) == 88_200,
        spec_sample_rate(2, u, s) == 176_400,
        spec_sample_rate(3, u, s) == 192_000,
        spec_sample_rate(4, u, s) == 8_000,
        spec_sample_rate(5, u, s) == 16_000,
        spec_sample_rate(6, u, s) == 22_050,
        spec_sample_rate(7, u, s) == 24_000,
        spec_sample_rate(8, u, s) == 32_000,
        spec_sample_rate(9, u, s) == 44_100,
        spec_sample_rate(10, u, s) == 48_000,
        spec_sample_rate(11, u, s) == 96_000,
        spec_sample_rate(0, u, s) == s,
        spec_sample_rate(12, u, s) == 1000 * u,
        spec_sample_rate(13, u, s) == u,
        spec_sample_rate(14, u, s) == 10 * u,
        1 <= bits <= 11 && 1 <= other <= 11 && bits != other ==> spec_sample_rate(bits, u, s)
            != spec_sample_rate(other, u, s),
{
}

/// The bit depth that the bit depth bits give (RFC 9639, 9.1.4), with `streaminfo` the depth
/// of the STREAMINFO block for bits 0.
pub open spec fn spec_bit_depth(bits: u8, streaminfo: u8) -> int {
    if bits == 0 {
        streaminfo as int
    } else if bits == 1 {
        8
    } else if bits == 2 {
        12
    } else if bits == 7 {
        32
    } else {
        4 * bits
    }
}

/// Law: the block size bits give 192 samples for 1, 576 for 2 doubling up to 4608 for 5, the
/// uncommon size for 6 and 7, and 256 for 8 doubling up to 32768 for 15 (RFC 9639, 9.1.1).
pub proof fn lemma_block_size_table(bits: u8, u: u16)
    ensures
        spec_block_size(1, u) == 192,
        spec_block_size(2, u) == 576,
        spec_block_size(5, u) == 4608,
        spec_block_size(6, u) == u,
        spec_block_size(7, u) == u,
        spec_block_size(8, u) == 256,
        spec_block_size(15, u) == 32768,
        (2 <= bits < 5 || 8 <= bits < 15) ==> spec_block_size((bits + 1) as u8, u) == 2
            * spec_block_size(bits, u),
{
    lemma2_to64();
    if 2 <= bits < 5 || 8 <= bits < 15 {
        vstd::arithmetic::power2::lemma_pow2_unfold((bits + 1) as nat);
    }
}

/// Law: the bit depth bits give 8, 12, 16, 20, 24 and 32 bits per sample for 1, 2, 4, 5, 6
/// and 7, and the STREAMINFO depth for 0 (RFC 9639, 9.1.4).
pub proof fn lemma_bit_depth_table(d: u8)
    ensures
        spec_bit_depth(0, d) == d,
        spec_bit_depth(1, d) == 8,
        spec_bit_depth(2, d) == 12,
        spec_bit_depth(4, d) == 16,
        spec_bit_depth(5, d) == 20,
        spec_bit_depth(6, d) == 24,
        spec_bit_depth(7, d) == 32,
{
}

/// Law: channel bits below 8 give that many channels plus one, coded independently; 8, 9 and
/// 10 give two channels coded as left/side, side/right and mid/side (RFC 9639, 9.1.3).
pub proof fn lemma_channel_table(bits: u8)
    ensures
        bits < 8 ==> spec_channels(bits) == bits + 1 && spec_channel_assignment(bits)
            == Channel::Independent,
        spec_channels(8) == 2 && spec_channel_assignment(8) == Channel::Leftside,
        spec_channels(9) == 2 && spec_channel_assignment(9) == Channel::Sideright,
        spec_channels(10) == 2 && spec_channel_assignment(10) == Channel::Midside,
{
}

/// The channel coding that the channel bits give (RFC 9639, 9.1.3).
pub open spec fn spec_channel_assignment(bits: u8) -> Channel {
    if bits < 8 {
        Channel::Independent
    } else if bits == 8 {
        Channel::Leftside
    } else if bits == 9 {
        Channel::Sideright
    } else {
        Channel::Midside
    }
}

/// The number of channels that the channel bits give.
pub open spec fn spec_channels(bits: u8) -> int {
    if bits < 8 {
        bits + 1
    } else {
        2
    }
}

impl FrameHeader {
    /// Reads the frame header at the start of `buf`.
    pub fn try_new(buf: &[u8]) -> (r: Result<FrameHeader, FlacError>)
        ensures
            r == spec_frame_header(buf@),
            r matches Ok(h) ==> h.block_size_bits <= 15 && h.sample_rate_bits <= 15
                && h.channals_bits <= 15 && h.bit_depth_bits <= 7 && 1 <= h.pos <= buf@.len()
                && h.uncommon_sample_rate <= 0xFFFF,
    {
        if buf.len() < 2 {
            return Err(FlacError::TruncatedFrame);
        }
        let b0 = buf[0];
        let b1 = buf[1];
        let temp = ((b0 as u16) << 8u16) | (b1 as u16);
        let frame_sync_code = temp & (!1u16);
        assert((((b0 as u16) << 8u16) | (b1 as u16)) & (!1u16) == 0xFFF8 <==> (b0 == 0xFF && b1
            & 0xFE == 0xF8)) by (bit_vector);
        assert((((b0 as u16) << 8u16) | (b1 as u16)) & 1 == 1 <==> b1 & 1 == 1) by (bit_vector);
        if frame_sync_code != 0xFFF8 {
            return Err(FlacError::BadSyncCode);
        }
        if buf.len() < 4 {
            return Err(FlacError::TruncatedFrame);
        }
        let blocking_strategy_bit = temp & 1 == 1;
        let b2 = buf[2];
        let b3 = buf[3];
        assert((b2 >> 4u8) <= 15 && (b2 & 0x0F) <= 15 && (b3 >> 4u8) <= 15 && ((b3 >> 1u8) & 0x07)
            <= 7) by (bit_vector);
        let block_size_bits = buf[2] >> 4u8;
        let sample_rate_bits = buf[2] & 0x0F;
        let channals_bits = buf[3] >> 4u8;
        let bit_depth_bits = (buf[3] >> 1u8) & 0x07;
        let (code_number, len) = match try_decode_number(
            vstd::slice::slice_subrange(buf, 4, buf.len()),
        ) {
            Ok(x) => x,
            Err(e) => {
                return Err(e);
            },
        };
        proof {
            assert(buf@.subrange(4, buf@.len() as int).len() >= len);
        }
        let mut pos = 4 + len;
        let uncommon_block_size: u16 = if block_size_bits == 6 {
            if pos + 1 > buf.len() {
                return Err(FlacError::TruncatedFrame);
            }
            pos += 1;
            buf[pos - 1] as u16 + 1
        } else if block_size_bits == 7 {
            if pos + 2 > buf.len() {
                return Err(FlacError::TruncatedFrame);
            }
            pos += 2;
            let v = (buf[pos - 2] as u16) * 256 + buf[pos - 1] as u16;
            if v == 0xFFFF {
                return Err(FlacError::BlockSizeOverflow);
            }
            v + 1
        } else {
            0
        };
        let uncommon_sample_rate: u32 = if sample_rate_bits == 12 {
            if pos + 1 > buf.len() {
                return Err(FlacError::TruncatedFrame);
            }
            pos += 1;
            buf[pos - 1] as u32
        } else if sample_rate_bits == 13 || sample_rate_bits == 14 {
            if pos + 2 > buf.len() {
                return Err(FlacError::TruncatedFrame);
            }
            pos += 2;
            (buf[pos - 2] as u32) * 256 + buf[pos - 1] as u32
        } else {
            0
        };
        if pos >= buf.len() {
            return Err(FlacError::TruncatedFrame);
        }
        let crc = buf[pos];
        pos += 1;
        Ok(
            FrameHeader {
                frame_sync_code,
                blocking_strategy_bit,
                block_size_bits,
                sample_rate_bits,
                channals_bits,
                bit_depth_bits,
                code_number,
                uncommon_block_size,
                uncommon_sample_rate,
                crc,
                pos,
            },
        )
    }

    /// The block size, in samples per channel.
    pub fn block_size(&self) -> (r: u16)
        requires
            1 <= self.block_size_bits <= 15,
        ensures
            r == spec_block_size(self.block_size_bits, self.uncommon_block_size),
    {
        let bits = self.block_size_bits;
        proof {
            lemma2_to64();
        }
        if bits == 1 {
            192
        } else if bits <= 5 {
            let k = bits as u16;
            proof {
                vstd::bits::lemma_u16_shl_is_mul(1, k);
                if k < 5 {
                    vstd::arithmetic::power2::lemma_pow2_strictly_increases(k as nat, 5);
                }
            }
            144 * (1u16 << k)
        } else if bits <= 7 {
            self.uncommon_block_size
        } else {
            let k = bits as u16;
            proof {
                vstd::bits::lemma_u16_shl_is_mul(1, k);
                if k < 15 {
                    vstd::arithmetic::power2::lemma_pow2_strictly_increases(k as nat, 15);
                }
                assert(pow2(15) == 32768);
            }
            1u16 << k
        }
    }

    /// The sample rate in Hz; `streaminfo` is the STREAMINFO rate, used for sample rate bits 0.
    pub fn sample_rate(&self, streaminfo: u32) -> (r: u32)
        requires
            self.sample_rate_bits <= 14,
            self.sample_rate_bits == 12 ==> 1000 * self.uncommon_sample_rate <= u32::MAX,
            self.sample_rate_bits == 14 ==> 10 * self.uncommon_sample_rate <= u32::MAX,
        ensures
            r == spec_sample_rate(self.sample_rate_bits, self.uncommon_sample_rate, streaminfo),
    {
        match self.sample_rate_bits {
            0 => streaminfo,
            1 => 88_200,
            2 => 176_400,
            3 => 192_000,
            4 => 8_000,
            5 => 16_000,
            6 => 22_050,
            7 => 24_000,
            8 => 32_000,
            9 => 44_100,
            10 => 48_000,
            11 => 96_000,
            12 => 1000 * self.uncommon_sample_rate,
            13 => self.uncommon_sample_rate,
            _ => 10 * self.uncommon_sample_rate,
        }
    }

    /// The number of channels.
    pub fn channel(&self) -> (r: u8)
        requires
            self.channals_bits <= 10,
        ensures
            r == spec_channels(self.channals_bits),
    {
        if self.channals_bits < 8 {
            self.channals_bits + 1
        } else {
            2
        }
    }

    /// How the channels are coded.
    pub fn channel_assignment(&self) -> (r: Channel)
        requires
            self.channals_bits <= 10,
        ensures
            r == spec_channel_assignment(self.channals_bits),
    {
        if self.channals_bits < 8 {
            Channel::Independent
        } else if self.channals_bits == 8 {
            Channel::Leftside
        } else if self.channals_bits == 9 {
            Channel::Sideright
        } else {
            Channel::Midside
        }
    }

    /// The bits per sample; `streaminfo` is the STREAMINFO depth, used for bit depth bits 0.
    pub fn bit_depth(&self, streaminfo: u8) -> (r: u8)
        requires
            self.bit_depth_bits <= 7,
            self.bit_depth_bits != 3,
        ensures
            r == spec_bit_depth(self.bit_depth_bits, streaminfo),
    {
        match self.bit_depth_bits {
            0 => streaminfo,
            1 => 8,
            2 => 12,
            7 => 32,
            b => 4 * b,
        }
    }
}

/// Decodes a valid coded number at the start of `bytes`, giving its value and its length in
/// bytes. `try_decode_number` is the form that reports an invalid or truncated one.
pub fn decode_number(bytes: &[u8]) -> (r: (u64, usize))
    requires
        spec_decode_number(bytes@) is Ok,
    ensures
        spec_decode_number(bytes@) == Ok::<(u64, usize), FlacError>(r),
{
    try_decode_number(bytes).unwrap()
}

impl FrameHeader {
    /// Reads a valid frame header at the start of `buf`. `try_new` is the form that reports a
    /// bad sync code, a truncated header or an invalid field.
    pub fn new(buf: &[u8]) -> (h: FrameHeader)
        requires
            spec_frame_header(buf@) is Ok,
        ensures
            spec_frame_header(buf@) == Ok::<FrameHeader, FlacError>(h),
            h.block_size_bits <= 15 && h.sample_rate_bits <= 15 && h.channals_bits <= 15
                && h.bit_depth_bits <= 7 && 1 <= h.pos <= buf@.len() && h.uncommon_sample_rate
                <= 0xFFFF,
    {
        FrameHeader::try_new(buf).unwrap()
    }
}

} // verus!
