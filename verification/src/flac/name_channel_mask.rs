//! The speaker bits of the WAVEFORMATEXTENSIBLE_CHANNEL_MASK comment (RFC 9639, 8.6.2).
use vstd::prelude::*;

verus! {

/// The mask with no speaker bit set.
pub const WAVEFORMATEXTENSIBLE_CHANNEL_MASK: u16 = 0;

pub const FRONT_LEFT: u32 = 1 << 0;

pub const FRONT_RIGHT: u32 = 1 << 1;

pub const FRONT_CENTER: u32 = 1 << 2;

pub const LFE: u32 = 1 << 3;

pub const BACK_LEFT: u32 = 1 << 4;

pub const BACK_RIGHT: u32 = 1 << 5;

pub const FRONT_LEFT_OF_CENTER: u32 = 1 << 6;

pub const FRONT_RIGHT_OF_CENTER: u32 = 1 << 7;

pub const BACK_CENTER: u32 = 1 << 8;

pub const SIDE_LEFT: u32 = 1 << 9;

pub const SIDE_RIGHT: u32 = 1 << 10;

pub const TOP_CENTER: u32 = 1 << 11;

pub const TOP_FRONT_LEFT: u32 = 1 << 12;

pub const TOP_FRONT_CENTER: u32 = 1 << 13;

pub const TOP_FRONT_RIGHT: u32 = 1 << 14;

pub const TOP_REAR_LEFT: u32 = 1 << 15;

pub const TOP_REAR_CENTER: u32 = 1 << 16;

pub const TOP_REAR_RIGHT: u32 = 1 << 17;

} // verus!
