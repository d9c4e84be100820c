//! The registered application IDs of APPLICATION blocks (RFC 9639, 12.2), named by their
//! four ASCII characters.
#![allow(non_upper_case_globals)]
use vstd::prelude::*;

verus! {

/// FlacFile
pub const ATCH: u32 = 0x4154_4348;

/// beSolo
pub const BSOL: u32 = 0x4253_4F4C;

/// Bugs Player
pub const BUGS: u32 = 0x4255_4753;

/// GoldWave cue points
pub const Cues: u32 = 0x4375_6573;

/// CUE Splitter
pub const Fica: u32 = 0x4669_6361;

/// flac-tools
pub const Ftol: u32 = 0x4674_6F6C;

/// MOTB MetaCzar
pub const MOTB: u32 = 0x4D4F_5442;

/// MP3 Stream Editor
pub const MPSE: u32 = 0x4D50_5345;

/// MusicML: Music Metadata Language
pub const MuML: u32 = 0x4D75_4D4C;

/// Sound Devices RIFF chunk storage
pub const RIFF: u32 = 0x5249_4646;

/// Sound Font FLAC
pub const SFFL: u32 = 0x5346_464C;

/// Sony Creative Software
pub const SONY: u32 = 0x534F_4E59;

/// flacsqueeze
pub const SQEZ: u32 = 0x5351_455A;

/// TwistedWave
pub const TtWv: u32 = 0x5474_5776;

/// UITS Embedding tools
pub const UITS: u32 = 0x5549_5453;

/// FLAC AIFF chunk storage
pub const aiff: u32 = 0x6169_6666;

/// flac-image
pub const imag: u32 = 0x696D_6167;

/// Parseable Embedded Extensible Metadata
pub const peem: u32 = 0x7065_656D;

/// QFLAC Studio
pub const qfst: u32 = 0x7166_7374;

/// FLAC RIFF chunk storage
pub const riff: u32 = 0x7269_6666;

/// TagTuner
pub const tune: u32 = 0x7475_6E65;

/// FLAC Wave64 chunk storage
pub const w64: u32 = 0x7736_3420;

/// XBAT
pub const xbat: u32 = 0x7862_6174;

/// xmcd
pub const xmcd: u32 = 0x786D_6364;

} // verus!
