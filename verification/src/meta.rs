//! Metadata sub-block identifiers.

use vstd::prelude::*;

verus! {

/// The identifier bits proper (the two high bits are framing flags).
pub const ID_UNIQUE: u8 = 0x3f;
/// Framing flag: the data has odd length and is followed by a pad byte.
pub const ODD_SIZE: u8 = 0x40;
/// Framing flag: the size field is three bytes.
pub const LARGE: u8 = 0x80;

pub const DECORR_TERMS: u8 = 0x2;
pub const DECORR_WEIGHTS: u8 = 0x3;
pub const DECORR_SAMPLES: u8 = 0x4;
pub const ENTROPY_VARS: u8 = 0x5;
pub const HYBRID_PROFILE: u8 = 0x6;
pub const SHAPING_WEIGHTS: u8 = 0x7;
pub const FLOAT_INFO: u8 = 0x8;
pub const INT32_INFO: u8 = 0x9;
pub const WV_BITSTREAM: u8 = 0xa;
pub const WVC_BITSTREAM: u8 = 0xb;
pub const WVX_BITSTREAM: u8 = 0xc;
pub const DSD_BLOCK: u8 = 0xe;

} // verus!
