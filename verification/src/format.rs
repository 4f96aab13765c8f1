//! Format constants of the WavPack v5 block stream.

use vstd::prelude::*;

verus! {

/// The four bytes that open every block: `wvpk`.
pub const MAGIC: [u8; 4] = [0x77, 0x76, 0x70, 0x6b];

/// The stream versions this codec reads; it writes the newest.
pub const MIN_STREAM_VERS: u16 = 0x402;
pub const MAX_STREAM_VERS: u16 = 0x410;

/// The largest number of frames one block may hold.
pub const MAX_BLOCK_SAMPLES: u32 = 131072;

/// The standard sample rates, indexed by the header's rate field.
pub const SAMPLE_RATES: [u32; 15] = [
    6000, 8000, 9600, 11025, 12000, 16000, 22050, 24000, 32000, 44100, 48000, 64000, 88200,
    96000, 192000,
];

/// The sample rate at a rate index below 15.
pub open spec fn rate_at(i: int) -> u32 {
    SAMPLE_RATES[i]
}

pub const BYTES_STORED: u32 = 3;
pub const MONO_FLAG: u32 = 4;
pub const HYBRID_FLAG: u32 = 8;
pub const JOINT_STEREO: u32 = 0x10;
pub const FLOAT_DATA: u32 = 0x80;
pub const INT32_DATA: u32 = 0x100;
pub const INITIAL_BLOCK: u32 = 0x800;
pub const FINAL_BLOCK: u32 = 0x1000;
pub const FALSE_STEREO: u32 = 0x4000_0000;
pub const DSD_FLAG: u32 = 0x8000_0000;

/// A block header's flags word.
#[derive(Clone, Copy, Debug, PartialEq, Eq)]
pub struct Flags(pub u32);

impl Flags {
    /// Bytes per stored sample, 1 to 4.
    pub fn bytes_per_sample(&self) -> (r: u32)
        ensures
            r == (self.0 & 3) + 1,
            1 <= r <= 4,
    {
        let f = self.0;
        assert(f & 3 <= 3) by (bit_vector);
        (f & BYTES_STORED) + 1
    }

    /// Whether one channel is stored (mono, or false stereo).
    pub fn mono_stored(&self) -> (r: bool)
        ensures
            r == (self.0 & MONO_FLAG != 0),
    {
        self.0 & MONO_FLAG != 0
    }

    pub fn is_float(&self) -> (r: bool)
        ensures
            r == (self.0 & FLOAT_DATA != 0),
    {
        self.0 & FLOAT_DATA != 0
    }

    /// The magnitude field: the bit width that bounds the samples.
    pub fn magnitude(&self) -> (r: u32)
        ensures
            r == (self.0 >> 18u32) & 0x1f,
            r < 32,
    {
        let f = self.0;
        assert((f >> 18u32) & 0x1f < 32) by (bit_vector);
        (f >> 18) & 0x1f
    }

    /// The left shift applied to decoded samples.
    pub fn output_shift(&self) -> (r: u32)
        ensures
            r == (self.0 >> 13u32) & 0x1f,
            r < 32,
    {
        let f = self.0;
        assert((f >> 13u32) & 0x1f < 32) by (bit_vector);
        (f >> 13) & 0x1f
    }

    /// The sample rate, when the rate field names a standard one.
    pub fn sample_rate(&self) -> (r: Option<u32>)
        ensures
            ({
                let i = (self.0 >> 23u32) & 0xf;
                &&& i < 16
                &&& i < 15 ==> r == Some(rate_at(i as int))
                &&& i == 15 ==> r is None
            }),
    {
        let f = self.0;
        let i = (f >> 23) & 0xf;
        assert((f >> 23u32) & 0xf < 16) by (bit_vector);
        if i < 15 {
            Some(SAMPLE_RATES[i as usize])
        } else {
            None
        }
    }

    /// The number of output channels: 1 for mono, else 2.
    pub fn output_channels(&self) -> (r: u32)
        ensures
            r == (if self.0 & MONO_FLAG != 0 { 1u32 } else { 2u32 }),
    {
        if self.0 & MONO_FLAG != 0 {
            1
        } else {
            2
        }
    }
}

} // verus!
