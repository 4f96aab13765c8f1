//! A lossless codec for the WavPack v5 stream, mono or stereo: encoding of
//! 8/16/24/32-bit integer PCM into a single block, decoding of 16-bit integer
//! streams, and the integer-only reconstruction of 32-bit float samples.
//! Out of scope: DSD, hybrid (lossy) streams, correction files and more than
//! two channels.

pub mod bitstream;
pub mod block;
pub mod decode;
pub mod decorr;
pub mod encode;
pub mod entropy;
pub mod entropy_encode;
pub mod error;
pub mod float;
pub mod format;
pub mod meta;
pub mod metadata;
pub mod roundtrip;

pub use block::{Block, BlockHeader, Blocks};
pub use decode::{DecodedStream, decode_stream};
pub use encode::{EncodeParams, encode_int};
pub use error::{Error, Scope};
