//! The crate's error type.

use vstd::prelude::*;

verus! {

/// Parts of the format that this codec deliberately does not handle.
#[derive(Clone, Copy, Debug, PartialEq, Eq)]
pub enum Scope {
    /// DSD (1-bit) audio.
    Dsd,
    /// Hybrid (lossy + correction) streams.
    Hybrid,
    /// More than two channels (multi-block frames).
    MoreThanTwoChannels,
}

/// Everything that can go wrong while decoding or encoding.
#[derive(Clone, Copy, Debug, PartialEq, Eq)]
pub enum Error {
    /// The input ended early: `need` items were required, `have` were there.
    Truncated { need: usize, have: usize },
    /// A block did not start with the `wvpk` magic.
    BadMagic,
    /// A block's stream version is outside the supported range.
    UnsupportedVersion(u16),
    /// A block's size field is inconsistent.
    BadBlockSize,
    /// A metadata sub-block is malformed.
    BadSubBlock { id: u8 },
    /// A required metadata sub-block is absent.
    MissingSubBlock(&'static str),
    /// A valid stream feature that is not implemented yet.
    NotYetImplemented(&'static str),
    /// A stream feature outside this codec's scope.
    OutOfScope(Scope),
    /// A decoded or input sample exceeds the declared magnitude.
    OverMagnitude,
    /// The block checksum does not match the decoded samples.
    CrcMismatch { stored: u32, computed: u32 },
}

} // verus!
