//! Scope checks on metadata sub-blocks.

use vstd::prelude::*;
use crate::block::SubBlock;
use crate::error::{Error, Scope};
use crate::meta;

verus! {

/// The scope verdict on a sub-block identifier: DSD audio and the hybrid
/// mode's profile, noise shaping and correction stream are out of scope.
pub open spec fn scope_of(id: u8) -> Result<(), Error> {
    if id == meta::DSD_BLOCK {
        Err(Error::OutOfScope(Scope::Dsd))
    } else if id == meta::HYBRID_PROFILE || id == meta::SHAPING_WEIGHTS || id
        == meta::WVC_BITSTREAM {
        Err(Error::OutOfScope(Scope::Hybrid))
    } else {
        Ok(())
    }
}

/// Reject sub-blocks that belong to parts of the format out of scope.
pub fn check_scope(sub: &SubBlock<'_>) -> (r: Result<(), Error>)
    ensures
        r == scope_of(sub.id),
{
    if sub.id == meta::DSD_BLOCK {
        Err(Error::OutOfScope(Scope::Dsd))
    } else if sub.id == meta::HYBRID_PROFILE || sub.id == meta::SHAPING_WEIGHTS || sub.id
        == meta::WVC_BITSTREAM {
        Err(Error::OutOfScope(Scope::Hybrid))
    } else {
        Ok(())
    }
}

} // verus!
