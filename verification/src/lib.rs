//! Sector-range accounting for staged media recovery.
//!
//! The library tracks, at sector granularity, which regions of a damaged
//! source have been copied, which are still untested, and which are
//! unreadable, and decides how failed reads escalate through progressively
//! finer isolation passes.

use vstd::prelude::*;

pub mod mapping;
pub mod recovery;

verus! {

/// Fallback sector size in bytes, used when none is configured.
pub const FB_SECTOR_SIZE: u16 = 2048;

} // verus!
