//! Format version registry for persisted NovaDB data.
use vstd::prelude::*;

verus! {

/// Magic bytes prefixing every NovaDB persistent artifact.
pub const MAGIC: [u8; 4] = [78u8, 79u8, 86u8, 65u8];

/// Current NovaDB on-disk format version.
pub const FORMAT_VERSION: u32 = 1;

} // verus!
