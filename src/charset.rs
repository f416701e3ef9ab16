//! The byte values that frame an archive.

use vstd::prelude::*;

verus! {

/// Starts each header record.
pub const REC_SEP: u8 = 0x1E;

/// Ends the header region.
pub const GRP_SEP: u8 = 0x1D;

/// The archive signature: the bytes of "zipper", padded with zeros to eight
/// bytes, read as a little-endian integer.
pub const SIG: u64 = 0x0000_7265_7070_697a;

} // verus!
