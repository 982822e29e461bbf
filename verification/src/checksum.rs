//! The CRC-32 service used for chunk trailers.

use vstd::prelude::*;

verus! {

/// The CRC-32 (IEEE) checksum of a byte sequence, as `crc32fast` computes it.
pub uninterp spec fn crc32(bytes: Seq<u8>) -> u32;

/// `crc32fast::hash` returns the CRC-32 checksum of the whole slice. The
/// value depends on the bytes alone; nothing else is claimed of it.
pub assume_specification[ crc32fast::hash ](buf: &[u8]) -> (sum: u32)
    ensures
        sum == crc32(buf@),
;

} // verus!
