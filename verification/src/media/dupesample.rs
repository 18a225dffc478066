//! How much of a file to sample for a duplicate fingerprint, and where.
//!
//! The expensive thing is the head seek, not the bytes: reading only the start
//! of a large video is twice as fast as reading both ends. Audio is the
//! exception, because two different recordings of the same length and encoder
//! share a long identical start, so audio keeps both ends.

use vstd::prelude::*;

use crate::index::model::MediaKind;

verus! {

/// Bytes taken from each end of a file.
pub const SAMPLE_BYTES: u64 = 64 * 1024;

/// At or below this size the whole file is read.
pub const SMALL_FILE_LIMIT: u64 = 1024 * 1024;

/// How a file is sampled.
#[derive(Debug, Clone, Copy, PartialEq, Eq, Structural)]
pub enum Cach {
    /// Read the whole file. Small files only.
    TronTep,
    /// One read from the start. Cheapest: no seek.
    ChiDau,
    /// Start and end. Twice the cost, for the seek to the end.
    HaiDau,
}

/// The sampling for a file, from what the index already knows.
pub open spec fn cach_for(size: u64, kind: MediaKind) -> Cach {
    if size <= SMALL_FILE_LIMIT {
        Cach::TronTep
    } else {
        match kind {
            MediaKind::Audio => Cach::HaiDau,
            MediaKind::Video | MediaKind::Image => Cach::ChiDau,
        }
    }
}

/// Choose how to sample a file: no disk access, only its size and kind.
pub fn chon(size: u64, kind: MediaKind) -> (r: Cach)
    ensures
        r == cach_for(size, kind),
{
    if size <= SMALL_FILE_LIMIT {
        return Cach::TronTep;
    }
    match kind {
        MediaKind::Audio => Cach::HaiDau,
        MediaKind::Video | MediaKind::Image => Cach::ChiDau,
    }
}

} // verus!
