//! File statistics and media properties, as plain values.
//!
//! Reading them is the platform's business (a metadata query for size and
//! time, the shell property store for dimensions and duration); what the
//! library keeps is what they mean.

use vstd::prelude::*;

verus! {

/// Size and last-write time, read without opening the file.
#[derive(Debug, Clone, Copy, Default, PartialEq, Eq, Structural)]
pub struct FileStats {
    pub size: u64,
    /// Unix seconds.
    pub mtime: i64,
}

/// What the shell knows about a media file's content. Zero means "not
/// known" throughout: an image has no duration, an audio file no dimensions.
#[derive(Debug, Clone, Copy, Default, PartialEq, Eq, Structural)]
pub struct MediaProps {
    pub width: u32,
    pub height: u32,
    pub duration_ms: u64,
}

impl MediaProps {
    /// Nothing at all could be read: "asked and got nothing", as opposed to
    /// "not asked yet".
    pub fn is_empty(&self) -> (r: bool)
        ensures
            r == (self.width == 0 && self.height == 0 && self.duration_ms == 0),
    {
        self.width == 0 && self.height == 0 && self.duration_ms == 0
    }
}

/// 100-nanosecond ticks between 1601-01-01 and 1970-01-01.
pub const TICKS_TO_UNIX_EPOCH: u64 = 116_444_736_000_000_000;

pub const TICKS_PER_SECOND: u64 = 10_000_000;

/// The Unix seconds a FILETIME (its two halves) stands for. A moment before
/// 1970, or a tick count too large to be a signed 64-bit number, reads as 0
/// rather than as a time that would sort before every real file.
pub open spec fn unix_of_filetime(high: u32, low: u32) -> i64 {
    let ticks = high as int * 0x1_0000_0000 + low as int;
    if ticks < TICKS_TO_UNIX_EPOCH || ticks >= 0x8000_0000_0000_0000 {
        0
    } else {
        ((ticks - TICKS_TO_UNIX_EPOCH) / TICKS_PER_SECOND as int) as i64
    }
}

/// FILETIME (100 ns ticks since 1601) to Unix seconds.
pub fn filetime_to_unix(high: u32, low: u32) -> (r: i64)
    ensures
        r == unix_of_filetime(high, low),
{
    let ticks: u64 = (high as u64) * 0x1_0000_0000 + (low as u64);
    if ticks < TICKS_TO_UNIX_EPOCH || ticks >= 0x8000_0000_0000_0000 {
        return 0;
    }
    ((ticks - TICKS_TO_UNIX_EPOCH) / TICKS_PER_SECOND) as i64
}

} // verus!
