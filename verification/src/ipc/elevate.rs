//! The elevated indexer's side of the conversation: what it reports, when it
//! writes, and how a refusal is worded.
//!
//! Reading the MFT needs Administrator; the window the user looks at never
//! gains privileges. A second copy of the program does the scan and reports
//! through a small progress file, written at most ten times a second.

use vstd::prelude::*;

use crate::text::{concat_str, string_of_str};

verus! {

/// Why the elevated indexer could not be started or could not report.
#[derive(Debug, Clone, PartialEq, Eq)]
pub enum ElevateError {
    /// The user declined the elevation prompt. An answer, not a failure.
    Cancelled,
    NoExePath,
    Launch(String),
    /// Reading or writing the progress file failed, with the system's words.
    Io(String),
}

/// The message shown for each error, as the UI prints it.
pub open spec fn elevate_message(e: ElevateError) -> Seq<char> {
    match e {
        ElevateError::Cancelled => "Bạn đã từ chối cấp quyền Administrator. Chưa quét gì cả — dữ liệu cũ vẫn nguyên."@,
        ElevateError::NoExePath => "không xác định được đường dẫn của chính chương trình"@,
        ElevateError::Launch(m) => "không khởi chạy được tiến trình quét: "@ + m@,
        ElevateError::Io(_) => "lỗi ghi/đọc tệp tiến độ"@,
    }
}

impl ElevateError {
    /// The words the user reads.
    pub fn message(&self) -> (r: String)
        ensures
            r@ == elevate_message(*self),
    {
        match self {
            ElevateError::Cancelled => string_of_str(
                "Bạn đã từ chối cấp quyền Administrator. Chưa quét gì cả — dữ liệu cũ vẫn nguyên.",
            ),
            ElevateError::NoExePath => string_of_str("không xác định được đường dẫn của chính chương trình"),
            ElevateError::Launch(m) => concat_str("không khởi chạy được tiến trình quét: ", m.as_str()),
            ElevateError::Io(_) => string_of_str("lỗi ghi/đọc tệp tiến độ"),
        }
    }
}

/// What the indexer is doing right now, as the window sees it.
#[derive(Debug, Clone, PartialEq, Eq)]
pub struct ScanProgress {
    /// `volumes`, `scanning`, `resolving`, `indexing`, `network`, `saving`,
    /// `done` or `error`.
    pub phase: String,
    /// Drive letter currently being read, e.g. `"C"`.
    pub volume: String,
    pub records: u64,
    pub media_files: u64,
    pub volumes_done: usize,
    pub volumes_total: usize,
    /// Human-readable line for the UI.
    pub message: String,
    /// Set last, and only after the cache is safely on disk.
    pub finished: bool,
    pub error: Option<String>,
}

impl Default for ScanProgress {
    fn default() -> (r: Self)
        ensures
            r.phase@.len() == 0,
            r.volume@.len() == 0,
            r.records == 0,
            r.media_files == 0,
            r.volumes_done == 0,
            r.volumes_total == 0,
            r.message@.len() == 0,
            !r.finished,
            r.error is None,
    {
        ScanProgress {
            phase: String::new(),
            volume: String::new(),
            records: 0,
            media_files: 0,
            volumes_done: 0,
            volumes_total: 0,
            message: String::new(),
            finished: false,
            error: None,
        }
    }
}

/// Where the progress file lives: beside the cache, in `cache_dir`.
pub fn progress_path(cache_dir: &str) -> (r: String)
    ensures
        r@ == cache_dir@ + "\\progress.json"@,
{
    concat_str(cache_dir, "\\progress.json")
}

/// Milliseconds between two writes: ten a second, fast enough that the bar
/// never looks stuck, slow enough that the file is not rewritten in a loop.
pub const WRITE_INTERVAL_MS: u64 = 100;

/// Progress, throttled: the indexer sees a new record count every few
/// milliseconds, and only the newest state is ever written.
///
/// The clock and the file belong to the caller: `tick` and `flush` say when a
/// write is due and take the time it happened.
pub struct ProgressWriter {
    state: ScanProgress,
    /// When the file was last written, in milliseconds; `None` before the
    /// first write, so the first update goes out at once.
    last_write_ms: Option<u64>,
}

impl ProgressWriter {
    pub closed spec fn last_write(&self) -> Option<u64> {
        self.last_write_ms
    }

    pub closed spec fn current(&self) -> ScanProgress {
        self.state
    }

    pub fn new() -> (w: Self)
        ensures
            w.last_write() is None,
            w.current().phase@.len() == 0,
            !w.current().finished,
    {
        ProgressWriter { state: ScanProgress::default(), last_write_ms: None }
    }

    /// The state to update in place.
    pub fn state_mut(&mut self) -> (s: &mut ScanProgress)
        ensures
            *s == old(self).current(),
            final(self).current() == *final(s),
            final(self).last_write() == old(self).last_write(),
    {
        &mut self.state
    }

    /// The state as it stands.
    pub fn state(&self) -> (s: &ScanProgress)
        ensures
            *s == self.current(),
    {
        &self.state
    }

    /// Whether a write is due at `now_ms`: never written yet, or at least
    /// [`WRITE_INTERVAL_MS`] since the last one (a clock that went backwards
    /// counts as due). When due, it is taken as written at `now_ms`.
    pub fn tick(&mut self, now_ms: u64) -> (due: bool)
        ensures
            due == match old(self).last_write() {
                None => true,
                Some(t) => now_ms < t || now_ms - t >= WRITE_INTERVAL_MS,
            },
            final(self).current() == old(self).current(),
            final(self).last_write() == (if due { Some(now_ms) } else { old(self).last_write() }),
    {
        let due = match self.last_write_ms {
            None => true,
            Some(t) => now_ms < t || now_ms - t >= WRITE_INTERVAL_MS,
        };
        if due {
            self.last_write_ms = Some(now_ms);
        }
        due
    }

    /// A write regardless of the interval, for phase changes and the final
    /// state: taken as written at `now_ms`.
    pub fn flush(&mut self, now_ms: u64)
        ensures
            final(self).current() == old(self).current(),
            final(self).last_write() == Some(now_ms),
    {
        self.last_write_ms = Some(now_ms);
    }
}

} // verus!
