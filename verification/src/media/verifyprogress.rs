//! Progress of a content verification, shared between the worker and the UI.

use std::sync::atomic::AtomicBool;
use std::sync::atomic::AtomicU64;
use std::sync::atomic::Ordering;
use std::sync::Arc;

use vstd::prelude::*;

verus! {

/// A snapshot for the interface.
#[derive(Debug, Clone, PartialEq, Eq, Default)]
pub struct VerifyProgress {
    pub running: bool,
    pub total_bytes: u64,
    pub done_bytes: u64,
    pub file_count: usize,
}

/// `done * 100`, saturating.
pub open spec fn sat_percent_numerator(done: u64) -> int {
    if done * 100 > u64::MAX { u64::MAX as int } else { done * 100 }
}

impl VerifyProgress {
    /// Percent done, rounded down and never above 100; `None` until the total
    /// is known.
    pub fn percent(&self) -> (r: Option<u8>)
        ensures
            self.total_bytes == 0 ==> r is None,
            self.total_bytes != 0 ==> r == Some(
                (if sat_percent_numerator(self.done_bytes) / (self.total_bytes as int) > 100 { 100 } else {
                    sat_percent_numerator(self.done_bytes) / (self.total_bytes as int)
                }) as u8,
            ),
    {
        if self.total_bytes == 0 {
            return None;
        }
        let num: u64 = if self.done_bytes > u64::MAX / 100 { u64::MAX } else { self.done_bytes * 100 };
        let p = num / self.total_bytes;
        Some(if p > 100 { 100 } else { p as u8 })
    }
}

fn widen(n: usize) -> (r: u64)
    ensures
        r == n,
{
    n as u64
}

/// The low bits of `n` as a `usize` (all of it on 64-bit targets).
fn narrow(n: u64) -> (r: usize)
    ensures
        n <= usize::MAX ==> r == n,
{
    n as usize
}

/// The live counters behind [`VerifyProgress`], shared across threads.
///
/// Another thread may change any counter between two calls, so nothing is
/// promised about what a read returns.
#[derive(Clone, Default)]
pub struct VerifyState {
    running: Arc<AtomicBool>,
    total_bytes: Arc<AtomicU64>,
    done_bytes: Arc<AtomicU64>,
    file_count: Arc<AtomicU64>,
    stop: Arc<AtomicBool>,
}

impl VerifyState {
    pub fn new() -> Self {
        VerifyState {
            running: Arc::new(AtomicBool::new(false)),
            total_bytes: Arc::new(AtomicU64::new(0)),
            done_bytes: Arc::new(AtomicU64::new(0)),
            file_count: Arc::new(AtomicU64::new(0)),
            stop: Arc::new(AtomicBool::new(false)),
        }
    }

    /// Claim the run. `false` when one is already running; otherwise the
    /// counters of the previous run are reset and the stop flag lowered.
    pub fn begin(&self, file_count: usize) -> bool {
        if self.running.swap(true, Ordering::SeqCst) {
            return false;
        }
        self.stop.store(false, Ordering::SeqCst);
        self.total_bytes.store(0, Ordering::Relaxed);
        self.done_bytes.store(0, Ordering::Relaxed);
        self.file_count.store(widen(file_count), Ordering::Relaxed);
        true
    }

    pub fn set_total(&self, bytes: u64) {
        self.total_bytes.store(bytes, Ordering::Relaxed);
    }

    pub fn add_done(&self, bytes: u64) {
        self.done_bytes.fetch_add(bytes, Ordering::Relaxed);
    }

    pub fn finish(&self) {
        self.running.store(false, Ordering::SeqCst);
    }

    pub fn cancel(&self) {
        self.stop.store(true, Ordering::SeqCst);
    }

    pub fn cancelled(&self) -> bool {
        self.stop.load(Ordering::SeqCst)
    }

    pub fn snapshot(&self) -> VerifyProgress {
        VerifyProgress {
            running: self.running.load(Ordering::SeqCst),
            total_bytes: self.total_bytes.load(Ordering::Relaxed),
            done_bytes: self.done_bytes.load(Ordering::Relaxed),
            file_count: narrow(self.file_count.load(Ordering::Relaxed)),
        }
    }
}

} // verus!
