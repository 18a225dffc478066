//! The cache on disk: what it records, where it lives, and when it is refused.
//!
//! Reading and writing the file is the program's business; the library says
//! what a stamp holds and which versions may be read.

use vstd::prelude::*;

use crate::index::model::Index;
use crate::text::{concat_str, decimal, push_decimal, str_chars, string_from_chars, string_of_str};

verus! {

/// Bumped whenever the layout on disk changes. An old cache is discarded
/// rather than misread: the format is not self-describing.
pub const SCHEMA_VERSION: u32 = 1;

/// Why the cache cannot be used.
#[derive(Debug, Clone, PartialEq, Eq)]
pub enum PersistError {
    NoDataDir,
    /// Never scanned: told apart from an I/O failure, with its own message.
    NotFound,
    SchemaMismatch { found: u32, expected: u32 },
    /// Reading or writing failed, with the system's words.
    Io(String),
    /// The bytes do not decode.
    Corrupt(String),
}

/// The message the UI shows for each error.
pub open spec fn persist_message(e: PersistError) -> Seq<char> {
    match e {
        PersistError::NoDataDir => "không xác định được thư mục dữ liệu (%LOCALAPPDATA%)"@,
        PersistError::NotFound => "chưa có cache — cần quét ổ đĩa trước"@,
        PersistError::SchemaMismatch { found, expected } => "cache thuộc phiên bản "@ + decimal(found as nat)
            + ", phần mềm cần "@ + decimal(expected as nat) + " — cần quét lại"@,
        PersistError::Io(_) => "lỗi đọc/ghi cache"@,
        PersistError::Corrupt(_) => "cache hỏng, không giải mã được"@,
    }
}

fn push_str_chars(out: &mut Vec<char>, s: &str)
    ensures
        final(out)@ == old(out)@ + s@,
{
    let w = str_chars(s);
    let ghost start = out@;
    let mut k: usize = 0;
    while k < w.len()
        invariant
            k <= w@.len(),
            out@ == start + w@.subrange(0, k as int),
        decreases w@.len() - k,
    {
        out.push(w[k]);
        assert(w@.subrange(0, k + 1) =~= w@.subrange(0, k as int).push(w@[k as int]));
        k += 1;
    }
    assert(w@.subrange(0, w@.len() as int) =~= w@);
}

impl PersistError {
    /// The words the user reads.
    pub fn message(&self) -> (r: String)
        ensures
            r@ == persist_message(*self),
    {
        match self {
            PersistError::NoDataDir => string_of_str("không xác định được thư mục dữ liệu (%LOCALAPPDATA%)"),
            PersistError::NotFound => string_of_str("chưa có cache — cần quét ổ đĩa trước"),
            PersistError::SchemaMismatch { found, expected } => {
                let mut out: Vec<char> = Vec::new();
                push_str_chars(&mut out, "cache thuộc phiên bản ");
                push_decimal(&mut out, *found as u64);
                push_str_chars(&mut out, ", phần mềm cần ");
                push_decimal(&mut out, *expected as u64);
                push_str_chars(&mut out, " — cần quét lại");
                string_from_chars(out.as_slice())
            },
            PersistError::Io(_) => string_of_str("lỗi đọc/ghi cache"),
            PersistError::Corrupt(_) => string_of_str("cache hỏng, không giải mã được"),
        }
    }
}

/// What a scan recorded about one volume, so changes can be picked up later.
#[derive(Debug, Clone, Copy, PartialEq, Eq)]
pub struct VolumeStamp {
    pub letter: char,
    pub serial: u32,
    pub journal_id: u64,
    /// The journal position at scan time; reading resumes from here.
    pub next_usn: i64,
    pub file_count: usize,
}

/// The cache as read back.
pub struct CacheFile {
    pub schema_version: u32,
    pub built_at_unix: i64,
    pub volumes: Vec<VolumeStamp>,
    pub index: Index,
}

/// The data folder under the local application data folder:
/// `<base>\MediaFinder`. Local rather than roaming, because the cache
/// describes this machine's disks.
pub fn cache_dir_under(base: &str) -> (r: String)
    ensures
        r@ == base@ + "\\MediaFinder"@,
{
    concat_str(base, "\\MediaFinder")
}

/// The cache file in the data folder.
pub fn cache_path(dir: &str) -> (r: String)
    ensures
        r@ == dir@ + "\\index.bin"@,
{
    concat_str(dir, "\\index.bin")
}

/// Whether a cache written with layout `found` may be read.
pub fn check_schema(found: u32) -> (r: Result<(), PersistError>)
    ensures
        found == SCHEMA_VERSION ==> r is Ok,
        found != SCHEMA_VERSION ==> r == Err::<(), PersistError>(
            PersistError::SchemaMismatch { found, expected: SCHEMA_VERSION },
        ),
{
    if found == SCHEMA_VERSION {
        Ok(())
    } else {
        Err(PersistError::SchemaMismatch { found, expected: SCHEMA_VERSION })
    }
}

} // verus!
