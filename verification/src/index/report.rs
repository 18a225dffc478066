//! What a scan or an update says when it ends, and whether its result may
//! replace the cache.

use vstd::prelude::*;

use crate::index::persist::VolumeStamp;
use crate::index::update::UpdateStats;
use crate::text::{decimal, push_decimal, push_str_chars, string_from_chars};

verus! {

/// A scan that reached no drive, or found nothing at all, has nothing to say:
/// the cache it would replace stays where it is.
pub fn may_replace_cache(volumes_ok: usize, entries: usize) -> (r: bool)
    ensures
        r == (volumes_ok > 0 && entries > 0),
{
    volumes_ok > 0 && entries > 0
}

/// Whether an update moved anything in the index. Journal traffic that
/// touched nothing indexed leaves the cache unwritten.
pub fn index_changed(st: &UpdateStats) -> (r: bool)
    ensures
        r == (st.files_added > 0 || st.files_removed > 0 || st.files_moved > 0 || st.dirs_added > 0
            || st.dirs_removed > 0 || st.dirs_renamed > 0),
{
    st.files_added > 0 || st.files_removed > 0 || st.files_moved > 0 || st.dirs_added > 0 || st.dirs_removed > 0
        || st.dirs_renamed > 0
}

/// The closing line of a full scan.
pub fn index_done_message(entries: usize, volumes_ok: usize, volumes_total: usize) -> (r: String)
    ensures
        r@ == if volumes_ok < volumes_total {
            "Đã lập chỉ mục "@ + decimal(entries as nat) + " tệp media (chỉ quét được "@ + decimal(volumes_ok as nat)
                + "/"@ + decimal(volumes_total as nat) + " ổ)"@
        } else {
            "Đã lập chỉ mục "@ + decimal(entries as nat) + " tệp media"@
        },
{
    let mut v: Vec<char> = Vec::new();
    push_str_chars(&mut v, "Đã lập chỉ mục ");
    push_decimal(&mut v, entries as u64);
    if volumes_ok < volumes_total {
        push_str_chars(&mut v, " tệp media (chỉ quét được ");
        push_decimal(&mut v, volumes_ok as u64);
        push_str_chars(&mut v, "/");
        push_decimal(&mut v, volumes_total as u64);
        push_str_chars(&mut v, " ổ)");
    } else {
        push_str_chars(&mut v, " tệp media");
    }
    string_from_chars(v.as_slice())
}

/// What a full scan that reached no drive reports, before leaving the old
/// cache in place.
pub fn nothing_scanned_message(volumes_total: usize) -> (r: String)
    ensures
        r@ == "Không quét được ổ đĩa nào ("@ + decimal(volumes_total as nat)
            + " ổ NTFS đều thất bại). Chỉ mục cũ được giữ nguyên."@,
{
    let mut v: Vec<char> = Vec::new();
    push_str_chars(&mut v, "Không quét được ổ đĩa nào (");
    push_decimal(&mut v, volumes_total as u64);
    push_str_chars(&mut v, " ổ NTFS đều thất bại). Chỉ mục cũ được giữ nguyên.");
    string_from_chars(v.as_slice())
}

/// The closing line of a network walk: what was kept when it was stopped,
/// or what it found.
pub fn network_done_message(cancelled: bool, drives: usize, files: usize) -> (r: String)
    ensures
        r@ == if cancelled {
            "Đã dừng — giữ lại "@ + decimal(files as nat) + " tệp trên ổ mạng"@
        } else {
            "Đã quét "@ + decimal(drives as nat) + " ổ mạng, tìm thấy "@ + decimal(files as nat) + " tệp media"@
        },
{
    let mut v: Vec<char> = Vec::new();
    if cancelled {
        push_str_chars(&mut v, "Đã dừng — giữ lại ");
        push_decimal(&mut v, files as u64);
        push_str_chars(&mut v, " tệp trên ổ mạng");
    } else {
        push_str_chars(&mut v, "Đã quét ");
        push_decimal(&mut v, drives as u64);
        push_str_chars(&mut v, " ổ mạng, tìm thấy ");
        push_decimal(&mut v, files as u64);
        push_str_chars(&mut v, " tệp media");
    }
    string_from_chars(v.as_slice())
}

/// The closing line of an update that changed nothing indexed.
pub fn no_change_message(entries: usize) -> (r: String)
    ensures
        r@ == "Không có thay đổi nào — "@ + decimal(entries as nat) + " tệp"@,
{
    let mut v: Vec<char> = Vec::new();
    push_str_chars(&mut v, "Không có thay đổi nào — ");
    push_decimal(&mut v, entries as u64);
    push_str_chars(&mut v, " tệp");
    string_from_chars(v.as_slice())
}

/// The closing line of an update that was saved.
pub fn update_done_message(entries: usize, st: &UpdateStats) -> (r: String)
    ensures
        r@ == "Cập nhật xong: "@ + decimal(entries as nat) + " tệp (+"@ + decimal(st.files_added as nat) + " −"@
            + decimal(st.files_removed as nat) + ")"@,
{
    let mut v: Vec<char> = Vec::new();
    push_str_chars(&mut v, "Cập nhật xong: ");
    push_decimal(&mut v, entries as u64);
    push_str_chars(&mut v, " tệp (+");
    push_decimal(&mut v, st.files_added as u64);
    push_str_chars(&mut v, " −");
    push_decimal(&mut v, st.files_removed as u64);
    push_str_chars(&mut v, ")");
    string_from_chars(v.as_slice())
}

/// The entries whose size and time are not known yet (a time of 0: a journal
/// record carries neither), for a disk lookup.
pub open spec fn unmeasured(mtimes: Seq<i64>, n: int) -> Seq<u32>
    decreases n,
{
    if n <= 0 {
        Seq::empty()
    } else if mtimes[n - 1] == 0 {
        unmeasured(mtimes, n - 1).push((n - 1) as u32)
    } else {
        unmeasured(mtimes, n - 1)
    }
}

/// Which entries need their size and time read from disk.
pub fn entries_to_measure(mtimes: &[i64]) -> (r: Vec<u32>)
    requires
        mtimes@.len() <= u32::MAX,
    ensures
        r@ == unmeasured(mtimes@, mtimes@.len() as int),
{
    let mut out: Vec<u32> = Vec::new();
    let mut i: usize = 0;
    while i < mtimes.len()
        invariant
            i <= mtimes@.len(),
            mtimes@.len() <= u32::MAX,
            out@ == unmeasured(mtimes@, i as int),
        decreases mtimes@.len() - i,
    {
        if mtimes[i] == 0 {
            out.push(i as u32);
        }
        i += 1;
    }
    out
}

/// Sizes and times after the lookups land: each answer for an entry in range
/// replaces that entry's figures, in order.
pub open spec fn measured(
    sizes: Seq<u64>,
    mtimes: Seq<i64>,
    found: Seq<(u32, u64, i64)>,
) -> (Seq<u64>, Seq<i64>)
    decreases found.len(),
{
    if found.len() == 0 {
        (sizes, mtimes)
    } else {
        let (s, m) = measured(sizes, mtimes, found.drop_last());
        let (i, size, mtime) = found.last();
        if i < s.len() && i < m.len() {
            (s.update(i as int, size), m.update(i as int, mtime))
        } else {
            (s, m)
        }
    }
}

proof fn lemma_measured_len(sizes: Seq<u64>, mtimes: Seq<i64>, found: Seq<(u32, u64, i64)>)
    ensures
        measured(sizes, mtimes, found).0.len() == sizes.len(),
        measured(sizes, mtimes, found).1.len() == mtimes.len(),
    decreases found.len(),
{
    if found.len() > 0 {
        lemma_measured_len(sizes, mtimes, found.drop_last());
    }
}

/// Put the looked-up figures in place.
pub fn apply_measurements(sizes: &mut Vec<u64>, mtimes: &mut Vec<i64>, found: &[(u32, u64, i64)])
    ensures
        (final(sizes)@, final(mtimes)@) == measured(old(sizes)@, old(mtimes)@, found@),
{
    let ghost s0 = sizes@;
    let ghost m0 = mtimes@;
    let mut k: usize = 0;
    while k < found.len()
        invariant
            k <= found@.len(),
            (sizes@, mtimes@) == measured(s0, m0, found@.subrange(0, k as int)),
        decreases found@.len() - k,
    {
        assert(found@.subrange(0, k + 1).drop_last() =~= found@.subrange(0, k as int));
        let (i, size, mtime) = found[k];
        if (i as usize) < sizes.len() && (i as usize) < mtimes.len() {
            sizes.set(i as usize, size);
            mtimes.set(i as usize, mtime);
        }
        k += 1;
    }
    assert(found@.subrange(0, found@.len() as int) =~= found@);
}


/// What reading one drive's change journal gave.
#[derive(Debug, Clone, Copy, PartialEq, Eq)]
pub enum JournalRead {
    /// The drive is not attached right now.
    Detached,
    /// The changes since the stamp were read; reading resumes at `next_usn`.
    Read { next_usn: i64 },
    /// The journal cannot answer from the stamp (recreated, or wrapped past
    /// it): only looking at the drive itself can.
    Restart,
    /// The journal could not be read.
    Failed,
}

/// What a quick update does with one drive.
#[derive(Debug, Clone, Copy, PartialEq, Eq)]
pub enum VolumeStep {
    /// Keep the stamp as it is: a detached drive keeps its entries, which will
    /// still be right when it comes back; dropping them would look like the
    /// files were deleted.
    Keep(VolumeStamp),
    /// The changes were read: the stamp moves on to where reading stopped.
    Advance(VolumeStamp),
    /// Give up the quick update and scan the drives again.
    FullScan,
}

/// The decision a quick update makes for one drive, from its stamp and what
/// reading its journal gave.
pub fn volume_step(st: VolumeStamp, read: JournalRead) -> (r: VolumeStep)
    ensures
        r == match read {
            JournalRead::Detached => VolumeStep::Keep(st),
            JournalRead::Read { next_usn } => VolumeStep::Advance(VolumeStamp { next_usn, ..st }),
            JournalRead::Restart | JournalRead::Failed => VolumeStep::FullScan,
        },
{
    match read {
        JournalRead::Detached => VolumeStep::Keep(st),
        JournalRead::Read { next_usn } => VolumeStep::Advance(VolumeStamp { next_usn, ..st }),
        JournalRead::Restart => VolumeStep::FullScan,
        JournalRead::Failed => VolumeStep::FullScan,
    }
}

} // verus!
