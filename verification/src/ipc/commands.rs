//! What the window asks for and the shapes of the answers.
//!
//! The commands themselves belong to the program around the library; what is
//! decided here is how a request becomes search options and how an index
//! entry becomes a row of results.

use vstd::prelude::*;

use crate::index::model::{kind_label, Index, MediaKind};
use crate::index::search::{Hit, Relaxed, SearchOptions};
use crate::ipc::elevate::ScanProgress;
use crate::media::metadata::MediaProps;
use crate::text::{chars_equal, str_chars};

verus! {

/// One row of search results.
#[derive(Debug)]
pub struct SearchHit {
    pub name: String,
    /// Full path, for opening or revealing the file.
    pub path: String,
    pub dir: String,
    pub kind: &'static str,
    pub score: i32,
    /// How many of the query's tokens this entry contains.
    pub matched: u16,
    /// Position in the index, for the thumbnail URL.
    pub index: u32,
    pub size: u64,
    /// From enrichment; zero while unknown.
    pub width: u32,
    pub height: u32,
    pub duration_ms: u64,
}

/// Present when nothing matched every token and these are the closest.
#[derive(Debug, Clone, Copy, PartialEq, Eq, Structural)]
pub struct RelaxedInfo {
    pub total_tokens: usize,
    pub best_matched: usize,
}

/// The property filters. Zero disables each.
#[derive(Debug, Clone, Copy, PartialEq, Eq, Structural)]
pub struct Filters {
    /// Shortest side in pixels.
    pub min_height: u32,
    pub min_duration_ms: u64,
    pub max_duration_ms: u64,
    /// How recently the file was modified, in days back from now: a search
    /// left open overnight still means "the last seven days" in the morning.
    pub within_days: u32,
}

impl Default for Filters {
    fn default() -> (r: Self)
        ensures
            r == (Filters { min_height: 0, min_duration_ms: 0, max_duration_ms: 0, within_days: 0 }),
    {
        Filters { min_height: 0, min_duration_ms: 0, max_duration_ms: 0, within_days: 0 }
    }
}

/// Everything about how to run one search, apart from its id.
#[derive(Debug)]
pub struct Query {
    pub query: String,
    pub kinds: Vec<String>,
    pub limit: usize,
    pub filters: Filters,
}

/// The summon shortcut, and whether the app actually holds it.
#[derive(Debug, Clone)]
pub struct HotkeyStatus {
    /// The combination in use, `+`-separated.
    pub combo: String,
    /// False when another application got there first.
    pub active: bool,
    /// A fallback is in use because the preferred combination was taken.
    pub fallback: bool,
    /// The combination the app wants.
    pub preferred: String,
}

/// A mapped network drive, for the UI to name in the button.
#[derive(Debug)]
pub struct NetworkDrive {
    pub letter: String,
    pub remote: String,
}

#[derive(Debug)]
pub struct ScanStatus {
    pub scanning: bool,
    pub progress: Option<ScanProgress>,
}

/// A duplicate group, with the paths resolved for display.
#[derive(Debug)]
pub struct DupeGroupView {
    pub size: u64,
    pub wasted: u64,
    pub files: Vec<SearchHit>,
    /// The epoch of the index the scan used: positions mean nothing in any
    /// other.
    pub epoch: u64,
}

/// The kind a label names, if it names one.
pub open spec fn kind_named(s: Seq<char>) -> Option<MediaKind> {
    if s == kind_label(MediaKind::Video) {
        Some(MediaKind::Video)
    } else if s == kind_label(MediaKind::Image) {
        Some(MediaKind::Image)
    } else if s == kind_label(MediaKind::Audio) {
        Some(MediaKind::Audio)
    } else {
        None
    }
}

/// The kinds the labels name, in order; anything else is ignored.
pub open spec fn kinds_named(ks: Seq<Seq<char>>) -> Seq<MediaKind>
    decreases ks.len(),
{
    if ks.len() == 0 {
        Seq::empty()
    } else {
        let r = kinds_named(ks.drop_last());
        match kind_named(ks.last()) {
            Some(k) => r.push(k),
            None => r,
        }
    }
}

/// The kind a label names.
fn kind_of_label(k: &str) -> (r: Option<MediaKind>)
    ensures
        r == kind_named(k@),
{
    proof {
        reveal_strlit("video");
        reveal_strlit("image");
        reveal_strlit("audio");
        assert("video"@ =~= kind_label(MediaKind::Video));
        assert("image"@ =~= kind_label(MediaKind::Image));
        assert("audio"@ =~= kind_label(MediaKind::Audio));
    }
    let cs = str_chars(k);
    if chars_equal(cs.as_slice(), str_chars("video").as_slice()) {
        Some(MediaKind::Video)
    } else if chars_equal(cs.as_slice(), str_chars("image").as_slice()) {
        Some(MediaKind::Image)
    } else if chars_equal(cs.as_slice(), str_chars("audio").as_slice()) {
        Some(MediaKind::Audio)
    } else {
        None
    }
}

/// The kinds a request names; labels it does not know are ignored, and no
/// labels means no restriction.
pub fn parse_kinds(kinds: &[String]) -> (r: Vec<MediaKind>)
    ensures
        r@ == kinds_named(kinds@.map_values(|s: String| s@)),
{
    let ghost all = kinds@.map_values(|s: String| s@);
    let mut out: Vec<MediaKind> = Vec::new();
    let mut i: usize = 0;
    while i < kinds.len()
        invariant
            i <= kinds@.len(),
            all == kinds@.map_values(|s: String| s@),
            out@ == kinds_named(all.subrange(0, i as int)),
        decreases kinds@.len() - i,
    {
        assert(all.subrange(0, i + 1).drop_last() =~= all.subrange(0, i as int));
        assert(all.subrange(0, i + 1).last() == kinds@[i as int]@);
        if let Some(k) = kind_of_label(kinds[i].as_str()) {
            out.push(k);
        }
        i += 1;
    }
    assert(all.subrange(0, kinds@.len() as int) =~= all);
    out
}

/// The earliest modification time a "within `days` days" filter admits, as
/// Unix seconds at `now`; 0 for no limit. Never negative: a clock set before
/// 1970 would otherwise make the filter quietly match everything.
pub open spec fn cutoff(days: u32, now: i64) -> i64 {
    if days == 0 {
        0
    } else if now - days * 86_400 < 0 {
        0
    } else {
        (now - days * 86_400) as i64
    }
}

/// Turn "within N days" into a Unix timestamp, given the time now.
pub fn cutoff_for(days: u32, now: i64) -> (r: i64)
    requires
        now >= 0,
    ensures
        r == cutoff(days, now),
{
    if days == 0 {
        return 0;
    }
    let back: i64 = days as i64 * 86_400;
    if now - back < 0 {
        0
    } else {
        now - back
    }
}

/// Most results a search may ask for.
pub const MAX_LIMIT: usize = 20_000;

/// The options a request runs with: its limit held between 1 and
/// [`MAX_LIMIT`], and the kinds it names.
pub fn search_options(limit: usize, kinds: &[String]) -> (r: SearchOptions)
    ensures
        r.limit == (if limit < 1 {
            1
        } else if limit > MAX_LIMIT {
            MAX_LIMIT
        } else {
            limit
        }),
        r.kinds@ == kinds_named(kinds@.map_values(|s: String| s@)),
{
    let l = if limit < 1 {
        1
    } else if limit > MAX_LIMIT {
        MAX_LIMIT
    } else {
        limit
    };
    SearchOptions { limit: l, kinds: parse_kinds(kinds) }
}

/// How a result row reads for entry `h.index`, with what enrichment knows
/// about it.
pub fn hit_view(index: &Index, h: &Hit, p: MediaProps) -> (r: SearchHit)
    requires
        (h.index as int) < index@.len(),
    ensures
        r.name@ == index@.names[h.index as int],
        r.path@ == index@.path(h.index as int),
        r.dir@ == index@.dir_text(h.index as int),
        r.kind@ == kind_label(index@.kinds[h.index as int]),
        r.score == h.score,
        r.matched == h.matched,
        r.index == h.index,
        r.size == index@.size_of(h.index as int),
        r.width == p.width,
        r.height == p.height,
        r.duration_ms == p.duration_ms,
{
    let i = h.index as usize;
    SearchHit {
        name: crate::text::string_of_str(index.name(i)),
        path: index.full_path(i),
        dir: crate::text::string_of_str(index.dir(i)),
        kind: index.kind(i).as_str(),
        score: h.score,
        matched: h.matched,
        index: h.index,
        size: index.size(i),
        width: p.width,
        height: p.height,
        duration_ms: p.duration_ms,
    }
}

/// The partial-match note, as the window reads it.
pub fn relaxed_info(r: Relaxed) -> (i: RelaxedInfo)
    ensures
        i.total_tokens == r.total_tokens,
        i.best_matched == r.best_matched,
{
    RelaxedInfo { total_tokens: r.total_tokens, best_matched: r.best_matched }
}

/// The shortcut status, from the combination in use (empty when none) and
/// whether it is held.
pub fn hotkey_status(in_use: &str, active: bool) -> (r: HotkeyStatus)
    ensures
        r.combo@ == in_use@,
        r.active == active,
        r.fallback == crate::hotkey::falls_back(in_use@),
        r.preferred@ == crate::hotkey::CANDIDATES@[0]@,
{
    HotkeyStatus {
        combo: crate::text::string_of_str(in_use),
        active,
        fallback: crate::hotkey::is_fallback(in_use),
        preferred: crate::text::string_of_str(crate::hotkey::preferred()),
    }
}

} // verus!
