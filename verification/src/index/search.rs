//! Substring search with ranking and top-K selection.
//!
//! * **Results are ranked before they are cut.** Typing `avatar` has to put
//!   `Avatar.mkv` above `my_avatar_backup_2019.mkv`, and only a score can do
//!   that.
//! * **The cut is deterministic.** Every hit is scored, then ordered by
//!   `(score, index)`, which is total and reproducible.
//! * **A query is several words.** Tokens are ANDed, and each contributes its
//!   own score; a long query that matches nothing falls back to the closest
//!   partial matches.

use std::sync::atomic::AtomicU64;
use std::sync::atomic::Ordering;

use vstd::prelude::*;
use vstd::utf8::encode_utf8;

use crate::index::fold::{fold, fold_chars};
use crate::index::model::{folded_bytes, Index, IndexView, MediaKind};
use crate::text::{str_chars, string_from_chars};

verus! {

// ---------------------------------------------------------------------------
// Tokens
// ---------------------------------------------------------------------------

/// Whether `char::is_alphanumeric` holds of `c`.
pub uninterp spec fn alnum(c: char) -> bool;

/// ASCII letters and digits.
pub open spec fn ascii_alnum(c: char) -> bool {
    ('0' <= c <= '9') || ('a' <= c <= 'z') || ('A' <= c <= 'Z')
}

/// `char::is_alphanumeric`.
///
/// Claims that the answer is the Unicode property of `c`, and, as documented,
/// that for ASCII it is exactly the letters and digits.
#[verifier::external_body]
fn is_alphanumeric(c: char) -> (r: bool)
    ensures
        r == alnum(c),
        (c as u32) < 0x80 ==> (r <==> ascii_alnum(c)),
{
    c.is_alphanumeric()
}

/// Splitting state after a prefix: the tokens finished so far and the one
/// being read.
pub open spec fn split_state(s: Seq<char>) -> (Seq<Seq<char>>, Seq<char>)
    decreases s.len(),
{
    if s.len() == 0 {
        (seq![], seq![])
    } else {
        let (done, cur) = split_state(s.drop_last());
        let c = s.last();
        if alnum(c) {
            (done, cur.push(c))
        } else if cur.len() > 0 {
            (done.push(cur), seq![])
        } else {
            (done, seq![])
        }
    }
}

/// The maximal runs of alphanumeric characters in `s`, in order.
pub open spec fn tokens_of(s: Seq<char>) -> Seq<Seq<char>> {
    let (done, cur) = split_state(s);
    if cur.len() > 0 { done.push(cur) } else { done }
}

/// Split a folded query into search tokens.
///
/// Splits on every non-alphanumeric character, not just whitespace: pasting
/// `The anglerfish: The original approach to deep-sea fishing` must yield
/// `anglerfish`, not `anglerfish:`, and `deep-sea` becomes `deep` and `sea`.
pub fn tokenize(folded: &str) -> (r: Vec<String>)
    ensures
        r@.len() == tokens_of(folded@).len(),
        forall|i: int| 0 <= i < r@.len() ==> #[trigger] r@[i]@ == tokens_of(folded@)[i],
{
    let cs = str_chars(folded);
    let mut out: Vec<String> = Vec::new();
    let mut cur: Vec<char> = Vec::new();
    let mut i: usize = 0;
    while i < cs.len()
        invariant
            i <= cs.len(),
            cs@ == folded@,
            out@.len() == split_state(cs@.subrange(0, i as int)).0.len(),
            forall|k: int| 0 <= k < out@.len() ==> #[trigger] out@[k]@ == split_state(cs@.subrange(0, i as int)).0[k],
            cur@ == split_state(cs@.subrange(0, i as int)).1,
        decreases cs.len() - i,
    {
        let c = cs[i];
        assert(cs@.subrange(0, i + 1).drop_last() =~= cs@.subrange(0, i as int));
        if is_alphanumeric(c) {
            cur.push(c);
        } else if cur.len() > 0 {
            out.push(string_from_chars(cur.as_slice()));
            cur = Vec::new();
        }
        i += 1;
    }
    assert(cs@.subrange(0, cs@.len() as int) =~= cs@);
    if cur.len() > 0 {
        out.push(string_from_chars(cur.as_slice()));
    }
    out
}

// ---------------------------------------------------------------------------
// Matching
// ---------------------------------------------------------------------------

/// `n` occurs in `h` starting at `p`.
pub open spec fn occurs_at(h: Seq<u8>, n: Seq<u8>, p: int) -> bool {
    0 <= p && p + n.len() <= h.len() && h.subrange(p, p + n.len()) == n
}

/// The first position at which `n` occurs in `h`.
#[verifier::opaque]
pub open spec fn first_occurrence(h: Seq<u8>, n: Seq<u8>) -> Option<int> {
    if exists|p: int| occurs_at(h, n, p) {
        Some(choose|p: int| occurs_at(h, n, p) && forall|q: int| 0 <= q < p ==> !occurs_at(h, n, q))
    } else {
        None
    }
}

/// `memchr::memmem::find`: the index of the first occurrence of `needle`.
#[verifier::external_body]
fn memmem_find(haystack: &[u8], needle: &[u8]) -> (r: Option<usize>)
    ensures
        match r {
            Some(p) => occurs_at(haystack@, needle@, p as int) && forall|q: int|
                0 <= q < p ==> !occurs_at(haystack@, needle@, q),
            None => forall|q: int| !occurs_at(haystack@, needle@, q),
        },
{
    memchr::memmem::find(haystack, needle)
}

/// The first occurrence of `needle` in `haystack`.
pub fn find(haystack: &[u8], needle: &[u8]) -> (r: Option<usize>)
    ensures
        match r {
            Some(p) => first_occurrence(haystack@, needle@) == Some(p as int),
            None => first_occurrence(haystack@, needle@) is None,
        },
        r matches Some(p) ==> occurs_at(haystack@, needle@, p as int),
{
    let r = memmem_find(haystack, needle);
    proof {
        reveal(first_occurrence);
        if let Some(p) = r {
            let h = haystack@;
            let n = needle@;
            assert(occurs_at(h, n, p as int));
            let c = choose|x: int| occurs_at(h, n, x) && forall|q: int| 0 <= q < x ==> !occurs_at(h, n, q);
            assert(occurs_at(h, n, c) && forall|q: int| 0 <= q < c ==> !occurs_at(h, n, q));
            if c < p {
                assert(!occurs_at(h, n, c));
            }
            if p < c {
                assert(!occurs_at(h, n, p as int));
            }
        }
    }
    r
}

// ---------------------------------------------------------------------------
// Scoring
// ---------------------------------------------------------------------------

/// The whole filename, extension aside, is the token.
pub const SCORE_EXACT: i32 = 1000;
/// The name starts with the token.
pub const SCORE_PREFIX: i32 = 800;
/// The token starts a word inside the name.
pub const SCORE_WORD_START: i32 = 600;
/// The token appears somewhere in the middle of a word.
pub const SCORE_SUBSTRING: i32 = 400;
/// Not in the filename, but the folder path has it at a word boundary.
pub const SCORE_DIR_WORD_START: i32 = 250;
/// Not in the filename, but somewhere in the folder path.
pub const SCORE_DIR_SUBSTRING: i32 = 200;
/// Shorter names are more specific, so nudge them up; capped low enough that
/// it can never outrank a better match class.
pub const MAX_LENGTH_BONUS: i32 = 50;
/// How much one matched token outweighs any quality-of-match difference.
pub const MATCHED_TOKEN_WEIGHT: i32 = 100_000;
/// Sentinel for "this token is not in this directory path".
pub const NO_MATCH: i32 = -1;
/// Below this many tokens, a query that matches nothing simply matches nothing.
pub const MIN_TOKENS_TO_RELAX: usize = 3;
/// Queries with more tokens than this match nothing: the score of an entry
/// must fit in an `i32`.
pub const MAX_QUERY_TOKENS: usize = 20_000;

/// Bytes that begin a word inside a filename.
pub open spec fn word_boundary(b: u8) -> bool {
    b == 32 /* ' ' */ || b == 95 /* _ */ || b == 45 /* - */ || b == 46 /* . */ || b == 40 /* ( */
        || b == 41 /* ) */ || b == 91 /* [ */ || b == 93 /* ] */ || b == 123 /* { */ || b == 125 /* } */
        || b == 44 /* , */ || b == 39 /* ' */ || b == 43 /* + */ || b == 38 /* & */ || b == 64 /* @ */
        || b == 35 /* # */ || b == 126 /* ~ */ || b == 33 /* ! */ || b == 59 /* ; */ || b == 92 /* \ */
        || b == 47 /* / */
}

pub fn is_word_boundary(b: u8) -> (r: bool)
    ensures
        r == word_boundary(b),
{
    b == 32 || b == 95 || b == 45 || b == 46 || b == 40 || b == 41 || b == 91 || b == 93 || b == 123
        || b == 125 || b == 44 || b == 39 || b == 43 || b == 38 || b == 64 || b == 35 || b == 126 || b
        == 33 || b == 59 || b == 92 || b == 47
}

/// Favour shorter names: `Avatar.mkv` beats `my_avatar_backup_2019.mkv`.
pub open spec fn length_bonus_of(len: nat) -> i32 {
    if len / 4 >= 50 { 0 } else { (50 - len / 4) as i32 }
}

pub fn length_bonus(len: usize) -> (r: i32)
    ensures
        r == length_bonus_of(len as nat),
{
    let q = len / 4;
    if q >= 50 { 0 } else { (50 - q) as i32 }
}

/// The length of the stem: up to the last dot, or the whole name.
pub open spec fn stem_len(f: Seq<u8>) -> int {
    match crate::text::rfind_byte(f, 46) {
        Some(d) => d,
        None => f.len() as int,
    }
}

/// How well `token` matches a folded filename, if at all.
pub open spec fn token_score(f: Seq<u8>, token: Seq<u8>) -> Option<i32> {
    match first_occurrence(f, token) {
        None => None,
        Some(p) => if p == 0 {
            if token.len() == stem_len(f) || token.len() == f.len() {
                Some(SCORE_EXACT)
            } else {
                Some(SCORE_PREFIX)
            }
        } else if word_boundary(f[p - 1]) {
            Some(SCORE_WORD_START)
        } else {
            Some(SCORE_SUBSTRING)
        },
    }
}

/// How well `token` matches a folded directory path; `NO_MATCH` if absent.
pub open spec fn dir_token_score(d: Seq<u8>, token: Seq<u8>) -> i32 {
    match first_occurrence(d, token) {
        None => NO_MATCH,
        Some(p) => if p == 0 || word_boundary(d[p - 1]) {
            SCORE_DIR_WORD_START
        } else {
            SCORE_DIR_SUBSTRING
        },
    }
}

/// The bytes after which a new word starts, in a filename or a folder path:
/// space, `_`, `-`, `.`, brackets of every kind, `,`, `'`, `+`, `&`, `@`, `#`,
/// `~`, `!`, `;` and both slashes.
pub open spec fn separators() -> Set<u8> {
    set![
        32u8, /* ' ' */ 95 /* _ */, 45 /* - */, 46 /* . */, 40 /* ( */, 41 /* ) */, 91 /* [ */,
        93 /* ] */, 123 /* { */, 125 /* } */, 44 /* , */, 39 /* ' */, 43 /* + */, 38 /* & */,
        64 /* @ */, 35 /* # */, 126 /* ~ */, 33 /* ! */, 59 /* ; */, 92 /* \ */, 47 /* / */,
    ]
}

/// The first occurrence is the occurrence with none before it.
proof fn lemma_first_occurrence_at(h: Seq<u8>, n: Seq<u8>, p: int)
    requires
        occurs_at(h, n, p),
        forall|q: int| 0 <= q < p ==> !occurs_at(h, n, q),
    ensures
        first_occurrence(h, n) == Some(p),
{
    reveal(first_occurrence);
    let c = choose|x: int| occurs_at(h, n, x) && forall|q: int| 0 <= q < x ==> !occurs_at(h, n, q);
    assert(occurs_at(h, n, c) && forall|q: int| 0 <= q < c ==> !occurs_at(h, n, q));
    if c < p {
        assert(!occurs_at(h, n, c));
    }
    if p < c {
        assert(!occurs_at(h, n, p));
    }
}

/// How a token found in a folder path scores, by where it is first found: at
/// the start of the path or right after a separator (`edit` in
/// `d:\sounds edit`) it starts a word; inside a word (`edit` in
/// `d:\credits`) it ranks lower; a token the path lacks does not match.
pub proof fn folder_token_scores_by_where_it_starts(d: Seq<u8>, t: Seq<u8>, p: int)
    requires
        occurs_at(d, t, p),
        forall|q: int| 0 <= q < p ==> !occurs_at(d, t, q),
    ensures
        p == 0 || separators().contains(d[p - 1]) ==> dir_token_score(d, t) == SCORE_DIR_WORD_START,
        !(p == 0 || separators().contains(d[p - 1])) ==> dir_token_score(d, t) == SCORE_DIR_SUBSTRING,
{
    lemma_first_occurrence_at(d, t, p);
}

/// A token that a folder path does not contain does not match it.
pub proof fn folder_without_token_does_not_match(d: Seq<u8>, t: Seq<u8>)
    requires
        forall|q: int| !occurs_at(d, t, q),
    ensures
        dir_token_score(d, t) == NO_MATCH,
{
    reveal(first_occurrence);
}

/// How a token found in a filename scores, by where it is first found: the
/// whole name (or the whole stem) scores highest, then the start of the name,
/// then the start of a word after a separator, then the middle of a word; a
/// token the name lacks does not match.
pub proof fn name_token_scores_by_where_it_starts(f: Seq<u8>, t: Seq<u8>, p: int)
    requires
        occurs_at(f, t, p),
        forall|q: int| 0 <= q < p ==> !occurs_at(f, t, q),
    ensures
        p == 0 && (t.len() == f.len() || t.len() == stem_len(f)) ==> token_score(f, t) == Some(SCORE_EXACT),
        p == 0 && t.len() != f.len() && t.len() != stem_len(f) ==> token_score(f, t) == Some(SCORE_PREFIX),
        p > 0 && separators().contains(f[p - 1]) ==> token_score(f, t) == Some(SCORE_WORD_START),
        p > 0 && !separators().contains(f[p - 1]) ==> token_score(f, t) == Some(SCORE_SUBSTRING),
{
    lemma_first_occurrence_at(f, t, p);
}

/// A token that a filename does not contain does not match it.
pub proof fn name_without_token_does_not_match(f: Seq<u8>, t: Seq<u8>)
    requires
        forall|q: int| !occurs_at(f, t, q),
    ensures
        token_score(f, t) is None,
{
    reveal(first_occurrence);
}

/// The match classes rank in this order, with the length bonus too small to
/// lift an entry across a class: whole name, start of the name, start of a
/// word, middle of a word, then a folder match at a word start, then one
/// inside a word, then no match.
pub proof fn match_classes_are_ordered()
    ensures
        NO_MATCH < SCORE_DIR_SUBSTRING,
        SCORE_DIR_SUBSTRING + MAX_LENGTH_BONUS <= SCORE_DIR_WORD_START,
        SCORE_DIR_WORD_START + MAX_LENGTH_BONUS < SCORE_SUBSTRING,
        SCORE_SUBSTRING + MAX_LENGTH_BONUS < SCORE_WORD_START,
        SCORE_WORD_START + MAX_LENGTH_BONUS < SCORE_PREFIX,
        SCORE_PREFIX + MAX_LENGTH_BONUS < SCORE_EXACT,
{
}

pub fn score_token(folded: &[u8], token: &[u8]) -> (r: Option<i32>)
    ensures
        r == token_score(folded@, token@),
{
    let pos = match find(folded, token) {
        Some(p) => p,
        None => return None,
    };
    if pos == 0 {
        let stem = match crate::text::rfind(folded, 46) {
            Some(d) => d,
            None => folded.len(),
        };
        return Some(if token.len() == stem || token.len() == folded.len() {
            SCORE_EXACT
        } else {
            SCORE_PREFIX
        });
    }
    if is_word_boundary(folded[pos - 1]) {
        return Some(SCORE_WORD_START);
    }
    Some(SCORE_SUBSTRING)
}

pub fn score_dir_token(path: &[u8], token: &[u8]) -> (r: i32)
    ensures
        r == dir_token_score(path@, token@),
{
    match find(path, token) {
        None => NO_MATCH,
        Some(pos) => {
            if pos == 0 || is_word_boundary(path[pos - 1]) {
                SCORE_DIR_WORD_START
            } else {
                SCORE_DIR_SUBSTRING
            }
        },
    }
}

/// The token bytes the search matches with.
pub open spec fn token_bytes(t: Seq<Seq<char>>) -> Seq<Seq<u8>> {
    t.map_values(|s: Seq<char>| encode_utf8(s))
}

/// The bytes of each token vector.
pub open spec fn bytes_view(v: Seq<Vec<u8>>) -> Seq<Seq<u8>> {
    v.map_values(|t: Vec<u8>| t@)
}

/// Scoring one entry token by token: how many matched, the score so far, and
/// whether a required token was missing.
pub open spec fn entry_acc(f: Seq<u8>, d: Seq<u8>, toks: Seq<Seq<u8>>, require_all: bool) -> (nat, int, bool)
    decreases toks.len(),
{
    if toks.len() == 0 {
        (0, 0, false)
    } else {
        let (m, t, failed) = entry_acc(f, d, toks.drop_last(), require_all);
        let tok = toks.last();
        match token_score(f, tok) {
            Some(s) => (m + 1, t + s, failed),
            None => if dir_token_score(d, tok) != NO_MATCH {
                (m + 1, t + dir_token_score(d, tok), failed)
            } else if require_all {
                (m, t, true)
            } else {
                (m, t, failed)
            },
        }
    }
}

/// The `(tokens matched, score)` of an entry whose folded name is `f` and
/// whose folded directory is `d`.
///
/// `min_matched` of 0 means every token is required; any other value keeps
/// the entry as long as it reaches that many tokens. The filename is always
/// preferred, the folder path is the fallback.
pub open spec fn entry_score(f: Seq<u8>, d: Seq<u8>, toks: Seq<Seq<u8>>, min_matched: nat) -> Option<(u16, i32)> {
    let require_all = min_matched == 0;
    let (m, t, failed) = entry_acc(f, d, toks, require_all);
    let floor = if require_all { toks.len() } else { min_matched };
    if failed || m < floor || m < 1 {
        None
    } else {
        Some((m as u16, (t + length_bonus_of(f.len())) as i32))
    }
}

/// Each accumulated count and score stays within what one token can add.
proof fn lemma_entry_acc_bounds(f: Seq<u8>, d: Seq<u8>, toks: Seq<Seq<u8>>, require_all: bool)
    ensures
        entry_acc(f, d, toks, require_all).0 <= toks.len(),
        0 <= entry_acc(f, d, toks, require_all).1 <= SCORE_EXACT * entry_acc(f, d, toks, require_all).0,
        entry_acc(f, d, toks.drop_last(), require_all).2 && toks.len() > 0 ==> entry_acc(f, d, toks, require_all).2,
    decreases toks.len(),
{
    if toks.len() > 0 {
        lemma_entry_acc_bounds(f, d, toks.drop_last(), require_all);
    }
}

/// Once a required token is missing the entry stays rejected.
proof fn lemma_failed_stays(f: Seq<u8>, d: Seq<u8>, toks: Seq<Seq<u8>>, n: int)
    requires
        0 <= n <= toks.len(),
        entry_acc(f, d, toks.subrange(0, n), true).2,
    ensures
        entry_acc(f, d, toks, true).2,
    decreases toks.len() - n,
{
    if n < toks.len() {
        assert(toks.subrange(0, n + 1).drop_last() =~= toks.subrange(0, n));
        lemma_failed_stays(f, d, toks, n + 1);
    } else {
        assert(toks.subrange(0, n) =~= toks);
    }
}

/// Score one entry against every token.
///
/// `dir_row` is this entry's row of the per-directory table.
fn score_entry(folded: &[u8], tokens: &Vec<Vec<u8>>, dir_row: &Vec<i32>, min_matched: usize, Ghost(d): Ghost<Seq<u8>>) -> (r: Option<(u16, i32)>)
    requires
        tokens@.len() <= MAX_QUERY_TOKENS,
        dir_row@.len() == tokens@.len(),
        forall|t: int| 0 <= t < tokens@.len() ==> #[trigger] dir_row@[t] == dir_token_score(d, tokens@[t]@),
    ensures
        r == entry_score(folded@, d, bytes_view(tokens@), min_matched as nat),
{
    let ghost toks = bytes_view(tokens@);
    let require_all = min_matched == 0;
    let mut total: i32 = 0;
    let mut matched: u16 = 0;
    let mut k: usize = 0;
    while k < tokens.len()
        invariant
            k <= tokens@.len(),
            tokens@.len() <= MAX_QUERY_TOKENS,
            dir_row@.len() == tokens@.len(),
            toks == bytes_view(tokens@),
            forall|t: int| 0 <= t < tokens@.len() ==> #[trigger] dir_row@[t] == dir_token_score(d, tokens@[t]@),
            require_all == (min_matched == 0),
            entry_acc(folded@, d, toks.subrange(0, k as int), require_all) == (matched as nat, total as int, false),
        decreases tokens@.len() - k,
    {
        proof {
            assert(toks.subrange(0, k + 1).drop_last() =~= toks.subrange(0, k as int));
            lemma_entry_acc_bounds(folded@, d, toks.subrange(0, k as int), require_all);
            assert(toks.subrange(0, k + 1).last() == tokens@[k as int]@);
        }
        match score_token(folded, tokens[k].as_slice()) {
            Some(s) => {
                total = total + s;
                matched = matched + 1;
            },
            None => {
                let ds = dir_row[k];
                if ds != NO_MATCH {
                    total = total + ds;
                    matched = matched + 1;
                } else if require_all {
                    proof {
                        lemma_failed_stays(folded@, d, toks, k + 1);
                    }
                    return None;
                }
            },
        }
        k += 1;
    }
    proof {
        assert(toks.subrange(0, k as int) =~= toks);
        lemma_entry_acc_bounds(folded@, d, toks, require_all);
    }
    let floor = if require_all { tokens.len() } else { min_matched };
    if (matched as usize) < floor || matched < 1 {
        return None;
    }
    let bonus = length_bonus(folded.len());
    Some((matched, total + bonus))
}

// ---------------------------------------------------------------------------
// Hits and their order
// ---------------------------------------------------------------------------

/// One scored match.
#[derive(Debug, Clone, Copy, PartialEq, Eq, Structural)]
pub struct Hit {
    pub index: u32,
    pub score: i32,
    /// How many of the query's tokens this entry actually contains.
    pub matched: u16,
}

/// `a` ranks above `b`: higher score first, lower index breaking ties. Total
/// on hits with distinct indices, which is what makes results reproducible.
pub open spec fn better(a: Hit, b: Hit) -> bool {
    a.score > b.score || (a.score == b.score && a.index < b.index)
}

pub fn ranks_above(a: &Hit, b: &Hit) -> (r: bool)
    ensures
        r == better(*a, *b),
{
    a.score > b.score || (a.score == b.score && a.index < b.index)
}

/// The hit entry `i` produces, if it matches and passes the kind filter.
pub open spec fn hit_of(v: IndexView, i: int, toks: Seq<Seq<u8>>, min_matched: nat, kinds: Seq<MediaKind>) -> Option<Hit> {
    if kinds.len() > 0 && !kinds.contains(v.kinds[i]) {
        None
    } else {
        match entry_score(folded_bytes(v.names[i]), folded_bytes(v.dir_text(i)), toks, min_matched) {
            None => None,
            Some((m, s)) => Some(
                Hit { index: i as u32, score: (m * MATCHED_TOKEN_WEIGHT + s) as i32, matched: m },
            ),
        }
    }
}

/// Every hit among the first `n` entries, in index order.
pub open spec fn all_hits(v: IndexView, toks: Seq<Seq<u8>>, min_matched: nat, kinds: Seq<MediaKind>, n: nat) -> Seq<Hit>
    decreases n,
{
    if n == 0 {
        seq![]
    } else {
        let prev = all_hits(v, toks, min_matched, kinds, (n - 1) as nat);
        match hit_of(v, n - 1, toks, min_matched, kinds) {
            Some(h) => prev.push(h),
            None => prev,
        }
    }
}

/// Hits listed with strictly increasing indices, all below `n`.
pub open spec fn increasing_below(s: Seq<Hit>, n: int) -> bool {
    &&& forall|i: int, j: int| 0 <= i < j < s.len() ==> s[i].index < s[j].index
    &&& forall|i: int| 0 <= i < s.len() ==> s[i].index < n
}

proof fn lemma_all_hits_increasing(v: IndexView, toks: Seq<Seq<u8>>, min_matched: nat, kinds: Seq<MediaKind>, n: nat)
    requires
        n < u32::MAX,
    ensures
        increasing_below(all_hits(v, toks, min_matched, kinds, n), n as int),
    decreases n,
{
    if n > 0 {
        lemma_all_hits_increasing(v, toks, min_matched, kinds, (n - 1) as nat);
    }
}

/// `r` is the best `k` of `all`, best first: sorted, drawn from `all`, and
/// every hit left out ranks below the last one kept.
pub open spec fn is_top(r: Seq<Hit>, all: Seq<Hit>, k: nat) -> bool {
    &&& r.len() == if k < all.len() { k } else { all.len() }
    &&& forall|i: int, j: int| 0 <= i < j < r.len() ==> better(r[i], r[j])
    &&& forall|i: int| 0 <= i < r.len() ==> all.contains(#[trigger] r[i])
    &&& forall|j: int| 0 <= j < all.len() ==> r.contains(#[trigger] all[j]) || (r.len() == k && k > 0 && better(r[k - 1], all[j]))
}

/// What inserting `h` into the best-`k` list `o` produced in `n`: still
/// sorted, nothing invented, anything dropped ranking below the new last one.
pub open spec fn insert_post(o: Seq<Hit>, n: Seq<Hit>, h: Hit, k: nat) -> bool {
    &&& n.len() == if o.len() < k { o.len() + 1 } else { k }
    &&& forall|i: int, j: int| 0 <= i < j < n.len() ==> better(n[i], n[j])
    &&& forall|i: int| 0 <= i < n.len() ==> (#[trigger] n[i] == h || o.contains(n[i]))
    &&& forall|i: int| 0 <= i < o.len() ==> n.contains(#[trigger] o[i]) || (n.len() == k && better(n[k - 1], o[i]))
    &&& n.contains(h) || (n.len() == k && better(n[k - 1], h))
    &&& o.len() == k ==> forall|i: int| 0 <= i < n.len() ==> #[trigger] n[i] == o[k - 1] || better(n[i], o[k - 1])
}

/// Inserting the next hit keeps the list the best `k` of everything seen.
proof fn lemma_top_step(o: Seq<Hit>, n: Seq<Hit>, all: Seq<Hit>, h: Hit, k: nat)
    requires
        k > 0,
        is_top(o, all, k),
        insert_post(o, n, h, k),
    ensures
        is_top(n, all.push(h), k),
{
    let a2 = all.push(h);
    assert forall|i: int| 0 <= i < n.len() implies a2.contains(#[trigger] n[i]) by {
        if n[i] == h {
            assert(a2[all.len() as int] == h);
        } else {
            let q = choose|q: int| 0 <= q < o.len() && o[q] == n[i];
            assert(all.contains(o[q]));
            let w = choose|w: int| 0 <= w < all.len() && all[w] == o[q];
            assert(a2[w] == all[w]);
        }
    }
    assert forall|j: int| 0 <= j < a2.len() implies n.contains(#[trigger] a2[j]) || (n.len() == k && k > 0 && better(n[k - 1], a2[j])) by {
        if j == all.len() {
            assert(a2[j] == h);
        } else {
            let x = all[j];
            assert(a2[j] == x);
            if o.contains(x) {
                let q = choose|q: int| 0 <= q < o.len() && o[q] == x;
                assert(n.contains(o[q]) || (n.len() == k && better(n[k - 1], o[q])));
            } else {
                assert(o.len() == k && better(o[k - 1], x));
                assert(n[k - 1] == o[k - 1] || better(n[k - 1], o[k - 1]));
            }
        }
    }
}

/// Insert `h` into the running best-`k` list.
fn insert_top(top: &mut Vec<Hit>, h: Hit, k: usize)
    requires
        k > 0,
        old(top)@.len() <= k,
        forall|i: int, j: int| 0 <= i < j < old(top)@.len() ==> better(old(top)@[i], old(top)@[j]),
        forall|i: int| 0 <= i < old(top)@.len() ==> old(top)@[i].index < h.index,
    ensures
        insert_post(old(top)@, final(top)@, h, k as nat),
{
    let ghost o = top@;
    if top.len() == k && !ranks_above(&h, &top[k - 1]) {
        proof {
            assert(better(o[k - 1], h));
            assert forall|i: int| 0 <= i < o.len() implies o.contains(#[trigger] o[i]) by {}
            assert forall|i: int| 0 <= i < o.len() implies #[trigger] o[i] == o[k - 1] || better(o[i], o[k - 1]) by {}
        }
        return;
    }
    let mut p: usize = 0;
    while p < top.len() && !ranks_above(&h, &top[p])
        invariant
            top@ == o,
            p <= top@.len(),
            forall|j: int| 0 <= j < p ==> better(top@[j], h),
            forall|i: int| 0 <= i < o.len() ==> o[i].index < h.index,
        decreases top@.len() - p,
    {
        p += 1;
    }
    top.insert(p, h);
    let ghost n1 = top@;
    assert(n1 == o.insert(p as int, h));
    assert(p < o.len() ==> better(h, o[p as int]));
    assert forall|i: int, j: int| 0 <= i < j < n1.len() implies better(n1[i], n1[j]) by {
        if j < p {
            assert(n1[i] == o[i] && n1[j] == o[j]);
        } else if j == p {
            assert(n1[i] == o[i] && n1[j] == h);
        } else if i < p {
            assert(n1[i] == o[i] && n1[j] == o[j - 1]);
        } else if i == p {
            assert(n1[i] == h && n1[j] == o[j - 1]);
            if j - 1 > p {
                assert(better(o[p as int], o[j - 1]));
            }
        } else {
            assert(n1[i] == o[i - 1] && n1[j] == o[j - 1]);
        }
    }
    if top.len() > k {
        top.pop();
    }
    proof {
        let n = top@;
        assert(forall|i: int| 0 <= i < n.len() ==> n[i] == n1[i]);
        assert forall|i: int| 0 <= i < n.len() implies (#[trigger] n[i] == h || o.contains(n[i])) by {
            if i < p {
                assert(n[i] == o[i]);
            } else if i > p {
                assert(n[i] == o[i - 1]);
            }
        }
        assert forall|i: int| 0 <= i < o.len() implies n.contains(#[trigger] o[i]) || (n.len() == k && better(n[k - 1], o[i])) by {
            if i < p {
                assert(n[i] == o[i]);
            } else if i + 1 < n.len() {
                assert(n[i + 1] == o[i]);
            } else {
                assert(i == o.len() - 1);
                assert(n.len() == k);
                assert(better(n[k - 1], o[i]) || n[k - 1] == o[i]);
            }
        }
        assert(n[p as int] == h);
        if o.len() == k {
            assert forall|i: int| 0 <= i < n.len() implies #[trigger] n[i] == o[k - 1] || better(n[i], o[k - 1]) by {
                if i < p {
                    assert(n[i] == o[i]);
                } else if i > p {
                    assert(n[i] == o[i - 1]);
                }
            }
        }
    }
}

/// In a list of hits with distinct indices, the index names the hit.
pub open spec fn distinct_indices(all: Seq<Hit>) -> bool {
    forall|a: int, b: int| 0 <= a < all.len() && 0 <= b < all.len() && all[a].index == all[b].index ==> a == b
}

proof fn lemma_top_prefix(r1: Seq<Hit>, r2: Seq<Hit>, all: Seq<Hit>, k: nat, i: int)
    requires
        is_top(r1, all, k),
        is_top(r2, all, k),
        distinct_indices(all),
        0 <= i < r1.len(),
    ensures
        forall|j: int| 0 <= j <= i ==> r1[j] == r2[j],
    decreases i,
{
    if i > 0 {
        lemma_top_prefix(r1, r2, all, k, i - 1);
    }
    assert(r1.len() == r2.len());
    let x = r1[i];
    let y = r2[i];
    assert(all.contains(x));
    assert(all.contains(y));
    let wx = choose|w: int| 0 <= w < all.len() && all[w] == x;
    let wy = choose|w: int| 0 <= w < all.len() && all[w] == y;
    if x != y {
        assert(x.index != y.index) by {
            if x.index == y.index {
                assert(wx == wy);
            }
        }
        if better(x, y) {
            assert(r2.contains(all[wx]) || (r2.len() == k && k > 0 && better(r2[k - 1], all[wx])));
            if r2.contains(x) {
                let m = choose|m: int| 0 <= m < r2.len() && r2[m] == x;
                if m < i {
                    assert(r1[m] == x);
                    assert(better(r1[m], r1[i]));
                } else if m > i {
                    assert(better(r2[i], r2[m]));
                }
            } else {
                if i < k - 1 {
                    assert(better(r2[i], r2[k - 1]));
                }
            }
        } else {
            assert(better(y, x));
            assert(r1.contains(all[wy]) || (r1.len() == k && k > 0 && better(r1[k - 1], all[wy])));
            if r1.contains(y) {
                let m = choose|m: int| 0 <= m < r1.len() && r1[m] == y;
                if m < i {
                    assert(r2[m] == y);
                    assert(better(r2[m], r2[i]));
                } else if m > i {
                    assert(better(r1[i], r1[m]));
                }
            } else {
                if i < k - 1 {
                    assert(better(r1[i], r1[k - 1]));
                }
            }
        }
    }
}

/// The best `k` of a list of hits is determined by the list alone: two
/// selections that both qualify are the same list. This is why the same query
/// always gives the same results, run after run.
pub proof fn top_is_unique(r1: Seq<Hit>, r2: Seq<Hit>, all: Seq<Hit>, k: nat)
    requires
        is_top(r1, all, k),
        is_top(r2, all, k),
        distinct_indices(all),
    ensures
        r1 == r2,
{
    if r1.len() > 0 {
        lemma_top_prefix(r1, r2, all, k, r1.len() - 1);
    }
    assert(r1 =~= r2);
}

/// The best `k` of `all`.
pub open spec fn top_of(all: Seq<Hit>, k: nat) -> Seq<Hit> {
    choose|r: Seq<Hit>| is_top(r, all, k)
}

/// Hits as a search returns them: best first, at most `limit`, each an
/// entry of the index of one of the `kinds` asked for (any kind when none).
pub open spec fn ranked_hits(v: IndexView, limit: nat, kinds: Seq<MediaKind>, h: Seq<Hit>) -> bool {
    &&& h.len() <= limit
    &&& forall|i: int, j: int| 0 <= i < j < h.len() ==> better(#[trigger] h[i], #[trigger] h[j])
    &&& forall|i: int|
        0 <= i < h.len() ==> (#[trigger] h[i]).index < v.len() && (kinds.len() > 0 ==> kinds.contains(
            v.kinds[h[i].index as int],
        ))
}

proof fn lemma_all_hits_member(v: IndexView, toks: Seq<Seq<u8>>, m: nat, kinds: Seq<MediaKind>, n: nat, h: Hit)
    requires
        all_hits(v, toks, m, kinds, n).contains(h),
        n < u32::MAX,
    ensures
        h.index < n,
        kinds.len() > 0 ==> kinds.contains(v.kinds[h.index as int]),
    decreases n,
{
    if n > 0 {
        let prev = all_hits(v, toks, m, kinds, (n - 1) as nat);
        match hit_of(v, n - 1, toks, m, kinds) {
            Some(x) => {
                if h == x {
                    assert(h.index == n - 1);
                } else {
                    let k = choose|k: int| 0 <= k < prev.push(x).len() && prev.push(x)[k] == h;
                    assert(k < prev.len());
                    assert(prev.contains(h));
                    lemma_all_hits_member(v, toks, m, kinds, (n - 1) as nat, h);
                }
            },
            None => {
                lemma_all_hits_member(v, toks, m, kinds, (n - 1) as nat, h);
            },
        }
    }
}

proof fn lemma_top_ranked(v: IndexView, toks: Seq<Seq<u8>>, m: nat, kinds: Seq<MediaKind>, r: Seq<Hit>, k: nat)
    requires
        is_top(r, all_hits(v, toks, m, kinds, v.len()), k),
        v.len() < u32::MAX,
    ensures
        ranked_hits(v, k, kinds, r),
{
    assert forall|i: int| 0 <= i < r.len() implies (#[trigger] r[i]).index < v.len() && (kinds.len() > 0 ==> kinds.contains(
        v.kinds[r[i].index as int],
    )) by {
        lemma_all_hits_member(v, toks, m, kinds, v.len(), r[i]);
    }
}

/// A list satisfying `is_top` is *the* best `k`.
pub proof fn lemma_is_top_of(r: Seq<Hit>, all: Seq<Hit>, k: nat)
    requires
        is_top(r, all, k),
        distinct_indices(all),
    ensures
        r == top_of(all, k),
{
    let t = top_of(all, k);
    assert(is_top(t, all, k));
    top_is_unique(r, t, all, k);
}

// ---------------------------------------------------------------------------
// Passes
// ---------------------------------------------------------------------------

/// Entries between two checks for a superseding query.
pub const CHUNK: usize = 16_384;

/// How many results, and of which kinds.
#[derive(Debug, Clone)]
pub struct SearchOptions {
    pub limit: usize,
    /// Restrict to these kinds. Empty means no restriction.
    pub kinds: Vec<MediaKind>,
}

impl Default for SearchOptions {
    fn default() -> (r: Self)
        ensures
            r.limit == 5_000,
            r.kinds@.len() == 0,
    {
        SearchOptions { limit: 5_000, kinds: Vec::new() }
    }
}

/// Why the results are what they are.
#[derive(Debug, Clone, Copy, PartialEq, Eq, Structural)]
pub struct Relaxed {
    pub total_tokens: usize,
    /// The most tokens any single result managed to match.
    pub best_matched: usize,
}

#[derive(Debug)]
pub struct SearchOutcome {
    pub hits: Vec<Hit>,
    /// `Some` when nothing matched the whole query and these are the closest
    /// partial matches instead.
    pub relaxed: Option<Relaxed>,
}

impl Default for SearchOutcome {
    fn default() -> (r: Self)
        ensures
            r.hits@.len() == 0,
            r.relaxed is None,
    {
        SearchOutcome { hits: Vec::new(), relaxed: None }
    }
}

/// A newer query has claimed the search, so this one should stop.
fn superseded(cancel: &AtomicU64, generation: u64) -> bool {
    cancel.load(Ordering::Relaxed) != generation
}

/// The entry's score stays inside what its token count allows.
proof fn lemma_entry_score_bounds(f: Seq<u8>, d: Seq<u8>, toks: Seq<Seq<u8>>, min_matched: nat)
    requires
        toks.len() <= MAX_QUERY_TOKENS,
    ensures
        entry_score(f, d, toks, min_matched) matches Some((m, s)) ==> 1 <= m <= toks.len() && 0 <= s <= SCORE_EXACT * m + MAX_LENGTH_BONUS,
{
    lemma_entry_acc_bounds(f, d, toks, min_matched == 0);
}

/// Is `k` one of `kinds`?
fn kind_listed(kinds: &Vec<MediaKind>, k: MediaKind) -> (r: bool)
    ensures
        r == kinds@.contains(k),
{
    let mut j: usize = 0;
    while j < kinds.len()
        invariant
            j <= kinds@.len(),
            forall|q: int| 0 <= q < j ==> kinds@[q] != k,
        decreases kinds@.len() - j,
    {
        if kinds[j] == k {
            return true;
        }
        j += 1;
    }
    false
}

/// Score every directory against every token, once per query.
///
/// Searching the folder path is not optional: real libraries keep every
/// meaningful word in the path and name the files `154.mp3`. Doing it per
/// directory rather than per file is what keeps it cheap.
fn score_directories(index: &Index, tokens: &Vec<Vec<u8>>) -> (table: Vec<Vec<i32>>)
    ensures
        table@.len() == index.view().dirs.len(),
        forall|d: int| 0 <= d < table@.len() ==> (#[trigger] table@[d])@.len() == tokens@.len(),
        forall|d: int, t: int| 0 <= d < table@.len() && 0 <= t < tokens@.len() ==> #[trigger] table@[d]@[t]
            == dir_token_score(folded_bytes(index.view().dirs[d]), tokens@[t]@),
{
    let mut table: Vec<Vec<i32>> = Vec::new();
    let nd = index.dir_count();
    let mut d: usize = 0;
    while d < nd
        invariant
            d <= nd,
            nd == index.view().dirs.len(),
            table@.len() == d,
            forall|e: int| 0 <= e < d ==> (#[trigger] table@[e])@.len() == tokens@.len(),
            forall|e: int, t: int| 0 <= e < d && 0 <= t < tokens@.len() ==> #[trigger] table@[e]@[t]
                == dir_token_score(folded_bytes(index.view().dirs[e]), tokens@[t]@),
        decreases nd - d,
    {
        let path = index.dir_folded(d);
        let mut row: Vec<i32> = Vec::new();
        let mut t: usize = 0;
        while t < tokens.len()
            invariant
                t <= tokens@.len(),
                row@.len() == t,
                path@ == folded_bytes(index.view().dirs[d as int]),
                forall|u: int| 0 <= u < t ==> row@[u] == dir_token_score(path@, tokens@[u]@),
            decreases tokens@.len() - t,
        {
            row.push(score_dir_token(path, tokens[t].as_slice()));
            t += 1;
        }
        table.push(row);
        d += 1;
    }
    table
}

/// The best `limit` entries of one pass, or nothing if a newer query took
/// over. `min_matched` of 0 requires every token.
fn run_pass(
    index: &Index,
    tokens: &Vec<Vec<u8>>,
    kinds: &Vec<MediaKind>,
    limit: usize,
    cancel: Option<&AtomicU64>,
    generation: u64,
    min_matched: usize,
) -> (r: Option<Vec<Hit>>)
    requires
        limit > 0,
        tokens@.len() <= MAX_QUERY_TOKENS,
    ensures
        r matches Some(hits) ==> is_top(
            hits@,
            all_hits(index.view(), bytes_view(tokens@), min_matched as nat, kinds@, index.view().len()),
            limit as nat,
        ),
        cancel is None ==> r is Some,
{
    let ghost v = index.view();
    let ghost toks = bytes_view(tokens@);
    let dir_scores = score_directories(index, tokens);
    let n = index.len();
    let dir_ids = index.dir_ids();
    let mut top: Vec<Hit> = Vec::new();
    let mut i: usize = 0;
    while i < n
        invariant
            i <= n,
            n == v.len(),
            v == index.view(),
            v.consistent(),
            n < u32::MAX,
            limit > 0,
            tokens@.len() <= MAX_QUERY_TOKENS,
            toks == bytes_view(tokens@),
            dir_ids@ == v.dir_of,
            dir_scores@.len() == v.dirs.len(),
            forall|d: int| 0 <= d < dir_scores@.len() ==> (#[trigger] dir_scores@[d])@.len() == tokens@.len(),
            forall|d: int, t: int| 0 <= d < dir_scores@.len() && 0 <= t < tokens@.len() ==> #[trigger] dir_scores@[d]@[t]
                == dir_token_score(folded_bytes(v.dirs[d]), tokens@[t]@),
            is_top(top@, all_hits(v, toks, min_matched as nat, kinds@, i as nat), limit as nat),
        decreases n - i,
    {
        proof {
            lemma_all_hits_increasing(v, toks, min_matched as nat, kinds@, i as nat);
        }
        if i % CHUNK == 0 {
            if let Some(c) = cancel {
                if superseded(c, generation) {
                    return None;
                }
            }
        }
        let ghost all = all_hits(v, toks, min_matched as nat, kinds@, i as nat);
        let kind = index.kind(i);
        if kinds.len() > 0 && !kind_listed(kinds, kind) {
            i += 1;
            continue;
        }
        let did = dir_ids[i] as usize;
        let row = &dir_scores[did];
        let ghost dtext = folded_bytes(v.dir_text(i as int));
        let scored = score_entry(index.folded(i), tokens, row, min_matched, Ghost(dtext));
        proof {
            lemma_entry_score_bounds(folded_bytes(v.names[i as int]), dtext, toks, min_matched as nat);
            assert(toks.len() == tokens@.len());
        }
        match scored {
            Some((m, s)) => {
                let hit = Hit { index: i as u32, score: (m as i32) * MATCHED_TOKEN_WEIGHT + s, matched: m };
                let ghost o = top@;
                proof {
                    assert forall|q: int| 0 <= q < o.len() implies o[q].index < hit.index by {
                        assert(all.contains(o[q]));
                    }
                }
                insert_top(&mut top, hit, limit);
                proof {
                    lemma_top_step(o, top@, all, hit, limit as nat);
                    assert(all_hits(v, toks, min_matched as nat, kinds@, (i + 1) as nat) == all.push(hit));
                }
            },
            None => {},
        }
        i += 1;
    }
    if let Some(c) = cancel {
        if superseded(c, generation) {
            return None;
        }
    }
    Some(top)
}

/// How many hits lead the list before the first that matched fewer than `m`
/// tokens.
pub open spec fn lead_len(p: Seq<Hit>, m: u16) -> nat
    decreases p.len(),
{
    if p.len() == 0 {
        0
    } else if p[0].matched < m {
        0
    } else {
        1 + lead_len(p.drop_first(), m)
    }
}

/// What `search` returns for query `q` on index `v`.
///
/// 1. **Strict**: every token must appear. If that finds anything, or the
///    query has fewer than three tokens, that is the answer.
/// 2. **Relaxed**: otherwise entries matching at least half the tokens
///    (rounded up) are ranked, and only those tied with the best match count
///    are kept; the outcome says the results are partial.
pub open spec fn search_result(v: IndexView, q: Seq<char>, limit: nat, kinds: Seq<MediaKind>) -> (Seq<Hit>, Option<Relaxed>) {
    let toks = token_bytes(tokens_of(fold_chars(q)));
    if toks.len() == 0 || v.len() == 0 || limit == 0 || toks.len() > MAX_QUERY_TOKENS {
        (seq![], None)
    } else {
        let strict = top_of(all_hits(v, toks, 0, kinds, v.len()), limit);
        if strict.len() > 0 || toks.len() < MIN_TOKENS_TO_RELAX {
            (strict, None)
        } else {
            let half = ((toks.len() + 1) / 2) as nat;
            let partial = top_of(all_hits(v, toks, half, kinds, v.len()), limit);
            if partial.len() == 0 {
                (seq![], None)
            } else {
                (
                    partial.take(lead_len(partial, partial[0].matched) as int),
                    Some(Relaxed { total_tokens: toks.len() as usize, best_matched: partial[0].matched as usize }),
                )
            }
        }
    }
}

proof fn lemma_increasing_distinct(s: Seq<Hit>, n: int)
    requires
        increasing_below(s, n),
    ensures
        distinct_indices(s),
{
    assert forall|a: int, b: int| 0 <= a < s.len() && 0 <= b < s.len() && s[a].index == s[b].index implies a == b by {
        if a < b {
            assert(s[a].index < s[b].index);
        } else if b < a {
            assert(s[b].index < s[a].index);
        }
    }
}

proof fn lemma_lead_len_step(p: Seq<Hit>, m: u16, j: int)
    requires
        0 <= j < p.len(),
        p[j].matched >= m,
    ensures
        lead_len(p.subrange(j, p.len() as int), m) == 1 + lead_len(p.subrange(j + 1, p.len() as int), m),
{
    assert(p.subrange(j, p.len() as int).drop_first() =~= p.subrange(j + 1, p.len() as int));
}

/// The token bytes of each token.
fn token_byte_vecs(tokens: &Vec<String>) -> (r: Vec<Vec<u8>>)
    ensures
        bytes_view(r@) == token_bytes(tokens@.map_values(|s: String| s@)),
{
    let mut r: Vec<Vec<u8>> = Vec::new();
    let mut i: usize = 0;
    while i < tokens.len()
        invariant
            i <= tokens@.len(),
            r@.len() == i,
            forall|k: int| 0 <= k < i ==> (#[trigger] r@[k])@ == encode_utf8(tokens@[k]@),
        decreases tokens@.len() - i,
    {
        let mut b: Vec<u8> = Vec::new();
        b.extend_from_slice(tokens[i].as_str().as_bytes());
        r.push(b);
        i += 1;
    }
    assert(bytes_view(r@) =~= token_bytes(tokens@.map_values(|s: String| s@)));
    r
}

/// Search `index` for `query`.
///
/// `cancel` and `generation` let a search abandon its work the moment a newer
/// keystroke supersedes it: when `cancel` no longer holds `generation`, the
/// outcome is empty. Otherwise it is exactly [`search_result`].
pub fn search(index: &Index, query: &str, opts: &SearchOptions, cancel: &AtomicU64, generation: u64) -> (r: SearchOutcome)
    ensures
        (r.hits@, r.relaxed) == search_result(index.view(), query@, opts.limit as nat, opts.kinds@)
            || (r.hits@.len() == 0 && r.relaxed is None),
        ranked_hits(index.view(), opts.limit as nat, opts.kinds@, r.hits@),
{
    search_in(index, query, opts, Some(cancel), generation)
}

/// Search `index` for `query` to the end, with no newer query to give way
/// to: exactly [`search_result`].
pub fn search_all(index: &Index, query: &str, opts: &SearchOptions) -> (r: SearchOutcome)
    ensures
        (r.hits@, r.relaxed) == search_result(index.view(), query@, opts.limit as nat, opts.kinds@),
        ranked_hits(index.view(), opts.limit as nat, opts.kinds@, r.hits@),
{
    search_in(index, query, opts, None, 0)
}

/// The search, giving way to a newer query only when there is a `cancel`
/// to watch.
fn search_in(index: &Index, query: &str, opts: &SearchOptions, cancel: Option<&AtomicU64>, generation: u64) -> (r: SearchOutcome)
    ensures
        (r.hits@, r.relaxed) == search_result(index.view(), query@, opts.limit as nat, opts.kinds@)
            || (cancel is Some && r.hits@.len() == 0 && r.relaxed is None),
        ranked_hits(index.view(), opts.limit as nat, opts.kinds@, r.hits@),
{
    let ghost v = index.view();
    index.text_fits();
    let folded = fold(query);
    let tokens = tokenize(folded.as_str());
    let ghost toks = token_bytes(tokens_of(fold_chars(query@)));
    assert(tokens@.map_values(|s: String| s@) =~= tokens_of(fold_chars(query@)));
    let tb = token_byte_vecs(&tokens);
    assert(bytes_view(tb@) == toks);
    let n = index.len();
    if tb.len() == 0 || n == 0 || opts.limit == 0 || tb.len() > MAX_QUERY_TOKENS {
        return SearchOutcome::default();
    }
    proof {
        lemma_all_hits_increasing(v, toks, 0, opts.kinds@, v.len());
        lemma_increasing_distinct(all_hits(v, toks, 0, opts.kinds@, v.len()), v.len() as int);
    }
    let strict = match run_pass(index, &tb, &opts.kinds, opts.limit, cancel, generation, 0) {
        Some(h) => h,
        None => return SearchOutcome::default(),
    };
    proof {
        lemma_is_top_of(strict@, all_hits(v, toks, 0, opts.kinds@, v.len()), opts.limit as nat);
        lemma_top_ranked(v, toks, 0, opts.kinds@, strict@, opts.limit as nat);
    }
    if strict.len() > 0 || tb.len() < MIN_TOKENS_TO_RELAX {
        return SearchOutcome { hits: strict, relaxed: None };
    }
    let half = (tb.len() + 1) / 2;
    proof {
        lemma_all_hits_increasing(v, toks, half as nat, opts.kinds@, v.len());
        lemma_increasing_distinct(all_hits(v, toks, half as nat, opts.kinds@, v.len()), v.len() as int);
    }
    let mut partial = match run_pass(index, &tb, &opts.kinds, opts.limit, cancel, generation, half) {
        Some(h) => h,
        None => return SearchOutcome::default(),
    };
    proof {
        lemma_is_top_of(partial@, all_hits(v, toks, half as nat, opts.kinds@, v.len()), opts.limit as nat);
        lemma_top_ranked(v, toks, half as nat, opts.kinds@, partial@, opts.limit as nat);
    }
    if partial.len() == 0 {
        return SearchOutcome::default();
    }
    let best = partial[0].matched;
    let ghost p0 = partial@;
    let mut j: usize = 0;
    assert(p0.subrange(0, p0.len() as int) =~= p0);
    while j < partial.len() && partial[j].matched >= best
        invariant
            partial@ == p0,
            j <= p0.len(),
            lead_len(p0, best) == j + lead_len(p0.subrange(j as int, p0.len() as int), best),
        decreases p0.len() - j,
    {
        proof {
            lemma_lead_len_step(p0, best, j as int);
        }
        j += 1;
    }
    proof {
        if j < p0.len() {
            assert(p0.subrange(j as int, p0.len() as int)[0] == p0[j as int]);
        }
    }
    partial.truncate(j);
    assert(partial@ =~= p0.take(lead_len(p0, best) as int));
    SearchOutcome {
        hits: partial,
        relaxed: Some(Relaxed { total_tokens: tb.len(), best_matched: best as usize }),
    }
}

} // verus!
