//! Background enrichment: width, height and duration filled in over time.
//!
//! Reading them means opening the file, tens of milliseconds each, so it
//! happens quietly in the background and the answers are kept between runs,
//! keyed by path (entry numbers change on every rescan) together with the
//! size and modification time they were read at. Video is read first: it is
//! what people filter by resolution and duration.
//!
//! This module holds the decisions: what is already known, what is left to
//! read and in which order, how a batch of answers lands in the shared array,
//! and how the stored file announces itself. The threads and the disk are the
//! caller's.

use std::collections::hash_map::DefaultHasher;
use std::collections::HashMap;
use std::hash::Hasher;

use vstd::prelude::*;
use vstd::std_specs::hash::DefaultHasherAdditionalSpecFns;
use vstd::std_specs::iter::IteratorSpec;
use vstd::string::StringSliceAdditionalSpecFns;
use vstd::utf8::encode_utf8;

use crate::index::model::{Index, IndexView, MediaKind};
use crate::media::metadata::MediaProps;
use crate::text::{lowercase_of, str_lowercase};

verus! {

broadcast use vstd::std_specs::hash::group_hash_axioms;

/// The first bytes of the stored file: "MFMETA01".
pub const MAGIC: [u8; 8] = [0x4d, 0x46, 0x4d, 0x45, 0x54, 0x41, 0x30, 0x31];

/// Layout version of the stored body, written after [`MAGIC`] as four
/// little-endian bytes, outside the encoded body so it stays readable when
/// the layout it guards has changed.
pub const SCHEMA_VERSION: u32 = 1;

/// Magic and version together.
pub const HEADER_LEN: usize = 12;

/// Threads doing the reading: the work is disk-bound, and more would only
/// take the disk away from the user.
pub const WORKERS: usize = 2;

/// A worker publishes its answers and saves after this many files.
pub const SAVE_EVERY: usize = 500;

/// What the interface shows about enrichment.
#[derive(Debug, Clone, Copy, PartialEq, Eq)]
pub struct EnrichStatus {
    pub running: bool,
    /// Entries with usable properties, read now or loaded from disk.
    pub done: usize,
    pub total: usize,
}

impl Default for EnrichStatus {
    fn default() -> (r: Self)
        ensures
            r == (EnrichStatus { running: false, done: 0, total: 0 }),
    {
        EnrichStatus { running: false, done: 0, total: 0 }
    }
}

/// One file's stored answer, with the size and modification time it was read
/// at: if either differs now, the answer is about another file.
#[derive(Debug, Clone, Copy, PartialEq, Eq)]
pub struct Entry {
    pub size: u64,
    pub mtime: i64,
    pub props: MediaProps,
}

/// Stored answers, keyed by [`path_key`].
#[derive(Debug)]
pub struct Store {
    by_path: HashMap<u64, Entry>,
}

/// No properties at all: "asked and got nothing" or "not asked yet".
pub open spec fn blank(p: MediaProps) -> bool {
    p.width == 0 && p.height == 0 && p.duration_ms == 0
}

pub open spec fn no_props() -> MediaProps {
    MediaProps { width: 0, height: 0, duration_ms: 0 }
}

/// The key of a path: the default hasher over its lowercase UTF-8, as `str`
/// feeds a hasher (the bytes, then `0xff`). Windows does not tell case apart,
/// so differently cased paths to one file share a key.
pub open spec fn key_spec(path: Seq<char>) -> u64 {
    DefaultHasher::spec_finish(seq![encode_utf8(str_lowercase(path)), seq![0xffu8]])
}

/// Hash a path into a stable key.
pub fn path_key(path: &str) -> (r: u64)
    ensures
        r == key_spec(path@),
{
    let low = lowercase_of(path);
    let mut h = DefaultHasher::new();
    let b = low.as_str().as_bytes();
    assert(b@ == encode_utf8(str_lowercase(path@)));
    h.write(b);
    let end: [u8; 1] = [0xff];
    let e = end.as_slice();
    assert(e@ =~= seq![0xffu8]);
    h.write(e);
    assert(h@ =~= seq![encode_utf8(str_lowercase(path@)), seq![0xffu8]]);
    h.finish()
}

impl View for Store {
    type V = Map<u64, Entry>;

    closed spec fn view(&self) -> Map<u64, Entry> {
        self.by_path@
    }
}

impl Store {
    pub fn new() -> (r: Self)
        ensures
            r@ == Map::<u64, Entry>::empty(),
    {
        Store { by_path: HashMap::new() }
    }

    /// Build a store from entries already keyed (as loaded from disk); a later
    /// entry for a key replaces an earlier one.
    pub fn from_entries(v: Vec<(u64, Entry)>) -> (r: Self)
        ensures
            r@ == entries_map(v@),
    {
        let mut m: HashMap<u64, Entry> = HashMap::new();
        let mut i: usize = 0;
        while i < v.len()
            invariant
                i <= v@.len(),
                m@ == entries_map(v@.subrange(0, i as int)),
            decreases v@.len() - i,
        {
            assert(v@.subrange(0, i + 1).drop_last() =~= v@.subrange(0, i as int));
            m.insert(v[i].0, v[i].1);
            i += 1;
        }
        assert(v@.subrange(0, v@.len() as int) =~= v@);
        Store { by_path: m }
    }

    /// Every entry, for saving.
    pub fn entries(&self) -> (r: Vec<(u64, Entry)>)
        ensures
            entries_map(r@) == self@,
            r@.len() == self@.len(),
    {
        let mut out: Vec<(u64, Entry)> = Vec::new();
        let ghost m = self.by_path@;
        let ghost ks = vstd::std_specs::hash::spec_keys_iter(&self.by_path).remaining().unref();
        for k in it: self.by_path.keys()
            invariant
                m == self.by_path@,
                it.seq().unref() == ks,
                it.seq().unref().to_set() == m.dom(),
                it.seq().unref().no_duplicates(),
                out@.len() == it.index(),
                forall|j: int| 0 <= j < it.index() ==> (#[trigger] out@[j]) == (it.seq().unref()[j], m[it.seq().unref()[j]]),
        {
            proof {
                assert(it.seq().unref()[it.index()] == *k);
                assert(it.seq().unref().to_set().contains(*k));
            }
            match self.by_path.get(k) {
                Some(e) => out.push((*k, *e)),
                None => {},
            }
        }
        proof {
            assert(out@.len() == ks.len());
            assert forall|j: int| 0 <= j < ks.len() implies m.dom().contains(#[trigger] ks[j]) by {
                assert(ks.to_set().contains(ks[j]));
            }
            lemma_entries_map_of_keys(out@, ks, m);
            assert(m.restrict(ks.to_set()) =~= m);
            ks.unique_seq_to_set();
        }
        out
    }

    /// The stored answer under `key`.
    pub fn get(&self, key: u64) -> (r: Option<Entry>)
        ensures
            r == (if self@.contains_key(key) { Some(self@[key]) } else { None }),
    {
        match self.by_path.get(&key) {
            Some(e) => Some(*e),
            None => None,
        }
    }

    /// Record what was read from `path` (even nothing, so a file that cannot
    /// be read is not asked again on every launch).
    pub fn record(&mut self, path: &str, size: u64, mtime: i64, props: MediaProps)
        ensures
            final(self)@ == old(self)@.insert(key_spec(path@), Entry { size, mtime, props }),
    {
        let k = path_key(path);
        self.by_path.insert(k, Entry { size, mtime, props });
    }

    pub fn len(&self) -> (r: usize)
        ensures
            r == self@.len(),
    {
        self.by_path.len()
    }
}

/// The map a list of keyed entries makes, later entries winning.
pub open spec fn entries_map(s: Seq<(u64, Entry)>) -> Map<u64, Entry>
    decreases s.len(),
{
    if s.len() == 0 {
        Map::empty()
    } else {
        entries_map(s.drop_last()).insert(s.last().0, s.last().1)
    }
}

proof fn lemma_entries_map_of_keys(out: Seq<(u64, Entry)>, ks: Seq<u64>, m: Map<u64, Entry>)
    requires
        out.len() == ks.len(),
        forall|j: int| 0 <= j < ks.len() ==> (#[trigger] out[j]) == (ks[j], m[ks[j]]),
        forall|j: int| 0 <= j < ks.len() ==> m.dom().contains(#[trigger] ks[j]),
    ensures
        entries_map(out) == m.restrict(ks.to_set()),
    decreases ks.len(),
{
    if ks.len() == 0 {
        assert(m.restrict(ks.to_set()) =~= Map::empty());
    } else {
        let n = ks.len() - 1;
        assert forall|j: int| 0 <= j < ks.drop_last().len() implies (#[trigger] out.drop_last()[j]) == (
        ks.drop_last()[j], m[ks.drop_last()[j]]) by {
            assert(out.drop_last()[j] == out[j]);
        }
        assert forall|j: int| 0 <= j < ks.drop_last().len() implies m.dom().contains(#[trigger] ks.drop_last()[j]) by {
            assert(ks.drop_last()[j] == ks[j]);
        }
        lemma_entries_map_of_keys(out.drop_last(), ks.drop_last(), m);
        assert(out.last() == (ks[n], m[ks[n]]));
        assert(ks.to_set() =~= ks.drop_last().to_set().insert(ks[n])) by {
            assert forall|x: u64| ks.to_set().contains(x) implies ks.drop_last().to_set().insert(ks[n]).contains(x) by {
                let j = choose|j: int| 0 <= j < ks.len() && ks[j] == x;
                if j < n {
                    assert(ks.drop_last()[j] == x);
                }
            }
            assert forall|x: u64| ks.drop_last().to_set().insert(ks[n]).contains(x) implies ks.to_set().contains(x) by {
                if x != ks[n] {
                    let j = choose|j: int| 0 <= j < ks.drop_last().len() && ks.drop_last()[j] == x;
                    assert(ks[j] == x);
                }
            }
        }
        assert(m.restrict(ks.to_set()) =~= m.restrict(ks.drop_last().to_set()).insert(ks[n], m[ks[n]]));
    }
}

/// What the store already says about entry `i` of the index: its properties,
/// when an answer is stored under its path and was read at its current size
/// and modification time.
pub open spec fn seeded(m: Map<u64, Entry>, ix: IndexView, i: int) -> Option<MediaProps> {
    let k = key_spec(ix.path(i));
    if m.contains_key(k) && m[k].size == ix.size_of(i) && m[k].mtime == ix.mtime_of(i) {
        Some(m[k].props)
    } else {
        None
    }
}

/// How many of the first `n` entries the store already answers.
pub open spec fn known_upto(m: Map<u64, Entry>, ix: IndexView, n: int) -> nat
    decreases n,
{
    if n <= 0 {
        0
    } else {
        known_upto(m, ix, n - 1) + if seeded(m, ix, n - 1) is Some { 1nat } else { 0nat }
    }
}

/// The properties array for `index` as far as the store answers it, and how
/// many entries it answers, so a relaunch starts with every file read before
/// already filterable.
pub fn seed_from_store(store: &Store, index: &Index) -> (r: (Vec<MediaProps>, usize))
    ensures
        r.0@.len() == index.view().len(),
        forall|i: int|
            0 <= i < index.view().len() ==> (#[trigger] r.0@[i]) == match seeded(store@, index.view(), i) {
                Some(p) => p,
                None => no_props(),
            },
        r.1 == known_upto(store@, index.view(), index.view().len() as int),
{
    let n = index.len();
    let ghost ix = index.view();
    let mut out: Vec<MediaProps> = Vec::new();
    let mut known: usize = 0;
    let mut i: usize = 0;
    while i < n
        invariant
            n == ix.len(),
            ix == index.view(),
            i <= n,
            out@.len() == i,
            known == known_upto(store@, ix, i as int),
            known <= i,
            forall|j: int|
                0 <= j < i ==> (#[trigger] out@[j]) == match seeded(store@, ix, j) {
                    Some(p) => p,
                    None => no_props(),
                },
        decreases n - i,
    {
        let key = path_key(&index.full_path(i));
        let mut slot = MediaProps { width: 0, height: 0, duration_ms: 0 };
        match store.get(key) {
            Some(e) => {
                if e.size == index.size(i) && e.mtime == index.mtime(i) {
                    slot = e.props;
                    known += 1;
                }
            },
            None => {},
        }
        out.push(slot);
        i += 1;
    }
    (out, known)
}

/// The entries still to read: those whose properties are blank, in index
/// order.
pub open spec fn blanks(props: Seq<MediaProps>, n: int) -> Seq<u32>
    decreases n,
{
    if n <= 0 {
        Seq::empty()
    } else if blank(props[n - 1]) {
        blanks(props, n - 1).push((n - 1) as u32)
    } else {
        blanks(props, n - 1)
    }
}

/// The work left for an index whose properties are `props`.
pub fn missing(props: &[MediaProps]) -> (r: Vec<u32>)
    requires
        props@.len() <= u32::MAX,
    ensures
        r@ == blanks(props@, props@.len() as int),
{
    let mut out: Vec<u32> = Vec::new();
    let mut i: usize = 0;
    while i < props.len()
        invariant
            props@.len() <= u32::MAX,
            i <= props@.len(),
            out@ == blanks(props@, i as int),
        decreases props@.len() - i,
    {
        if props[i].is_empty() {
            out.push(i as u32);
        }
        i += 1;
    }
    out
}

/// How soon a kind is read: video first (what gets filtered by resolution
/// and duration), then images, audio last (its dimensions are always zero).
pub open spec fn rank(k: MediaKind) -> u8 {
    match k {
        MediaKind::Audio => 0,
        MediaKind::Image => 1,
        MediaKind::Video => 2,
    }
}

fn rank_of(k: MediaKind) -> (r: u8)
    ensures
        r == rank(k),
{
    match k {
        MediaKind::Audio => 0,
        MediaKind::Image => 1,
        MediaKind::Video => 2,
    }
}

/// The jobs of `s` whose kind has rank `r`, in their order.
pub open spec fn of_rank(s: Seq<u32>, kinds: Seq<MediaKind>, r: u8) -> Seq<u32>
    decreases s.len(),
{
    if s.len() == 0 {
        Seq::empty()
    } else if rank(kinds[s.last() as int]) == r {
        of_rank(s.drop_last(), kinds, r).push(s.last())
    } else {
        of_rank(s.drop_last(), kinds, r)
    }
}

/// The queue in working order. Workers take jobs from the end, so the most
/// valuable sort last: audio, then images, then video; jobs of one kind keep
/// their order.
pub open spec fn ordered(s: Seq<u32>, kinds: Seq<MediaKind>) -> Seq<u32> {
    of_rank(s, kinds, 0) + of_rank(s, kinds, 1) + of_rank(s, kinds, 2)
}

fn take_rank(src: &Vec<u32>, kinds: &[MediaKind], r: u8, out: &mut Vec<u32>)
    requires
        forall|j: int| 0 <= j < src@.len() ==> (#[trigger] src@[j]) < kinds@.len(),
    ensures
        final(out)@ == old(out)@ + of_rank(src@, kinds@, r),
{
    let ghost o = out@;
    let mut i: usize = 0;
    while i < src.len()
        invariant
            forall|j: int| 0 <= j < src@.len() ==> (#[trigger] src@[j]) < kinds@.len(),
            i <= src@.len(),
            out@ == o + of_rank(src@.subrange(0, i as int), kinds@, r),
        decreases src@.len() - i,
    {
        assert(src@.subrange(0, i + 1).drop_last() =~= src@.subrange(0, i as int));
        let x = src[i];
        if rank_of(kinds[x as usize]) == r {
            out.push(x);
            assert(out@ =~= o + of_rank(src@.subrange(0, i + 1), kinds@, r));
        }
        i += 1;
    }
    assert(src@.subrange(0, src@.len() as int) =~= src@);
}

proof fn lemma_ordered_is_permutation(s: Seq<u32>, kinds: Seq<MediaKind>)
    ensures
        ordered(s, kinds).to_multiset() == s.to_multiset(),
    decreases s.len(),
{
    broadcast use vstd::seq_lib::group_to_multiset_ensures;
    broadcast use vstd::multiset::group_multiset_axioms;

    let a = of_rank(s, kinds, 0);
    let b = of_rank(s, kinds, 1);
    let c = of_rank(s, kinds, 2);
    vstd::seq_lib::lemma_multiset_commutative(a + b, c);
    vstd::seq_lib::lemma_multiset_commutative(a, b);
    if s.len() == 0 {
        assert(ordered(s, kinds).to_multiset() =~= s.to_multiset());
    } else {
        let t = s.drop_last();
        let x = s.last();
        assert(s =~= t.push(x));
        lemma_ordered_is_permutation(t, kinds);
        let a0 = of_rank(t, kinds, 0);
        let b0 = of_rank(t, kinds, 1);
        let c0 = of_rank(t, kinds, 2);
        vstd::seq_lib::lemma_multiset_commutative(a0 + b0, c0);
        vstd::seq_lib::lemma_multiset_commutative(a0, b0);
        assert(ordered(s, kinds).to_multiset() =~= s.to_multiset());
    }
}

/// Put the work queue in working order: see [`ordered`]. Nothing is lost or
/// added.
pub fn order_queue(queue: &mut Vec<u32>, kinds: &[MediaKind])
    requires
        forall|j: int| 0 <= j < old(queue)@.len() ==> (#[trigger] old(queue)@[j]) < kinds@.len(),
    ensures
        final(queue)@ == ordered(old(queue)@, kinds@),
        final(queue)@.to_multiset() == old(queue)@.to_multiset(),
{
    let mut src: Vec<u32> = Vec::new();
    std::mem::swap(&mut src, queue);
    take_rank(&src, kinds, 0, queue);
    take_rank(&src, kinds, 1, queue);
    take_rank(&src, kinds, 2, queue);
    assert(queue@ =~= ordered(src@, kinds@));
    proof {
        lemma_ordered_is_permutation(src@, kinds@);
    }
}

/// A worker's next job: none once a newer index has replaced the one it
/// works for (its answers would be about other files), or when the queue is
/// empty; otherwise the last job, taken off the queue.
pub fn next_job(current_generation: u64, my_generation: u64, queue: &mut Vec<u32>) -> (r: Option<u32>)
    ensures
        current_generation != my_generation ==> r is None && final(queue)@ == old(queue)@,
        current_generation == my_generation && old(queue)@.len() == 0 ==> r is None && final(queue)@
            == old(queue)@,
        current_generation == my_generation && old(queue)@.len() > 0 ==> r == Some(old(queue)@.last())
            && final(queue)@ == old(queue)@.drop_last(),
{
    if current_generation != my_generation {
        return None;
    }
    queue.pop()
}

/// The properties array after a batch of answers lands: each answer for an
/// entry in range replaces that entry's properties, in batch order.
pub open spec fn applied(props: Seq<MediaProps>, batch: Seq<(u32, MediaProps)>) -> Seq<MediaProps>
    decreases batch.len(),
{
    if batch.len() == 0 {
        props
    } else {
        let prev = applied(props, batch.drop_last());
        let (i, p) = batch.last();
        if i < prev.len() {
            prev.update(i as int, p)
        } else {
            prev
        }
    }
}

/// How many entries a batch turns from blank to known.
pub open spec fn gained(props: Seq<MediaProps>, batch: Seq<(u32, MediaProps)>) -> nat
    decreases batch.len(),
{
    if batch.len() == 0 {
        0
    } else {
        let prev = applied(props, batch.drop_last());
        let (i, p) = batch.last();
        gained(props, batch.drop_last()) + if i < prev.len() && blank(prev[i as int]) && !blank(p) {
            1nat
        } else {
            0nat
        }
    }
}

proof fn lemma_applied_len(props: Seq<MediaProps>, batch: Seq<(u32, MediaProps)>)
    ensures
        applied(props, batch).len() == props.len(),
        gained(props, batch) <= batch.len(),
    decreases batch.len(),
{
    if batch.len() > 0 {
        lemma_applied_len(props, batch.drop_last());
    }
}

/// Land a batch of answers in the properties array and empty the batch;
/// returns how many entries became known.
pub fn publish(props: &mut Vec<MediaProps>, pending: &mut Vec<(u32, MediaProps)>) -> (r: usize)
    ensures
        final(props)@ == applied(old(props)@, old(pending)@),
        r == gained(old(props)@, old(pending)@),
        final(pending)@.len() == 0,
{
    let ghost p0 = props@;
    let ghost b = pending@;
    let mut got: usize = 0;
    let mut k: usize = 0;
    while k < pending.len()
        invariant
            b == pending@,
            k <= b.len(),
            props@ == applied(p0, b.subrange(0, k as int)),
            got == gained(p0, b.subrange(0, k as int)),
        decreases b.len() - k,
    {
        assert(b.subrange(0, k + 1).drop_last() =~= b.subrange(0, k as int));
        proof {
            lemma_applied_len(p0, b.subrange(0, k as int));
        }
        let (i, p) = pending[k];
        if (i as usize) < props.len() {
            if props[i as usize].is_empty() && !p.is_empty() {
                got += 1;
            }
            props.set(i as usize, p);
        }
        k += 1;
    }
    assert(b.subrange(0, b.len() as int) =~= b);
    pending.clear();
    got
}

/// The stored file's header: [`MAGIC`], then [`SCHEMA_VERSION`] as four
/// little-endian bytes.
pub open spec fn header_spec() -> Seq<u8> {
    MAGIC@ + seq![
        (SCHEMA_VERSION % 256) as u8,
        (SCHEMA_VERSION / 256 % 256) as u8,
        (SCHEMA_VERSION / 65536 % 256) as u8,
        (SCHEMA_VERSION / 16777216) as u8,
    ]
}

/// The bytes written before the encoded body.
pub fn store_header() -> (r: Vec<u8>)
    ensures
        r@ == header_spec(),
        r@.len() == HEADER_LEN,
{
    let mut out: Vec<u8> = Vec::new();
    let mut i: usize = 0;
    while i < 8
        invariant
            i <= 8,
            out@ == MAGIC@.subrange(0, i as int),
        decreases 8 - i,
    {
        out.push(MAGIC[i]);
        assert(out@ =~= MAGIC@.subrange(0, i + 1));
        i += 1;
    }
    out.push((SCHEMA_VERSION % 256) as u8);
    out.push((SCHEMA_VERSION / 256 % 256) as u8);
    out.push((SCHEMA_VERSION / 65536 % 256) as u8);
    out.push((SCHEMA_VERSION / 16777216) as u8);
    assert(out@ =~= header_spec());
    out
}

/// Whether a stored file starting with `head` holds a body of this layout:
/// the magic and the version both match. A short file does not.
pub fn header_ok(head: &[u8]) -> (r: bool)
    ensures
        r == (head@.len() >= HEADER_LEN && head@.subrange(0, HEADER_LEN as int) == header_spec()),
{
    if head.len() < HEADER_LEN {
        return false;
    }
    let want = store_header();
    let mut i: usize = 0;
    while i < HEADER_LEN
        invariant
            i <= HEADER_LEN,
            HEADER_LEN <= head@.len(),
            want@ == header_spec(),
            head@.subrange(0, i as int) == want@.subrange(0, i as int),
        decreases HEADER_LEN - i,
    {
        if head[i] != want[i] {
            assert(head@.subrange(0, HEADER_LEN as int)[i as int] != header_spec()[i as int]);
            return false;
        }
        assert(head@.subrange(0, i + 1) =~= want@.subrange(0, i + 1));
        i += 1;
    }
    assert(want@.subrange(0, HEADER_LEN as int) =~= want@);
    true
}

} // verus!
