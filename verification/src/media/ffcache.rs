//! The few most recent transcoded previews, kept in memory so scrubbing back
//! to a file just watched does not transcode it again.
//!
//! An entry is keyed by path, size and modification time: a file written over
//! is another file. Entries expire after ten minutes unused; at most four are
//! kept and at most 96 MiB in all, the least recently used going first.
//! The clock is the caller's: every operation takes the time now.

use std::collections::VecDeque;
use std::sync::Arc;

use vstd::prelude::*;

verus! {

/// Most entries kept.
pub const SO_MUC: usize = 4;

/// Most bytes kept, all entries together.
pub const TRAN_BYTE: usize = 96 * 1024 * 1024;

/// How long an unused entry lives, in milliseconds: ten minutes.
pub const HAN_DUNG_MS: u64 = 10 * 60 * 1000;

/// What identifies a file's content: path, size and modification time.
#[derive(Debug, Clone, PartialEq, Eq)]
pub struct Khoa {
    pub path: String,
    pub size: u64,
    pub mtime: i64,
}

pub open spec fn key_view(k: Khoa) -> (Seq<char>, u64, i64) {
    (k.path@, k.size, k.mtime)
}

struct Muc {
    khoa: Khoa,
    du_lieu: Arc<Vec<u8>>,
    lan_cuoi: u64,
}

/// An entry as the contracts see it: its key, its bytes, when it was last
/// used.
pub ghost struct MucView {
    pub key: (Seq<char>, u64, i64),
    pub data: Seq<u8>,
    pub last: u64,
}

/// `Arc::clone`: another handle to the same bytes.
#[verifier::external_body]
pub(crate) fn share(a: &Arc<Vec<u8>>) -> (r: Arc<Vec<u8>>)
    ensures
        r == *a,
{
    Arc::clone(a)
}

/// Still fresh at `now`: used less than [`HAN_DUNG_MS`] ago (a clock that
/// went backwards keeps it).
pub open spec fn fresh(m: MucView, now: u64) -> bool {
    now < m.last || now - m.last < HAN_DUNG_MS
}

pub open spec fn keep_fresh(s: Seq<MucView>, now: u64) -> Seq<MucView>
    decreases s.len(),
{
    if s.len() == 0 {
        Seq::empty()
    } else {
        let r = keep_fresh(s.drop_last(), now);
        if fresh(s.last(), now) {
            r.push(s.last())
        } else {
            r
        }
    }
}

pub open spec fn bytes_of(s: Seq<MucView>) -> nat
    decreases s.len(),
{
    if s.len() == 0 {
        0
    } else {
        bytes_of(s.drop_last()) + s.last().data.len()
    }
}

/// The longest front part of `s`, no longer than `n`, within both limits:
/// entries are dropped from the back (the least recently used) until they fit.
pub open spec fn within_limits(s: Seq<MucView>, n: int) -> Seq<MucView>
    decreases n,
{
    if n <= 0 {
        Seq::empty()
    } else if n <= SO_MUC && bytes_of(s.subrange(0, n)) <= TRAN_BYTE {
        s.subrange(0, n)
    } else {
        within_limits(s, n - 1)
    }
}

/// The cache after a tidy at `now`: the stale go, then the overflow.
pub open spec fn tidied(s: Seq<MucView>, now: u64) -> Seq<MucView> {
    let f = keep_fresh(s, now);
    within_limits(f, f.len() as int)
}

/// The first entry with key `k`.
pub open spec fn position_of(s: Seq<MucView>, k: (Seq<char>, u64, i64)) -> Option<int>
    decreases s.len(),
{
    if s.len() == 0 {
        None
    } else {
        match position_of(s.drop_last(), k) {
            Some(i) => Some(i),
            None => if s.last().key == k {
                Some(s.len() - 1)
            } else {
                None
            },
        }
    }
}

/// `s` without the entries keyed `k`.
pub open spec fn without_key(s: Seq<MucView>, k: (Seq<char>, u64, i64)) -> Seq<MucView>
    decreases s.len(),
{
    if s.len() == 0 {
        Seq::empty()
    } else {
        let r = without_key(s.drop_last(), k);
        if s.last().key == k {
            r
        } else {
            r.push(s.last())
        }
    }
}

/// Within both limits: at most [`SO_MUC`] entries and [`TRAN_BYTE`] bytes.
pub open spec fn fits(s: Seq<MucView>) -> bool {
    s.len() <= SO_MUC && bytes_of(s) <= TRAN_BYTE
}

/// No entry of `s` is keyed `k`.
pub open spec fn lacks_key(s: Seq<MucView>, k: (Seq<char>, u64, i64)) -> bool {
    forall|j: int| 0 <= j < s.len() ==> (#[trigger] s[j]).key != k
}

proof fn lemma_keep_fresh_append(a: Seq<MucView>, b: Seq<MucView>, now: u64)
    ensures
        keep_fresh(a + b, now) == keep_fresh(a, now) + keep_fresh(b, now),
    decreases b.len(),
{
    if b.len() == 0 {
        assert(a + b =~= a);
        assert(keep_fresh(a, now) + keep_fresh(b, now) =~= keep_fresh(a, now));
    } else {
        assert((a + b).drop_last() =~= a + b.drop_last());
        lemma_keep_fresh_append(a, b.drop_last(), now);
        if fresh(b.last(), now) {
            assert(keep_fresh(a, now) + keep_fresh(b.drop_last(), now).push(b.last()) =~= (keep_fresh(a, now)
                + keep_fresh(b.drop_last(), now)).push(b.last()));
        }
    }
}

proof fn lemma_keep_fresh_shape(s: Seq<MucView>, k: (Seq<char>, u64, i64), now: u64)
    ensures
        forall|j: int| 0 <= j < keep_fresh(s, now).len() ==> fresh(#[trigger] keep_fresh(s, now)[j], now),
        keep_fresh(s, now).len() <= s.len(),
        lacks_key(s, k) ==> lacks_key(keep_fresh(s, now), k),
        (forall|j: int| 0 <= j < s.len() ==> fresh(#[trigger] s[j], now)) ==> keep_fresh(s, now) == s,
    decreases s.len(),
{
    if s.len() > 0 {
        lemma_keep_fresh_shape(s.drop_last(), k, now);
        let r = keep_fresh(s.drop_last(), now);
        if lacks_key(s, k) {
            assert(lacks_key(s.drop_last(), k)) by {
                assert forall|j: int| 0 <= j < s.drop_last().len() implies (#[trigger] s.drop_last()[j]).key != k by {
                    assert(s.drop_last()[j] == s[j]);
                }
            }
            assert(s.last() == s[s.len() - 1]);
        }
        if forall|j: int| 0 <= j < s.len() ==> fresh(#[trigger] s[j], now) {
            assert(fresh(s[s.len() - 1], now));
            assert forall|j: int| 0 <= j < s.drop_last().len() implies fresh(#[trigger] s.drop_last()[j], now) by {
                assert(s.drop_last()[j] == s[j]);
            }
            assert(r.push(s.last()) =~= s);
        }
    }
}

proof fn lemma_without_key_lacks(s: Seq<MucView>, k: (Seq<char>, u64, i64))
    ensures
        lacks_key(without_key(s, k), k),
    decreases s.len(),
{
    if s.len() > 0 {
        lemma_without_key_lacks(s.drop_last(), k);
    }
}

proof fn lemma_within_limits_shape(s: Seq<MucView>, n: int)
    requires
        0 <= n <= s.len(),
    ensures
        within_limits(s, n).len() <= n,
        within_limits(s, n) == s.subrange(0, within_limits(s, n).len() as int),
        fits(within_limits(s, n)),
        n >= 1 && s[0].data.len() <= TRAN_BYTE ==> within_limits(s, n).len() >= 1,
    decreases n,
{
    if n <= 0 {
        assert(s.subrange(0, 0) =~= Seq::<MucView>::empty());
    } else if n <= SO_MUC && bytes_of(s.subrange(0, n)) <= TRAN_BYTE {
    } else {
        lemma_within_limits_shape(s, n - 1);
        if n == 1 && s[0].data.len() <= TRAN_BYTE {
            assert(s.subrange(0, 1).drop_last() =~= Seq::<MucView>::empty());
            assert(bytes_of(s.subrange(0, 1)) == s[0].data.len());
        }
    }
}

proof fn lemma_within_limits_id(s: Seq<MucView>)
    requires
        fits(s),
    ensures
        within_limits(s, s.len() as int) == s,
{
    assert(s.subrange(0, s.len() as int) =~= s);
}

/// What a tidy leaves is within both limits and fresh, and a second tidy at
/// the same time changes nothing.
pub proof fn tidy_is_idempotent(s: Seq<MucView>, now: u64)
    ensures
        fits(tidied(s, now)),
        forall|j: int| 0 <= j < tidied(s, now).len() ==> fresh(#[trigger] tidied(s, now)[j], now),
        tidied(tidied(s, now), now) == tidied(s, now),
{
    let f = keep_fresh(s, now);
    let k: (Seq<char>, u64, i64) = (Seq::empty(), 0, 0);
    lemma_keep_fresh_shape(s, k, now);
    lemma_within_limits_shape(f, f.len() as int);
    let t = tidied(s, now);
    assert forall|j: int| 0 <= j < t.len() implies fresh(#[trigger] t[j], now) by {
        assert(t[j] == f[j]);
    }
    lemma_keep_fresh_shape(t, k, now);
    lemma_within_limits_id(t);
}

/// A preview just kept (no larger than the byte limit) is found again, first
/// and with the same bytes, by a lookup at the same time; it is the only entry
/// under its key.
pub proof fn kept_preview_is_found(s: Seq<MucView>, k: (Seq<char>, u64, i64), data: Seq<u8>, now: u64)
    requires
        data.len() <= TRAN_BYTE,
    ensures
        ({
            let s1 = tidied(seq![MucView { key: k, data: data, last: now }] + without_key(s, k), now);
            &&& tidied(s1, now) == s1
            &&& position_of(s1, k) == Some(0int)
            &&& s1[0].data == data
            &&& s1[0] == MucView { key: k, data: data, last: now }
            &&& lacks_key(s1.drop_first(), k)
        }),
{
    let x = MucView { key: k, data: data, last: now };
    let w = without_key(s, k);
    lemma_keep_fresh_append(seq![x], w, now);
    assert(seq![x].drop_last() =~= Seq::<MucView>::empty());
    assert(fresh(x, now));
    assert(keep_fresh(Seq::<MucView>::empty(), now) =~= Seq::<MucView>::empty());
    assert(keep_fresh(seq![x], now) == keep_fresh(Seq::<MucView>::empty(), now).push(x));
    assert(keep_fresh(seq![x], now) =~= seq![x]);
    let f = keep_fresh(seq![x] + w, now);
    lemma_without_key_lacks(s, k);
    lemma_keep_fresh_shape(w, k, now);
    lemma_within_limits_shape(f, f.len() as int);
    let s1 = tidied(seq![x] + w, now);
    tidy_is_idempotent(seq![x] + w, now);
    assert(s1[0] == x);
    assert(position_of(s1.subrange(0, 0), k) is None) by {
        assert(s1.subrange(0, 0) =~= Seq::<MucView>::empty());
    }
    lemma_position_prefix(s1, k, 0);
    assert forall|j: int| 0 <= j < s1.drop_first().len() implies (#[trigger] s1.drop_first()[j]).key != k by {
        assert(s1.drop_first()[j] == f[j + 1]);
        assert(f[j + 1] == keep_fresh(w, now)[j]);
    }
}

/// A preview kept at `now` (no larger than the byte limit) is still found
/// first, with the same bytes, by a lookup at any later time `later` within
/// [`HAN_DUNG_MS`] of `now`, when nothing else was done to the cache between.
pub proof fn kept_preview_is_found_later(
    s: Seq<MucView>,
    k: (Seq<char>, u64, i64),
    data: Seq<u8>,
    now: u64,
    later: u64,
)
    requires
        data.len() <= TRAN_BYTE,
        now <= later,
        later - now < HAN_DUNG_MS,
    ensures
        ({
            let s1 = tidied(seq![MucView { key: k, data: data, last: now }] + without_key(s, k), now);
            let t = tidied(s1, later);
            &&& position_of(t, k) == Some(0int)
            &&& t[0].data == data
        }),
{
    let x = MucView { key: k, data: data, last: now };
    kept_preview_is_found(s, k, data, now);
    let s1 = tidied(seq![x] + without_key(s, k), now);
    let rest = s1.drop_first();
    assert(s1 =~= seq![s1[0]] + rest);
    lemma_keep_fresh_append(seq![s1[0]], rest, later);
    assert(s1[0] == x);
    assert(fresh(s1[0], later));
    assert(seq![s1[0]].drop_last() =~= Seq::<MucView>::empty());
    assert(keep_fresh(Seq::<MucView>::empty(), later) =~= Seq::<MucView>::empty());
    assert(keep_fresh(seq![s1[0]], later) == keep_fresh(Seq::<MucView>::empty(), later).push(s1[0]));
    assert(keep_fresh(seq![s1[0]], later) =~= seq![s1[0]]);
    let f = keep_fresh(s1, later);
    assert(f[0] == s1[0]);
    lemma_within_limits_shape(f, f.len() as int);
    let t = tidied(s1, later);
    assert(t[0] == x);
    assert(position_of(t.subrange(0, 0), k) is None) by {
        assert(t.subrange(0, 0) =~= Seq::<MucView>::empty());
    }
    lemma_position_prefix(t, k, 0);
}

/// The cache of recent previews.
pub struct Kho {
    muc: VecDeque<Muc>,
}

spec fn muc_view_of(m: Muc) -> MucView {
    MucView { key: key_view(m.khoa), data: m.du_lieu@, last: m.lan_cuoi }
}

impl Kho {
    pub closed spec fn view(&self) -> Seq<MucView> {
        self.muc@.map_values(|m: Muc| muc_view_of(m))
    }

    pub fn new() -> (r: Self)
        ensures
            r.view() == Seq::<MucView>::empty(),
    {
        let r = Kho { muc: VecDeque::new() };
        assert(r.view() =~= Seq::<MucView>::empty());
        r
    }

    pub fn len(&self) -> (r: usize)
        ensures
            r == self.view().len(),
    {
        self.muc.len()
    }

    /// Drop what went stale by `now`, then what no longer fits.
    fn thu_gon(&mut self, now: u64)
        ensures
            final(self).view() == tidied(old(self).view(), now),
    {
        let ghost s0 = self.view();
        let mut kept: VecDeque<Muc> = VecDeque::new();
        let n = self.muc.len();
        let mut all = VecDeque::new();
        std::mem::swap(&mut all, &mut self.muc);
        let ghost av = all@.map_values(|m: Muc| muc_view_of(m));
        assert(av == s0);
        let mut i: usize = 0;
        while i < n
            invariant
                n == all@.len(),
                i <= n,
                av == all@.map_values(|m: Muc| muc_view_of(m)),
                kept@.map_values(|m: Muc| muc_view_of(m)) == keep_fresh(av.subrange(0, i as int), now),
            decreases n - i,
        {
            assert(av.subrange(0, i + 1).drop_last() =~= av.subrange(0, i as int));
            let m = &all[i];
            assert(muc_view_of(*m) == av[i as int]);
            if now < m.lan_cuoi || now - m.lan_cuoi < HAN_DUNG_MS {
                let ghost before = kept@.map_values(|m: Muc| muc_view_of(m));
                kept.push_back(Muc { khoa: copy_key(&m.khoa), du_lieu: share(&m.du_lieu), lan_cuoi: m.lan_cuoi });
                assert(kept@.map_values(|m: Muc| muc_view_of(m)) =~= before.push(av[i as int]));
            }
            i += 1;
        }
        assert(av.subrange(0, n as int) =~= av);
        let ghost f = kept@.map_values(|m: Muc| muc_view_of(m));
        // Drop from the back until both limits hold.
        let mut k: usize = kept.len();
        while k > 0 && !(k <= SO_MUC && Self::bytes_upto(&kept, k) <= TRAN_BYTE as u128)
            invariant
                k <= kept@.len(),
                f == kept@.map_values(|m: Muc| muc_view_of(m)),
                within_limits(f, f.len() as int) == within_limits(f, k as int),
            decreases k,
        {
            k -= 1;
        }
        kept.truncate(k);
        assert(kept@.map_values(|m: Muc| muc_view_of(m)) =~= f.subrange(0, k as int));
        self.muc = kept;
    }

    /// The preview stored for `k`, if still fresh at `now`. It moves to the
    /// front, marked used at `now`; stale and overflowing entries go first.
    pub fn tra(&mut self, k: &Khoa, now: u64) -> (r: Option<Arc<Vec<u8>>>)
        ensures
            ({
                let t = tidied(old(self).view(), now);
                match position_of(t, key_view(*k)) {
                    None => r is None && final(self).view() == t,
                    Some(i) => r matches Some(d) && d@ == t[i].data && final(self).view() == seq![
                        MucView { last: now, ..t[i] },
                    ] + t.remove(i),
                }
            }),
    {
        let ghost s0 = self.view();
        self.thu_gon(now);
        let ghost t = self.view();
        let n = self.muc.len();
        let mut i: usize = 0;
        while i < n
            invariant
                n == self.muc@.len(),
                t == self.view(),
                t == tidied(s0, now),
                s0 == old(self).view(),
                i <= n,
                position_of(t.subrange(0, i as int), key_view(*k)) is None,
            decreases n - i,
        {
            assert(t.subrange(0, i + 1).drop_last() =~= t.subrange(0, i as int));
            assert(t[i as int] == muc_view_of(self.muc@[i as int]));
            if self.muc[i].khoa.size == k.size && self.muc[i].khoa.mtime == k.mtime && self.muc[i].khoa.path == k.path {
                proof {
                    lemma_position_prefix(t, key_view(*k), i as int);
                }
                let ghost before = self.muc@;
                let mut m = self.muc.remove(i).unwrap();
                assert(self.muc@ =~= before.remove(i as int));
                m.lan_cuoi = now;
                let d = share(&m.du_lieu);
                assert(d@ == t[i as int].data);
                self.muc.push_front(m);
                assert(self.view() =~= seq![MucView { last: now, ..t[i as int] }] + t.remove(i as int));
                assert(position_of(t, key_view(*k)) == Some(i as int));
                return Some(d);
            }
            i += 1;
        }
        assert(t.subrange(0, n as int) =~= t);
        None
    }

    /// Keep preview `data` for `k`, used at `now`, in front of everything
    /// else; an older entry for the same key is replaced.
    pub fn luu(&mut self, k: Khoa, data: Arc<Vec<u8>>, now: u64)
        ensures
            final(self).view() == tidied(
                seq![MucView { key: key_view(k), data: data@, last: now }] + without_key(old(self).view(), key_view(k)),
                now,
            ),
    {
        let ghost s0 = self.view();
        let mut all = VecDeque::new();
        std::mem::swap(&mut all, &mut self.muc);
        let n = all.len();
        let mut kept: VecDeque<Muc> = VecDeque::new();
        let mut i: usize = 0;
        while i < n
            invariant
                n == all@.len(),
                i <= n,
                s0 == all@.map_values(|m: Muc| muc_view_of(m)),
                kept@.map_values(|m: Muc| muc_view_of(m)) == without_key(s0.subrange(0, i as int), key_view(k)),
            decreases n - i,
        {
            assert(s0.subrange(0, i + 1).drop_last() =~= s0.subrange(0, i as int));
            assert(s0[i as int] == muc_view_of(all@[i as int]));
            let same = all[i].khoa.size == k.size && all[i].khoa.mtime == k.mtime && all[i].khoa.path == k.path;
            if !same {
                let ghost before = kept@.map_values(|m: Muc| muc_view_of(m));
                kept.push_back(Muc { khoa: copy_key(&all[i].khoa), du_lieu: share(&all[i].du_lieu), lan_cuoi: all[i].lan_cuoi });
                assert(kept@.map_values(|m: Muc| muc_view_of(m)) =~= before.push(s0[i as int]));
            }
            i += 1;
        }
        assert(s0.subrange(0, n as int) =~= s0);
        let ghost w = kept@.map_values(|m: Muc| muc_view_of(m));
        kept.push_front(Muc { khoa: k, du_lieu: data, lan_cuoi: now });
        self.muc = kept;
        assert(self.view() =~= seq![MucView { key: key_view(k), data: data@, last: now }] + w);
        self.thu_gon(now);
    }

    /// Bytes held by the first `k` entries, when `k` is within the limit on
    /// entries (0 otherwise; the caller checks the count first).
    fn bytes_upto(v: &VecDeque<Muc>, k: usize) -> (r: u128)
        requires
            k <= v@.len(),
        ensures
            k <= SO_MUC ==> r == bytes_of(v@.map_values(|m: Muc| muc_view_of(m)).subrange(0, k as int)),
    {
        if k > SO_MUC {
            return 0;
        }
        let ghost s = v@.map_values(|m: Muc| muc_view_of(m));
        let mut t: u128 = 0;
        let mut i: usize = 0;
        while i < k
            invariant
                k <= SO_MUC,
                k <= v@.len(),
                i <= k,
                s == v@.map_values(|m: Muc| muc_view_of(m)),
                t == bytes_of(s.subrange(0, i as int)),
                t <= i * 0x1_0000_0000_0000_0000,
            decreases k - i,
        {
            assert(s.subrange(0, i + 1).drop_last() =~= s.subrange(0, i as int));
            assert(v@[i as int].du_lieu@.len() == s[i as int].data.len());
            let len = v[i].du_lieu.len();
            t = t + len as u128;
            i += 1;
        }
        t
    }
}

/// The key of file `path` from what its metadata says (size, modification
/// time in seconds); `None` when there was no metadata (the file is gone).
pub fn khoa_cua(path: &str, meta: Option<(u64, i64)>) -> (r: Option<Khoa>)
    ensures
        match meta {
            None => r is None,
            Some((size, mtime)) => r matches Some(k) && k.path@ == path@ && k.size == size && k.mtime == mtime,
        },
{
    match meta {
        None => None,
        Some((size, mtime)) => Some(Khoa { path: path.to_string(), size, mtime }),
    }
}

/// The full transcode of `path` kept in `kho`, if any; `meta` is the file's
/// metadata as read now (`None`: the file is gone, and nothing is returned).
pub fn tra(kho: &mut Kho, path: &str, meta: Option<(u64, i64)>, now: u64) -> (r: Option<Arc<Vec<u8>>>)
    ensures
        match meta {
            None => r is None && final(kho).view() == old(kho).view(),
            Some((size, mtime)) => {
                let t = tidied(old(kho).view(), now);
                match position_of(t, (path@, size, mtime)) {
                    None => r is None && final(kho).view() == t,
                    Some(i) => r matches Some(d) && d@ == t[i].data && final(kho).view() == seq![
                        MucView { last: now, ..t[i] },
                    ] + t.remove(i),
                }
            },
        },
{
    match khoa_cua(path, meta) {
        None => None,
        Some(k) => kho.tra(&k, now),
    }
}

/// Keep the full transcode `data` of `path` in `kho`; `meta` is the file's
/// metadata as read now (`None`: the file is gone, and nothing is kept).
pub fn luu(kho: &mut Kho, path: &str, meta: Option<(u64, i64)>, data: Arc<Vec<u8>>, now: u64)
    ensures
        match meta {
            None => final(kho).view() == old(kho).view(),
            Some((size, mtime)) => final(kho).view() == tidied(
                seq![MucView { key: (path@, size, mtime), data: data@, last: now }]
                    + without_key(old(kho).view(), (path@, size, mtime)),
                now,
            ),
        },
{
    match khoa_cua(path, meta) {
        None => {},
        Some(k) => kho.luu(k, data, now),
    }
}

proof fn lemma_position_prefix(s: Seq<MucView>, k: (Seq<char>, u64, i64), i: int)
    requires
        0 <= i < s.len(),
        position_of(s.subrange(0, i), k) is None,
        s[i].key == k,
    ensures
        position_of(s, k) == Some(i),
    decreases s.len() - i,
{
    if i + 1 == s.len() {
        assert(s.drop_last() =~= s.subrange(0, i));
    } else {
        assert(s.drop_last().subrange(0, i) =~= s.subrange(0, i));
        lemma_position_prefix(s.drop_last(), k, i);
    }
}

fn copy_key(k: &Khoa) -> (r: Khoa)
    ensures
        r == *k,
{
    Khoa { path: k.path.clone(), size: k.size, mtime: k.mtime }
}

} // verus!
