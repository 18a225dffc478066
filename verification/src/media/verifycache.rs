//! Comparison results remembered for the session, so what was read is never
//! read again.
//!
//! A result is keyed by every file of its group: path (case folded), size and
//! modification time, in any order; a file changed since is another file.
//! And by level: a fast comparison does not answer "the same byte for byte?",
//! while a full one answers both questions. A stopped run is not an answer
//! and is not kept.

use std::collections::HashMap;

use vstd::prelude::*;
use vstd::relations::{sorted_by, total_ordering};
use vstd::utf8::encode_utf8;

use crate::digest::{le_u64, push_le_u64};
use crate::media::dupestore::{fnv, FNV_OFFSET, FNV_PRIME};
use crate::media::verifyfast::{KetQua, Muc};
use crate::order::{sort_triples, triple_le};
use crate::text::{lowercase_of, str_lowercase};

verus! {

broadcast use vstd::std_specs::hash::group_hash_axioms;

/// What identifies one file of a group now.
pub open spec fn file_digest(path: Seq<char>, size: u64, mtime: i64) -> u64 {
    fnv(FNV_OFFSET, encode_utf8(str_lowercase(path)) + le_u64(size) + le_u64(mtime as u64) + seq![124u8])
}

/// Each file's digest, as a sort key.
pub open spec fn digests(files: Seq<(Seq<char>, u64, i64)>) -> Seq<(u64, u64, u64)> {
    files.map_values(|f: (Seq<char>, u64, i64)| (file_digest(f.0, f.1, f.2), 0u64, 0u64))
}

/// The little-endian bytes of the first parts, in order.
pub open spec fn first_bytes(s: Seq<(u64, u64, u64)>) -> Seq<u8>
    decreases s.len(),
{
    if s.len() == 0 {
        Seq::empty()
    } else {
        first_bytes(s.drop_last()) + le_u64(s.last().0)
    }
}

/// The key of a group: FNV-1a over its files' digests in ascending order, so
/// the order the files are named in does not matter.
pub open spec fn group_key(files: Seq<(Seq<char>, u64, i64)>) -> u64 {
    fnv(FNV_OFFSET, first_bytes(digests(files).sort_by(|a: (u64, u64, u64), b: (u64, u64, u64)| triple_le(a, b))))
}

proof fn lemma_triple_le_total()
    ensures
        total_ordering(|a: (u64, u64, u64), b: (u64, u64, u64)| triple_le(a, b)),
{
}

proof fn lemma_fnv_append(h: u64, a: Seq<u8>, b: Seq<u8>)
    ensures
        fnv(h, a + b) == fnv(fnv(h, a), b),
    decreases b.len(),
{
    if b.len() == 0 {
        assert(a + b =~= a);
    } else {
        lemma_fnv_append(h, a, b.drop_last());
        assert((a + b).drop_last() =~= a + b.drop_last());
    }
}

/// FNV-1a over `b`, continuing from `h`.
fn fnv_bytes(h: u64, b: &[u8]) -> (r: u64)
    ensures
        r == fnv(h, b@),
{
    let mut x: u64 = h;
    let mut i: usize = 0;
    while i < b.len()
        invariant
            i <= b@.len(),
            x == fnv(h, b@.subrange(0, i as int)),
        decreases b@.len() - i,
    {
        assert(b@.subrange(0, i + 1).drop_last() =~= b@.subrange(0, i as int));
        x = (x ^ (b[i] as u64)).wrapping_mul(FNV_PRIME);
        i += 1;
    }
    assert(b@.subrange(0, b@.len() as int) =~= b@);
    x
}

fn digest_of(path: &str, size: u64, mtime: i64) -> (r: u64)
    ensures
        r == file_digest(path@, size, mtime),
{
    let low = lowercase_of(path);
    let mut msg: Vec<u8> = Vec::new();
    let b = low.as_str().as_bytes();
    let mut i: usize = 0;
    while i < b.len()
        invariant
            i <= b@.len(),
            msg@ == b@.subrange(0, i as int),
        decreases b@.len() - i,
    {
        msg.push(b[i]);
        assert(msg@ =~= b@.subrange(0, i + 1));
        i += 1;
    }
    assert(b@.subrange(0, b@.len() as int) =~= b@);
    push_le_u64(&mut msg, size);
    push_le_u64(&mut msg, mtime as u64);
    msg.push(124u8);
    assert(msg@ =~= encode_utf8(str_lowercase(path@)) + le_u64(size) + le_u64(mtime as u64) + seq![124u8]);
    fnv_bytes(FNV_OFFSET, msg.as_slice())
}

proof fn lemma_map_multiset(
    s: Seq<(Seq<char>, u64, i64)>,
    t: Seq<(Seq<char>, u64, i64)>,
    f: spec_fn((Seq<char>, u64, i64)) -> (u64, u64, u64),
)
    requires
        s.to_multiset() == t.to_multiset(),
    ensures
        s.map_values(f).to_multiset() == t.map_values(f).to_multiset(),
    decreases s.len(),
{
    broadcast use vstd::seq_lib::group_to_multiset_ensures;
    broadcast use vstd::multiset::group_multiset_axioms;

    if s.len() == 0 {
        assert(s.to_multiset().len() == s.len());
        assert(t.to_multiset().len() == t.len());
        assert(t.len() == 0);
        assert(s.map_values(f) =~= Seq::<(u64, u64, u64)>::empty());
        assert(t.map_values(f) =~= Seq::<(u64, u64, u64)>::empty());
    } else {
        let x = s.last();
        let s1 = s.drop_last();
        assert(s =~= s1.push(x));
        assert(t.to_multiset().contains(x));
        assert(t.contains(x));
        let i = choose|i: int| 0 <= i < t.len() && t[i] == x;
        let t1 = t.remove(i);
        assert(t1.to_multiset() == t.to_multiset().remove(x));
        assert(s1.to_multiset() == s.to_multiset().remove(x));
        lemma_map_multiset(s1, t1, f);
        assert(s.map_values(f) =~= s1.map_values(f).push(f(x)));
        assert(t.map_values(f).remove(i) =~= t1.map_values(f));
        assert(t.map_values(f)[i] == f(x));
        assert(t.map_values(f).remove(i).to_multiset() == t.map_values(f).to_multiset().remove(f(x)));
        assert(t.map_values(f).to_multiset().contains(f(x)));
        assert(t.map_values(f).to_multiset() =~= t1.map_values(f).to_multiset().insert(f(x)));
    }
}

/// Naming a group's files in another order gives the same key: the key
/// depends on which files (with their sizes and times) the group holds, not
/// on the order they are listed in.
pub proof fn group_key_ignores_order(a: Seq<(Seq<char>, u64, i64)>, b: Seq<(Seq<char>, u64, i64)>)
    requires
        a.to_multiset() == b.to_multiset(),
    ensures
        group_key(a) == group_key(b),
{
    let leq = |x: (u64, u64, u64), y: (u64, u64, u64)| triple_le(x, y);
    let f = |g: (Seq<char>, u64, i64)| (file_digest(g.0, g.1, g.2), 0u64, 0u64);
    lemma_map_multiset(a, b, f);
    assert(digests(a) == a.map_values(f));
    assert(digests(b) == b.map_values(f));
    lemma_triple_le_total();
    digests(a).lemma_sort_by_ensures(leq);
    digests(b).lemma_sort_by_ensures(leq);
    vstd::seq_lib::lemma_sorted_unique(digests(a).sort_by(leq), digests(b).sort_by(leq), leq);
}

/// The files of a group as the key sees them.
pub open spec fn group_files(paths: Seq<String>, meta: Seq<Option<(u64, i64)>>) -> Seq<(Seq<char>, u64, i64)> {
    Seq::new(paths.len(), |i: int| (paths[i]@, meta[i].unwrap().0, meta[i].unwrap().1))
}

/// The key of a group whose files' metadata was read as `meta` (`None`: the
/// file could not be read, and then there is no key).
pub fn khoa(paths: &[String], meta: &[Option<(u64, i64)>]) -> (r: Option<u64>)
    requires
        paths@.len() == meta@.len(),
    ensures
        r == if forall|i: int| 0 <= i < meta@.len() ==> (#[trigger] meta@[i]) is Some {
            Some(group_key(group_files(paths@, meta@)))
        } else {
            None
        },
{
    let ghost files = group_files(paths@, meta@);
    let mut keys: Vec<(u64, u64, u64)> = Vec::new();
    let mut i: usize = 0;
    while i < paths.len()
        invariant
            paths@.len() == meta@.len(),
            i <= paths@.len(),
            forall|j: int| 0 <= j < i ==> (#[trigger] meta@[j]) is Some,
            files == group_files(paths@, meta@),
            keys@ == Seq::new(i as nat, |j: int| (file_digest(paths@[j]@, meta@[j].unwrap().0, meta@[j].unwrap().1), 0u64, 0u64)),
        decreases paths@.len() - i,
    {
        match meta[i] {
            None => {
                return None;
            },
            Some((size, mtime)) => {
                let d = digest_of(paths[i].as_str(), size, mtime);
                keys.push((d, 0, 0));
                assert(keys@ =~= Seq::new((i + 1) as nat, |j: int| (file_digest(paths@[j]@, meta@[j].unwrap().0, meta@[j].unwrap().1), 0u64, 0u64)));
            },
        }
        i += 1;
    }
    let ghost ds = keys@;
    assert(ds =~= digests(files));
    sort_triples(&mut keys);
    proof {
        let leq = |a: (u64, u64, u64), b: (u64, u64, u64)| triple_le(a, b);
        lemma_triple_le_total();
        ds.lemma_sort_by_ensures(leq);
        assert(sorted_by(keys@, leq)) by {
            assert forall|a: int, b: int| 0 <= a < b < keys@.len() implies #[trigger] leq(keys@[a], keys@[b]) by {
                assert(triple_le(keys@[a], keys@[b]));
            }
        }
        vstd::seq_lib::lemma_sorted_unique(keys@, ds.sort_by(leq), leq);
    }
    let mut bytes: Vec<u8> = Vec::new();
    let mut k: usize = 0;
    while k < keys.len()
        invariant
            k <= keys@.len(),
            bytes@ == first_bytes(keys@.subrange(0, k as int)),
        decreases keys@.len() - k,
    {
        assert(keys@.subrange(0, k + 1).drop_last() =~= keys@.subrange(0, k as int));
        push_le_u64(&mut bytes, keys[k].0);
        k += 1;
    }
    assert(keys@.subrange(0, keys@.len() as int) =~= keys@);
    Some(fnv_bytes(FNV_OFFSET, bytes.as_slice()))
}

/// The texts of some strings.
pub open spec fn str_views(v: Seq<String>) -> Seq<Seq<char>>
    decreases v.len(),
{
    if v.len() == 0 {
        Seq::empty()
    } else {
        str_views(v.drop_last()).push(v.last()@)
    }
}

/// The texts of some lists of strings.
pub open spec fn group_views(v: Seq<Vec<String>>) -> Seq<Seq<Seq<char>>>
    decreases v.len(),
{
    if v.len() == 0 {
        Seq::empty()
    } else {
        group_views(v.drop_last()).push(str_views(v.last()@))
    }
}

/// A result as the contracts compare it.
pub open spec fn ket_qua_view(k: KetQua) -> (Seq<Seq<Seq<char>>>, Seq<Seq<char>>, bool, Muc, u64) {
    (
        group_views(k.groups@),
        str_views(k.unreadable@),
        k.cancelled,
        k.muc,
        k.bytes_read,
    )
}

fn copy_strings(v: &Vec<String>) -> (r: Vec<String>)
    ensures
        str_views(r@) == str_views(v@),
{
    let mut out: Vec<String> = Vec::new();
    let mut i: usize = 0;
    while i < v.len()
        invariant
            i <= v@.len(),
            str_views(out@) == str_views(v@.subrange(0, i as int)),
        decreases v@.len() - i,
    {
        let ghost before = out@;
        let s = v[i].clone();
        out.push(s);
        assert(out@.drop_last() =~= before);
        assert(v@.subrange(0, i + 1).drop_last() =~= v@.subrange(0, i as int));
        i += 1;
    }
    assert(v@.subrange(0, v@.len() as int) =~= v@);
    out
}

fn copy_ket_qua(k: &KetQua) -> (r: KetQua)
    ensures
        ket_qua_view(r) == ket_qua_view(*k),
{
    let mut groups: Vec<Vec<String>> = Vec::new();
    let mut i: usize = 0;
    while i < k.groups.len()
        invariant
            i <= k.groups@.len(),
            group_views(groups@) == group_views(k.groups@.subrange(0, i as int)),
        decreases k.groups@.len() - i,
    {
        let ghost before = groups@;
        let g = copy_strings(&k.groups[i]);
        groups.push(g);
        assert(groups@.drop_last() =~= before);
        assert(k.groups@.subrange(0, i + 1).drop_last() =~= k.groups@.subrange(0, i as int));
        i += 1;
    }
    assert(k.groups@.subrange(0, k.groups@.len() as int) =~= k.groups@);
    KetQua {
        groups,
        unreadable: copy_strings(&k.unreadable),
        cancelled: k.cancelled,
        muc: k.muc,
        bytes_read: k.bytes_read,
    }
}

/// The session's comparison results, by group key and level.
pub struct Kho {
    nhanh: HashMap<u64, KetQua>,
    toan_bo: HashMap<u64, KetQua>,
}

impl Kho {
    /// Fast results by key.
    pub closed spec fn fast(&self) -> Map<u64, KetQua> {
        self.nhanh@
    }

    /// Full results by key.
    pub closed spec fn full(&self) -> Map<u64, KetQua> {
        self.toan_bo@
    }

    pub fn new() -> (r: Self)
        ensures
            r.fast() == Map::<u64, KetQua>::empty(),
            r.full() == Map::<u64, KetQua>::empty(),
    {
        Kho { nhanh: HashMap::new(), toan_bo: HashMap::new() }
    }

    /// The result already known for this group at this level, if still good:
    /// a full result answers either question; a fast one only the fast one.
    pub fn tra(&self, paths: &[String], meta: &[Option<(u64, i64)>], muc: Muc) -> (r: Option<KetQua>)
        requires
            paths@.len() == meta@.len(),
        ensures
            match khoa_spec(paths@, meta@) {
                None => r is None,
                Some(k) => if self.full().contains_key(k) {
                    r matches Some(x) && ket_qua_view(x) == ket_qua_view(self.full()[k])
                } else if muc == Muc::Nhanh && self.fast().contains_key(k) {
                    r matches Some(x) && ket_qua_view(x) == ket_qua_view(self.fast()[k])
                } else {
                    r is None
                },
            },
    {
        let k = match khoa(paths, meta) {
            Some(k) => k,
            None => {
                return None;
            },
        };
        match self.toan_bo.get(&k) {
            Some(kq) => {
                return Some(copy_ket_qua(kq));
            },
            None => {},
        }
        match muc {
            Muc::Nhanh => match self.nhanh.get(&k) {
                Some(kq) => Some(copy_ket_qua(kq)),
                None => None,
            },
            Muc::ToanBo => None,
        }
    }

    /// Keep a result. A run that was stopped is not kept: what it holds is
    /// what it had read so far, not an answer.
    pub fn ghi(&mut self, paths: &[String], meta: &[Option<(u64, i64)>], kq: &KetQua)
        requires
            paths@.len() == meta@.len(),
        ensures
            match khoa_spec(paths@, meta@) {
                Some(k) if !kq.cancelled => match kq.muc {
                    Muc::Nhanh => final(self).full() == old(self).full() && final(self).fast().dom() == old(
                        self,
                    ).fast().dom().insert(k) && ket_qua_view(final(self).fast()[k]) == ket_qua_view(*kq) && forall|
                        k2: u64,
                    | k2 != k && old(self).fast().contains_key(k2) ==> final(self).fast()[k2] == old(self).fast()[k2],
                    Muc::ToanBo => final(self).fast() == old(self).fast() && final(self).full().dom() == old(
                        self,
                    ).full().dom().insert(k) && ket_qua_view(final(self).full()[k]) == ket_qua_view(*kq) && forall|
                        k2: u64,
                    | k2 != k && old(self).full().contains_key(k2) ==> final(self).full()[k2] == old(self).full()[k2],
                },
                _ => final(self).fast() == old(self).fast() && final(self).full() == old(self).full(),
            },
    {
        if kq.cancelled {
            return;
        }
        let k = match khoa(paths, meta) {
            Some(k) => k,
            None => {
                return;
            },
        };
        let copy = copy_ket_qua(kq);
        match kq.muc {
            Muc::Nhanh => {
                self.nhanh.insert(k, copy);
            },
            Muc::ToanBo => {
                self.toan_bo.insert(k, copy);
            },
        }
    }

    /// How many results are kept, both levels together.
    pub fn len(&self) -> (r: usize)
        ensures
            r == if self.fast().len() + self.full().len() <= usize::MAX {
                self.fast().len() + self.full().len()
            } else {
                usize::MAX as nat
            },
    {
        self.nhanh.len().saturating_add(self.toan_bo.len())
    }

    pub fn is_empty(&self) -> (r: bool)
        ensures
            r == (self.fast().len() == 0 && self.full().len() == 0),
    {
        self.nhanh.is_empty() && self.toan_bo.is_empty()
    }
}

/// What [`khoa`] returns.
pub open spec fn khoa_spec(paths: Seq<String>, meta: Seq<Option<(u64, i64)>>) -> Option<u64> {
    if forall|i: int| 0 <= i < meta.len() ==> (#[trigger] meta[i]) is Some {
        Some(group_key(group_files(paths, meta)))
    } else {
        None
    }
}

} // verus!
