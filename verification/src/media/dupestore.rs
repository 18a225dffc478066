//! The fingerprint store: what a duplicate scan already knows, kept between
//! scans so an unchanged file is never opened twice.
//!
//! A fingerprint is trusted only while the file's size and modification time
//! still match what they were when it was taken.

use std::collections::{HashMap, HashSet};

use vstd::prelude::*;
use vstd::utf8::encode_utf8;

use crate::text::{lowercase_of, str_lowercase};

verus! {

broadcast use vstd::std_specs::hash::group_hash_axioms;

/// The fingerprint of a file, with what tells whether the file has changed.
#[derive(Debug, Clone, Copy, PartialEq, Eq)]
pub struct Entry {
    /// Size when the fingerprint was taken.
    pub size: u64,
    /// Modification time when the fingerprint was taken.
    pub mtime: i64,
    /// BLAKE3 of the size and the sampled bytes.
    pub fp: [u8; 32],
}

/// Fingerprints, keyed by path.
#[derive(Debug)]
pub struct Store {
    by_path: HashMap<u64, Entry>,
}


pub const FNV_OFFSET: u64 = 0xcbf2_9ce4_8422_2325;

pub const FNV_PRIME: u64 = 0x1000_0000_01b3;

/// FNV-1a over `b`, continuing from `h`.
pub open spec fn fnv(h: u64, b: Seq<u8>) -> u64
    decreases b.len(),
{
    if b.len() == 0 {
        h
    } else {
        ((fnv(h, b.drop_last()) ^ (b.last() as u64)) as u64).wrapping_mul(FNV_PRIME)
    }
}

/// The key of a path: 64-bit FNV-1a of its lowercase UTF-8. Windows does not
/// tell case apart, so `D:\A.mp4` and `d:\a.mp4` are one file and one key. The
/// algorithm is written out here, so the key stays the same in every build.
pub open spec fn key_of(path: Seq<char>) -> u64 {
    fnv(FNV_OFFSET, encode_utf8(str_lowercase(path)))
}

/// Hash a path into a key.
pub fn path_key(path: &str) -> (r: u64)
    ensures
        r == key_of(path@),
{
    let low = lowercase_of(path);
    let b = low.as_str().as_bytes();
    let mut h: u64 = FNV_OFFSET;
    let mut i: usize = 0;
    while i < b.len()
        invariant
            i <= b@.len(),
            b@ == encode_utf8(str_lowercase(path@)),
            h == fnv(FNV_OFFSET, b@.subrange(0, i as int)),
        decreases b@.len() - i,
    {
        assert(b@.subrange(0, i + 1).drop_last() =~= b@.subrange(0, i as int));
        h = h ^ (b[i] as u64);
        h = h.wrapping_mul(FNV_PRIME);
        i += 1;
    }
    assert(b@.subrange(0, b@.len() as int) =~= b@);
    h
}

fn keeps(keep: &HashSet<u64>, k: &u64) -> (r: bool)
    ensures
        r == keep@.contains(*k),
{
    keep.contains(k)
}

/// `HashMap::retain`: keeps exactly the entries whose key `keep` holds.
#[verifier::external_body]
fn retain_in(m: &mut HashMap<u64, Entry>, keep: &HashSet<u64>)
    ensures
        final(m)@ == old(m)@.restrict(keep@),
{
    m.retain(|k, _| keeps(keep, k));
}

impl Default for Store {
    fn default() -> (r: Self)
        ensures
            r@ == Map::<u64, Entry>::empty(),
    {
        Store { by_path: HashMap::new() }
    }
}

impl View for Store {
    type V = Map<u64, Entry>;

    closed spec fn view(&self) -> Map<u64, Entry> {
        self.by_path@
    }
}

impl Store {
    /// The stored fingerprint, only while the file is unchanged. `None` means
    /// the file must be opened: never seen, or its size or time differ, and
    /// then the old fingerprint is about another file.
    pub fn get(&self, path: &str, size: u64, mtime: i64) -> (r: Option<[u8; 32]>)
        ensures
            r == (if self@.contains_key(key_of(path@)) && self@[key_of(path@)].size == size
                && self@[key_of(path@)].mtime == mtime {
                Some(self@[key_of(path@)].fp)
            } else {
                None
            }),
    {
        match self.by_path.get(&path_key(path)) {
            Some(e) => {
                if e.size == size && e.mtime == mtime {
                    Some(e.fp)
                } else {
                    None
                }
            },
            None => None,
        }
    }

    /// Record a fingerprint just taken.
    pub fn put(&mut self, path: &str, size: u64, mtime: i64, fp: [u8; 32])
        ensures
            final(self)@ == old(self)@.insert(key_of(path@), Entry { size, mtime, fp }),
    {
        let k = path_key(path);
        self.by_path.insert(k, Entry { size, mtime, fp });
    }

    pub fn len(&self) -> (r: usize)
        ensures
            r == self@.len(),
    {
        self.by_path.len()
    }

    pub fn is_empty(&self) -> (r: bool)
        ensures
            r == (self@.len() == 0),
    {
        self.by_path.is_empty()
    }

    /// Drop the keys no longer in use, so the store does not grow forever
    /// with deleted files; returns how many went.
    pub fn retain_keys(&mut self, con_dung: &HashSet<u64>) -> (r: usize)
        ensures
            final(self)@ == old(self)@.restrict(con_dung@),
            r == old(self)@.len() - final(self)@.len(),
    {
        let truoc = self.by_path.len();
        let ghost before = self.by_path@;
        retain_in(&mut self.by_path, con_dung);
        proof {
            assert(self.by_path@.dom().subset_of(before.dom()));
            vstd::set_lib::lemma_len_subset(self.by_path@.dom(), before.dom());
        }
        truoc - self.by_path.len()
    }
}

} // verus!
