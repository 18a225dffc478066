//! Applying file-system changes to an index that cannot be modified.
//!
//! An [`Index`] keeps every name as a span into one shared arena, so there is
//! nowhere to put a longer name and no way to reclaim the bytes of a deleted
//! one. A batch of journal records is therefore applied by reading the old
//! index and writing a whole new one: no overlay, no tombstones, and nothing
//! else in the program has to learn that entries can come from two places.

use std::collections::HashMap;

use vstd::prelude::*;
use vstd::utf8::encode_utf8;

use crate::index::model::{
    classify_bytes, classify_name, folded_bytes, seq_cost, text_cost, text_total, volume_of_text, Index, IndexBuilder,
    IndexView, MediaKind, NO_DIR,
};
use crate::text::{lower_chars, chars_eq_ignore_case, str_chars, string_from_chars, to_lower_char};

verus! {

broadcast use vstd::std_specs::hash::group_hash_axioms;

/// The record number NTFS gives the root directory of every volume.
pub const ROOT_RECORD_NUMBER: u64 = 5;

/// Not a reference number NTFS ever hands out, so it stands for "no identity".
///
/// Record 0 is `$MFT` itself and always carries a sequence number in the high
/// bits. A zero reaches here only from an index built before reference numbers
/// were recorded, and matching on it would make one change collide with every
/// such entry at once.
pub const NO_FRN: u64 = 0;

/// Directories nested deeper than this are treated as a broken chain: a cycle
/// in a corrupt journal batch would otherwise be walked forever.
pub const MAX_DEPTH: usize = 128;

/// The record number inside a file reference number: its low 48 bits. The
/// high 16 bits are the sequence number NTFS bumps each time a record is
/// reused.
pub fn record_number(frn: u64) -> (r: u64)
    ensures
        r == frn % 0x1_0000_0000_0000,
{
    assert(frn & 0xFFFF_FFFF_FFFF == frn % 0x1_0000_0000_0000) by (bit_vector);
    frn & 0xFFFF_FFFF_FFFF
}

/// The reference a directory is filed under.
///
/// The volume root is the one directory with no record of its own: NTFS
/// reports it as record 5 with a sequence number in the high bits, and the
/// scan files it under the bare record number. A journal record naming the
/// root as a parent carries the full reference, so both arrive at the same
/// key.
pub open spec fn filed_frn(frn: u64) -> u64 {
    if frn % 0x1_0000_0000_0000 == ROOT_RECORD_NUMBER {
        ROOT_RECORD_NUMBER
    } else {
        frn
    }
}

fn lookup_frn(frn: u64) -> (r: u64)
    ensures
        r == filed_frn(frn),
{
    if record_number(frn) == ROOT_RECORD_NUMBER {
        ROOT_RECORD_NUMBER
    } else {
        frn
    }
}

/// A reference number is unique per volume, never per machine, so identity
/// is always the pair; packed into one integer to key a map.
pub open spec fn pack(vol: u8, frn: u64) -> u128 {
    (vol as int * 0x1_0000_0000_0000_0000 + frn as int) as u128
}

fn pack_key(vol: u8, frn: u64) -> (r: u128)
    ensures
        r == pack(vol, frn),
{
    (vol as u128) * 0x1_0000_0000_0000_0000u128 + (frn as u128)
}

/// Two identities pack to the same key exactly when they are the same pair.
pub proof fn lemma_pack_injective(v1: u8, f1: u64, v2: u8, f2: u64)
    ensures
        (pack(v1, f1) == pack(v2, f2)) == (v1 == v2 && f1 == f2),
{
    assert(v1 as int * 0x1_0000_0000_0000_0000 + f1 as int <= u128::MAX);
    assert(v2 as int * 0x1_0000_0000_0000_0000 + f2 as int <= u128::MAX);
    if v1 != v2 {
        assert(v1 as int * 0x1_0000_0000_0000_0000 + f1 as int != v2 as int * 0x1_0000_0000_0000_0000 + f2 as int)
            by (nonlinear_arith)
            requires
                v1 != v2,
                0 <= f1 < 0x1_0000_0000_0000_0000,
                0 <= f2 < 0x1_0000_0000_0000_0000,
        ;
    }
}

/// What one entry looks like after a batch of journal records.
///
/// Deliberately a final state rather than an operation: a file created,
/// renamed twice and moved produces four journal records and one `Present`.
#[derive(Debug, Clone, PartialEq, Eq)]
pub enum Change {
    /// Nothing exists under this reference number any more. Whether it was a
    /// file or a directory is not stated: the index knows which it had.
    Gone { volume: u8, frn: u64 },
    /// The entry exists, with this parent and this name.
    Present { volume: u8, frn: u64, parent_frn: u64, name: String, is_dir: bool },
}

impl Change {
    pub open spec fn vol(self) -> u8 {
        match self {
            Change::Gone { volume, .. } => volume,
            Change::Present { volume, .. } => volume,
        }
    }

    pub open spec fn frn(self) -> u64 {
        match self {
            Change::Gone { frn, .. } => frn,
            Change::Present { frn, .. } => frn,
        }
    }

    fn key(&self) -> (r: (u8, u64))
        ensures
            r == (self.vol(), self.frn()),
    {
        match self {
            Change::Gone { volume, frn } => (*volume, *frn),
            Change::Present { volume, frn, .. } => (*volume, *frn),
        }
    }
}

/// What a batch actually did, for logging and for tests.
#[derive(Debug, Clone, Copy, PartialEq, Eq, Structural)]
pub struct UpdateStats {
    pub files_added: usize,
    pub files_removed: usize,
    pub files_moved: usize,
    pub dirs_added: usize,
    pub dirs_removed: usize,
    pub dirs_renamed: usize,
    /// Changes naming a parent directory that is nowhere to be found: a file
    /// created under a directory the scan excluded, for instance.
    pub unresolved: usize,
}

/// Statistics of a batch that did nothing.
pub open spec fn no_stats() -> UpdateStats {
    UpdateStats {
        files_added: 0,
        files_removed: 0,
        files_moved: 0,
        dirs_added: 0,
        dirs_removed: 0,
        dirs_renamed: 0,
        unresolved: 0,
    }
}

impl Default for UpdateStats {
    fn default() -> (r: Self)
        ensures
            r == no_stats(),
    {
        UpdateStats {
            files_added: 0,
            files_removed: 0,
            files_moved: 0,
            dirs_added: 0,
            dirs_removed: 0,
            dirs_renamed: 0,
            unresolved: 0,
        }
    }
}

/// For each identity, the position of the last record naming it among the
/// first `n` changes. Records without a reference number name nothing.
pub open spec fn latest_map(cs: Seq<Change>, n: int) -> Map<u128, usize>
    decreases n,
{
    if n <= 0 {
        Map::empty()
    } else {
        let m = latest_map(cs, n - 1);
        let c = cs[n - 1];
        if c.frn() == NO_FRN {
            m
        } else {
            m.insert(pack(c.vol(), c.frn()), (n - 1) as usize)
        }
    }
}

/// Change `j` is the last record for its entry, so it is the one that counts:
/// everything before it is history.
pub open spec fn is_latest(cs: Seq<Change>, j: int) -> bool {
    let m = latest_map(cs, cs.len() as int);
    let k = pack(cs[j].vol(), cs[j].frn());
    &&& 0 <= j < cs.len()
    &&& cs[j].frn() != NO_FRN
    &&& m.contains_key(k)
    &&& m[k] == j
}

/// Whether the batch says anything about entry `(vol, frn)`.
pub open spec fn touched(cs: Seq<Change>, vol: u8, frn: u64) -> bool {
    frn != NO_FRN && latest_map(cs, cs.len() as int).contains_key(pack(vol, frn))
}

/// The record the batch ends with for a touched entry.
pub open spec fn last_record(cs: Seq<Change>, vol: u8, frn: u64) -> Change {
    cs[latest_map(cs, cs.len() as int)[pack(vol, frn)] as int]
}

proof fn lemma_latest_map(cs: Seq<Change>, n: int)
    requires
        0 <= n <= cs.len(),
        cs.len() <= usize::MAX,
    ensures
        forall|k: u128| #[trigger] latest_map(cs, n).contains_key(k) ==> {
            let j = latest_map(cs, n)[k] as int;
            &&& 0 <= j < n
            &&& pack(cs[j].vol(), cs[j].frn()) == k
            &&& cs[j].frn() != NO_FRN
        },
        forall|j: int| 0 <= j < n && cs[j].frn() != NO_FRN ==> #[trigger] latest_map(cs, n).contains_key(
            pack(cs[j].vol(), cs[j].frn()),
        ),
    decreases n,
{
    if n > 0 {
        lemma_latest_map(cs, n - 1);
        let m0 = latest_map(cs, n - 1);
        let c = cs[n - 1];
        assert forall|k: u128| #[trigger] latest_map(cs, n).contains_key(k) implies {
            let j = latest_map(cs, n)[k] as int;
            &&& 0 <= j < n
            &&& pack(cs[j].vol(), cs[j].frn()) == k
            &&& cs[j].frn() != NO_FRN
        } by {
            if !(c.frn() != NO_FRN && k == pack(c.vol(), c.frn())) {
                assert(m0.contains_key(k));
            }
        }
        assert forall|j: int| 0 <= j < n && cs[j].frn() != NO_FRN implies #[trigger] latest_map(cs, n).contains_key(
            pack(cs[j].vol(), cs[j].frn()),
        ) by {
            if j < n - 1 {
                assert(m0.contains_key(pack(cs[j].vol(), cs[j].frn())));
            }
        }
    }
}

/// The last record for every identity in the batch.
fn latest_records(changes: &[Change]) -> (m: HashMap<u128, usize>)
    ensures
        m@ == latest_map(changes@, changes@.len() as int),
{
    let mut m: HashMap<u128, usize> = HashMap::with_capacity(changes.len());
    let mut j: usize = 0;
    while j < changes.len()
        invariant
            j <= changes@.len(),
            m@ == latest_map(changes@, j as int),
        decreases changes@.len() - j,
    {
        let (v, f) = changes[j].key();
        if f != NO_FRN {
            m.insert(pack_key(v, f), j);
        }
        j += 1;
    }
    m
}

// ---------------------------------------------------------------------------
// The directory table
// ---------------------------------------------------------------------------

/// The directory table, mid-rewrite: one absolute path per directory, `None`
/// once the directory has been deleted, with its reference number and volume.
///
/// Paths rather than parent links: renaming a directory is a prefix rewrite
/// of everything under it, and deleting one is a prefix match.
pub ghost struct DirsView {
    pub paths: Seq<Option<Seq<char>>>,
    pub frns: Seq<u64>,
    pub vols: Seq<u8>,
}

/// Where each identity is filed among the first `n` directories; a later
/// directory with the same identity takes the key over.
pub open spec fn dir_keys(vols: Seq<u8>, frns: Seq<u64>, n: int) -> Map<u128, u32>
    decreases n,
{
    if n <= 0 {
        Map::empty()
    } else {
        dir_keys(vols, frns, n - 1).insert(pack(vols[n - 1], filed_frn(frns[n - 1])), (n - 1) as u32)
    }
}

impl DirsView {
    pub open spec fn len(self) -> nat {
        self.paths.len()
    }

    pub open spec fn wf(self) -> bool {
        &&& self.frns.len() == self.paths.len()
        &&& self.vols.len() == self.paths.len()
        &&& self.paths.len() < u32::MAX
    }

    pub open spec fn keys(self) -> Map<u128, u32> {
        dir_keys(self.vols, self.frns, self.paths.len() as int)
    }

    /// The directory filed under `(vol, frn)`.
    pub open spec fn resolve(self, vol: u8, frn: u64) -> Option<int> {
        let k = pack(vol, filed_frn(frn));
        if self.keys().contains_key(k) {
            Some(self.keys()[k] as int)
        } else {
            None
        }
    }
}

/// The table a rebuild starts from: every directory of the old index, alive.
pub open spec fn initial_dirs(ix: IndexView) -> DirsView {
    DirsView {
        paths: ix.dirs.map_values(|d: Seq<char>| Some(d)),
        frns: ix.dir_frns,
        vols: ix.dirs.map_values(|d: Seq<char>| volume_of_text(d)),
    }
}

proof fn lemma_dir_keys(vols: Seq<u8>, frns: Seq<u64>, n: int)
    requires
        0 <= n <= vols.len(),
        n <= frns.len(),
        n < u32::MAX,
    ensures
        forall|k: u128| #[trigger] dir_keys(vols, frns, n).contains_key(k) ==> {
            let i = dir_keys(vols, frns, n)[k] as int;
            &&& 0 <= i < n
            &&& pack(vols[i], filed_frn(frns[i])) == k
        },
    decreases n,
{
    if n > 0 {
        lemma_dir_keys(vols, frns, n - 1);
        let m0 = dir_keys(vols, frns, n - 1);
        assert forall|k: u128| #[trigger] dir_keys(vols, frns, n).contains_key(k) implies {
            let i = dir_keys(vols, frns, n)[k] as int;
            &&& 0 <= i < n
            &&& pack(vols[i], filed_frn(frns[i])) == k
        } by {
            if k != pack(vols[n - 1], filed_frn(frns[n - 1])) {
                assert(m0.contains_key(k));
            }
        }
    }
}

proof fn lemma_dir_keys_prefix(vols: Seq<u8>, frns: Seq<u64>, vols2: Seq<u8>, frns2: Seq<u64>, n: int)
    requires
        0 <= n <= vols.len(),
        n <= frns.len(),
        n <= vols2.len(),
        n <= frns2.len(),
        vols.subrange(0, n) == vols2.subrange(0, n),
        frns.subrange(0, n) == frns2.subrange(0, n),
    ensures
        dir_keys(vols, frns, n) == dir_keys(vols2, frns2, n),
    decreases n,
{
    if n > 0 {
        assert(vols[n - 1] == vols.subrange(0, n)[n - 1]);
        assert(vols2[n - 1] == vols2.subrange(0, n)[n - 1]);
        assert(frns[n - 1] == frns.subrange(0, n)[n - 1]);
        assert(frns2[n - 1] == frns2.subrange(0, n)[n - 1]);
        assert(vols.subrange(0, n - 1) =~= vols.subrange(0, n).subrange(0, n - 1));
        assert(vols2.subrange(0, n - 1) =~= vols2.subrange(0, n).subrange(0, n - 1));
        assert(frns.subrange(0, n - 1) =~= frns.subrange(0, n).subrange(0, n - 1));
        assert(frns2.subrange(0, n - 1) =~= frns2.subrange(0, n).subrange(0, n - 1));
        lemma_dir_keys_prefix(vols, frns, vols2, frns2, n - 1);
    }
}

pub open spec fn opt_chars(p: Option<Vec<char>>) -> Option<Seq<char>> {
    match p {
        Some(v) => Some(v@),
        None => None,
    }
}

struct DirTable {
    paths: Vec<Option<Vec<char>>>,
    frns: Vec<u64>,
    vols: Vec<u8>,
    by_frn: HashMap<u128, u32>,
}

/// Is `path` inside directory `prefix`? Compared without regard to ASCII case,
/// as Windows compares paths. The separator check is what stops `D:\Phim2`
/// from being swept up by a rename of `D:\Phim`.
pub open spec fn under(path: Seq<char>, prefix: Seq<char>) -> bool {
    &&& path.len() > prefix.len()
    &&& path[prefix.len() as int] == '\\'
    &&& chars_eq_ignore_case(path.subrange(0, prefix.len() as int), prefix)
}

/// Where path `p` lands when directory `from` becomes `to`.
pub open spec fn moved_path(p: Seq<char>, from: Seq<char>, to: Seq<char>) -> Seq<char> {
    if chars_eq_ignore_case(p, from) {
        to
    } else if under(p, from) {
        to + p.subrange(from.len() as int, p.len() as int)
    } else {
        p
    }
}

/// The table once directory `from` has become `to`, with everything under it.
pub open spec fn moved(t: DirsView, from: Seq<char>, to: Seq<char>) -> DirsView {
    DirsView {
        paths: t.paths.map_values(
            |o: Option<Seq<char>>|
                match o {
                    Some(p) => Some(moved_path(p, from, to)),
                    None => None,
                },
        ),
        ..t
    }
}

/// The rename record `j` carries out, if any: the directory it names, known
/// and alive, leaves `from` for `to` under its parent's current path.
pub open spec fn rename_of(t: DirsView, cs: Seq<Change>, j: int) -> Option<(Seq<char>, Seq<char>)> {
    if !is_latest(cs, j) {
        None
    } else {
        match cs[j] {
            Change::Present { volume, frn, parent_frn, name, is_dir } => {
                if !is_dir {
                    None
                } else {
                    match (t.resolve(volume, frn), t.resolve(volume, parent_frn)) {
                        (Some(id), Some(pid)) => match (t.paths[id], t.paths[pid]) {
                            (Some(cur), Some(parent)) => {
                                let fresh = parent + seq!['\\'] + name@;
                                if fresh == cur {
                                    None
                                } else {
                                    Some((cur, fresh))
                                }
                            },
                            _ => None,
                        },
                        _ => None,
                    }
                }
            },
            Change::Gone { .. } => None,
        }
    }
}

/// The table after the rename records among the first `n` changes, in order.
pub open spec fn renamed(t: DirsView, cs: Seq<Change>, n: int) -> DirsView
    decreases n,
{
    if n <= 0 {
        t
    } else {
        let t1 = renamed(t, cs, n - 1);
        match rename_of(t1, cs, n - 1) {
            Some((from, to)) => moved(t1, from, to),
            None => t1,
        }
    }
}

/// How many of the first `n` changes renamed a directory.
pub open spec fn renames_done(t: DirsView, cs: Seq<Change>, n: int) -> nat
    decreases n,
{
    if n <= 0 {
        0
    } else {
        renames_done(t, cs, n - 1) + if rename_of(renamed(t, cs, n - 1), cs, n - 1) is Some {
            1nat
        } else {
            0nat
        }
    }
}

/// Directory `i` lies on volume `vol` under path `p`.
pub open spec fn swept(t: DirsView, i: int, vol: u8, p: Seq<char>) -> bool {
    &&& t.vols[i] == vol
    &&& match t.paths[i] {
        Some(q) => under(q, p),
        None => false,
    }
}

/// The table after deletion record `j`: the directory it names goes, and with
/// it every directory of the same volume underneath.
pub open spec fn delete_step(t: DirsView, cs: Seq<Change>, j: int) -> DirsView {
    if !is_latest(cs, j) {
        t
    } else {
        match cs[j] {
            Change::Gone { volume, frn } => match t.resolve(volume, frn) {
                Some(id) => match t.paths[id] {
                    Some(p) => DirsView {
                        paths: Seq::new(
                            t.paths.len(),
                            |i: int|
                                if i == id || swept(t, i, volume, p) {
                                    None
                                } else {
                                    t.paths[i]
                                },
                        ),
                        ..t
                    },
                    None => t,
                },
                None => t,
            },
            Change::Present { .. } => t,
        }
    }
}

/// The table after the deletion records among the first `n` changes.
pub open spec fn deleted(t: DirsView, cs: Seq<Change>, n: int) -> DirsView
    decreases n,
{
    if n <= 0 {
        t
    } else {
        delete_step(deleted(t, cs, n - 1), cs, n - 1)
    }
}

/// How many directories of the table are gone.
pub open spec fn dead_count(paths: Seq<Option<Seq<char>>>) -> nat
    decreases paths.len(),
{
    if paths.len() == 0 {
        0
    } else {
        dead_count(paths.drop_last()) + if paths.last() is None {
            1nat
        } else {
            0nat
        }
    }
}

proof fn lemma_dead_bound(paths: Seq<Option<Seq<char>>>)
    ensures
        dead_count(paths) <= paths.len(),
    decreases paths.len(),
{
    if paths.len() > 0 {
        lemma_dead_bound(paths.drop_last());
    }
}

/// Killing a live directory adds exactly one to the dead.
proof fn lemma_kill(paths: Seq<Option<Seq<char>>>, i: int)
    requires
        0 <= i < paths.len(),
        paths[i] is Some,
    ensures
        dead_count(paths.update(i, None)) == dead_count(paths) + 1,
    decreases paths.len(),
{
    let u = paths.update(i, None);
    if i == paths.len() - 1 {
        assert(u.drop_last() =~= paths.drop_last());
    } else {
        assert(u.drop_last() =~= paths.drop_last().update(i, None));
        lemma_kill(paths.drop_last(), i);
    }
}

/// Record `j` asks for a directory the table may not have yet.
pub open spec fn is_dir_record(cs: Seq<Change>, j: int) -> bool {
    is_latest(cs, j) && cs[j] is Present && cs[j]->is_dir
}

/// Record `j` places a file.
pub open spec fn is_file_record(cs: Seq<Change>, j: int) -> bool {
    is_latest(cs, j) && cs[j] is Present && !cs[j]->is_dir
}

pub open spec fn count_dir_records(cs: Seq<Change>, n: int) -> nat
    decreases n,
{
    if n <= 0 {
        0
    } else {
        count_dir_records(cs, n - 1) + if is_dir_record(cs, n - 1) {
            1nat
        } else {
            0nat
        }
    }
}

pub open spec fn count_file_records(cs: Seq<Change>, n: int) -> nat
    decreases n,
{
    if n <= 0 {
        0
    } else {
        count_file_records(cs, n - 1) + if is_file_record(cs, n - 1) {
            1nat
        } else {
            0nat
        }
    }
}

proof fn lemma_record_counts(cs: Seq<Change>, n: int)
    requires
        0 <= n,
    ensures
        count_dir_records(cs, n) + count_file_records(cs, n) <= n,
        (forall|j: int| 0 <= j < n ==> !#[trigger] is_dir_record(cs, j)) ==> count_dir_records(cs, n) == 0,
    decreases n,
{
    if n > 0 {
        lemma_record_counts(cs, n - 1);
    }
}

/// Some record of the batch asks for directory `(vol, frn)`.
pub open spec fn created_by(cs: Seq<Change>, vol: u8, frn: u64) -> bool {
    exists|j: int| #[trigger] is_dir_record(cs, j) && cs[j].vol() == vol && cs[j].frn() == frn
}

/// `t` is `t0` with directories appended, each alive and asked for by a
/// record of the batch.
pub open spec fn grows_from(t0: DirsView, t: DirsView, cs: Seq<Change>) -> bool {
    &&& t.wf()
    &&& t0.len() <= t.len()
    &&& t.paths.subrange(0, t0.len() as int) == t0.paths
    &&& t.frns.subrange(0, t0.len() as int) == t0.frns
    &&& t.vols.subrange(0, t0.len() as int) == t0.vols
    &&& forall|id: int|
        t0.len() <= id < t.len() ==> #[trigger] t.paths[id] is Some && created_by(cs, t.vols[id], t.frns[id])
}

proof fn lemma_grows_trans(t0: DirsView, t1: DirsView, t2: DirsView, cs: Seq<Change>)
    requires
        grows_from(t0, t1, cs),
        grows_from(t1, t2, cs),
    ensures
        grows_from(t0, t2, cs),
{
    let n0 = t0.len() as int;
    let n1 = t1.len() as int;
    assert(t2.paths.subrange(0, n0) =~= t2.paths.subrange(0, n1).subrange(0, n0));
    assert(t2.frns.subrange(0, n0) =~= t2.frns.subrange(0, n1).subrange(0, n0));
    assert(t2.vols.subrange(0, n0) =~= t2.vols.subrange(0, n1).subrange(0, n0));
    assert forall|id: int| n0 <= id < t2.len() implies #[trigger] t2.paths[id] is Some && created_by(cs, t2.vols[id], t2.frns[id]) by {
        if id < n1 {
            assert(t2.paths[id] == t2.paths.subrange(0, n1)[id]);
            assert(t2.vols[id] == t2.vols.subrange(0, n1)[id]);
            assert(t2.frns[id] == t2.frns.subrange(0, n1)[id]);
            assert(t1.paths[id] is Some);
        }
    }
}

/// The pending directory records: each key names the record asking for it.
pub open spec fn pending_ok(p: Map<u128, usize>, cs: Seq<Change>) -> bool {
    forall|k: u128| #[trigger] p.contains_key(k) ==> {
        let j = p[k] as int;
        &&& is_dir_record(cs, j)
        &&& pack(cs[j].vol(), cs[j].frn()) == k
    }
}

/// The directory records still waiting for a directory, among the first
/// `n`: the last record for an identity, asking for a directory the table
/// `t0` does not have, filed under its identity.
pub open spec fn waiting_map(t0: DirsView, cs: Seq<Change>, n: int) -> Map<u128, usize>
    decreases n,
{
    if n <= 0 {
        Map::empty()
    } else if is_dir_record(cs, n - 1) && t0.resolve(cs[n - 1].vol(), cs[n - 1].frn()) is None {
        waiting_map(t0, cs, n - 1).insert(pack(cs[n - 1].vol(), cs[n - 1].frn()), (n - 1) as usize)
    } else {
        waiting_map(t0, cs, n - 1)
    }
}

/// The same records' identities, in batch order: the order they are created in.
pub open spec fn waiting_order(t0: DirsView, cs: Seq<Change>, n: int) -> Seq<(u8, u64)>
    decreases n,
{
    if n <= 0 {
        Seq::empty()
    } else if is_dir_record(cs, n - 1) && t0.resolve(cs[n - 1].vol(), cs[n - 1].frn()) is None {
        waiting_order(t0, cs, n - 1).push((cs[n - 1].vol(), cs[n - 1].frn()))
    } else {
        waiting_order(t0, cs, n - 1)
    }
}

/// Make sure directory `(vol, frn)` exists: found in the table, or created
/// from its waiting record under its parent, the parent made first the same
/// way, at most [`MAX_DEPTH`] levels up. The table afterwards (parents made
/// along the way stay, even when this one fails), and the directory.
pub open spec fn made(t: DirsView, pend: Map<u128, usize>, cs: Seq<Change>, vol: u8, frn: u64, depth: nat) -> (
    DirsView,
    Option<int>,
)
    decreases MAX_DEPTH - depth,
{
    match t.resolve(vol, frn) {
        Some(id) => (t, Some(id)),
        None => if depth >= MAX_DEPTH || !pend.contains_key(pack(vol, frn)) {
            (t, None)
        } else {
            match cs[pend[pack(vol, frn)] as int] {
                Change::Present { parent_frn, name, .. } => {
                    let (t1, pid) = match t.resolve(vol, parent_frn) {
                        Some(p) => (t, Some(p)),
                        None => made(t, pend, cs, vol, parent_frn, depth + 1),
                    };
                    match pid {
                        None => (t1, None),
                        Some(p) => match t1.paths[p] {
                            None => (t1, None),
                            Some(pp) => if t1.len() >= 0xFFFF_FFFD {
                                (t1, None)
                            } else {
                                (
                                    DirsView {
                                        paths: t1.paths.push(Some(pp + seq!['\\'] + name@)),
                                        frns: t1.frns.push(frn),
                                        vols: t1.vols.push(vol),
                                    },
                                    Some(t1.len() as int),
                                )
                            },
                        },
                    }
                },
                Change::Gone { .. } => (t, None),
            }
        },
    }
}

/// The table after making the first `q` waiting directories in order, with
/// how many were made and how many could not be.
pub open spec fn make_all(t: DirsView, pend: Map<u128, usize>, cs: Seq<Change>, order: Seq<(u8, u64)>, q: int) -> (
    DirsView,
    nat,
    nat,
)
    decreases q,
{
    if q <= 0 {
        (t, 0, 0)
    } else {
        let (t1, a, u) = make_all(t, pend, cs, order, q - 1);
        let (t2, r) = made(t1, pend, cs, order[q - 1].0, order[q - 1].1, 0);
        if r is Some {
            (t2, a + 1, u)
        } else {
            (t2, a, u + 1)
        }
    }
}

/// The directories a batch creates in table `t0`: each directory record
/// whose identity the table lacks becomes one new directory at its parent's
/// path, a backslash and its name, its parent found in the table or made
/// first from another waiting record; with how many were made and how many
/// could not be placed.
pub open spec fn created(t0: DirsView, cs: Seq<Change>) -> (DirsView, nat, nat) {
    let n = cs.len() as int;
    make_all(t0, waiting_map(t0, cs, n), cs, waiting_order(t0, cs, n), waiting_order(t0, cs, n).len() as int)
}

/// The directories the batch creates: `c` grows from `t0`, and grows not at
/// all when the batch asks for no directory.
pub open spec fn creation_ok(t0: DirsView, cs: Seq<Change>, c: DirsView) -> bool {
    &&& grows_from(t0, c, cs)
    &&& (forall|j: int| 0 <= j < cs.len() ==> !#[trigger] is_dir_record(cs, j)) ==> c == t0
}

/// The table a batch leaves: directories created, then renamed, then deleted.
pub open spec fn applied(c: DirsView, cs: Seq<Change>) -> DirsView {
    deleted(renamed(c, cs, cs.len() as int), cs, cs.len() as int)
}

/// The paths of the directories still alive among the first `n`, in order.
pub open spec fn live_dirs(t: DirsView, n: int) -> Seq<Seq<char>>
    decreases n,
{
    if n <= 0 {
        Seq::empty()
    } else {
        let r = live_dirs(t, n - 1);
        match t.paths[n - 1] {
            Some(p) => r.push(p),
            None => r,
        }
    }
}

/// The reference numbers of the same directories.
pub open spec fn live_dir_frns(t: DirsView, n: int) -> Seq<u64>
    decreases n,
{
    if n <= 0 {
        Seq::empty()
    } else {
        let r = live_dir_frns(t, n - 1);
        match t.paths[n - 1] {
            Some(_) => r.push(t.frns[n - 1]),
            None => r,
        }
    }
}


/// Arena taken by the live directories among the first `n`.
pub open spec fn live_cost(t: DirsView, n: int) -> nat
    decreases n,
{
    if n <= 0 {
        0
    } else {
        live_cost(t, n - 1) + match t.paths[n - 1] {
            Some(p) => text_cost(p),
            None => 0,
        }
    }
}

proof fn lemma_live_mono(t: DirsView, i: int, n: int)
    requires
        0 <= i <= n,
    ensures
        live_cost(t, i) <= live_cost(t, n),
        live_dirs(t, i).len() <= live_dirs(t, n).len(),
        live_dir_frns(t, i).len() == live_dirs(t, i).len(),
    decreases n - i, n,
{
    if i < n {
        lemma_live_mono(t, i, n - 1);
        lemma_live_mono(t, n - 1, n - 1);
    } else if i > 0 {
        lemma_live_mono(t, i - 1, i - 1);
    }
}

/// One file of a rebuilt index, as the rebuild decides it.
pub ghost struct Planned {
    pub name: Seq<char>,
    /// Position of its directory among the live ones.
    pub dir: u32,
    pub kind: MediaKind,
    pub frn: u64,
    pub size: u64,
    pub mtime: i64,
}

/// Old entry `i` survives as it was: no record names it and its directory
/// is still there.
pub open spec fn kept(old: IndexView, cs: Seq<Change>, t: DirsView, i: int) -> bool {
    &&& !touched(cs, old.volume(i), old.frn_of(i))
    &&& t.paths[old.dir_of[i] as int] is Some
}

/// Old entry `i` is gone: the batch ends with it deleted, or without naming
/// it and its directory was deleted.
pub open spec fn dropped(old: IndexView, cs: Seq<Change>, t: DirsView, i: int) -> bool {
    if touched(cs, old.volume(i), old.frn_of(i)) {
        last_record(cs, old.volume(i), old.frn_of(i)) is Gone
    } else {
        t.paths[old.dir_of[i] as int] is None
    }
}

/// The surviving old entries among the first `n`, in their old order.
pub open spec fn carried(old: IndexView, cs: Seq<Change>, t: DirsView, n: int) -> Seq<Planned>
    decreases n,
{
    if n <= 0 {
        Seq::empty()
    } else {
        let r = carried(old, cs, t, n - 1);
        let i = n - 1;
        if kept(old, cs, t, i) {
            r.push(
                Planned {
                    name: old.names[i],
                    dir: live_dirs(t, old.dir_of[i] as int).len() as u32,
                    kind: old.kinds[i],
                    frn: old.frns[i],
                    size: old.size_of(i),
                    mtime: old.mtime_of(i),
                },
            )
        } else {
            r
        }
    }
}

pub open spec fn count_dropped(old: IndexView, cs: Seq<Change>, t: DirsView, n: int) -> nat
    decreases n,
{
    if n <= 0 {
        0
    } else {
        count_dropped(old, cs, t, n - 1) + if dropped(old, cs, t, n - 1) {
            1nat
        } else {
            0nat
        }
    }
}

/// Where each entry of the old index stood, by identity; entries without a
/// reference number are not filed, and a later entry takes a key over.
pub open spec fn old_positions(old: IndexView, n: int) -> Map<u128, u32>
    decreases n,
{
    if n <= 0 {
        Map::empty()
    } else {
        let m = old_positions(old, n - 1);
        if old.frn_of(n - 1) == NO_FRN {
            m
        } else {
            m.insert(pack(old.volume(n - 1), old.frn_of(n - 1)), (n - 1) as u32)
        }
    }
}

/// The old position of entry `(vol, frn)`, if the old index had it.
pub open spec fn known_at(old: IndexView, vol: u8, frn: u64) -> Option<int> {
    let m = old_positions(old, old.len() as int);
    let k = pack(vol, frn);
    if m.contains_key(k) {
        Some(m[k] as int)
    } else {
        None
    }
}

/// The kind of media a record names, if it names a media file.
pub open spec fn record_kind(c: Change) -> Option<MediaKind> {
    match c {
        Change::Present { name, .. } => classify_bytes(encode_utf8(name@)),
        Change::Gone { .. } => None,
    }
}

/// The live directory a record places its entry in.
pub open spec fn parent_dir(t: DirsView, c: Change) -> Option<int> {
    match c {
        Change::Present { volume, parent_frn, .. } => match t.resolve(volume, parent_frn) {
            Some(d) => if t.paths[d] is Some {
                Some(d)
            } else {
                None
            },
            None => None,
        },
        Change::Gone { .. } => None,
    }
}

/// Record `j` places a media file in a live directory.
pub open spec fn placed(cs: Seq<Change>, t: DirsView, j: int) -> bool {
    &&& is_file_record(cs, j)
    &&& record_kind(cs[j]) is Some
    &&& parent_dir(t, cs[j]) is Some
}

/// Record `j` names a media file under a directory nowhere to be found.
pub open spec fn unplaced(cs: Seq<Change>, t: DirsView, j: int) -> bool {
    &&& is_file_record(cs, j)
    &&& record_kind(cs[j]) is Some
    &&& parent_dir(t, cs[j]) is None
}

/// The files the records among the first `n` place, in record order. A file
/// the old index already had keeps the size and time measured for it.
pub open spec fn added(old: IndexView, cs: Seq<Change>, t: DirsView, n: int) -> Seq<Planned>
    decreases n,
{
    if n <= 0 {
        Seq::empty()
    } else {
        let r = added(old, cs, t, n - 1);
        let j = n - 1;
        let c = cs[j];
        if placed(cs, t, j) {
            let known = known_at(old, c.vol(), c.frn());
            r.push(
                Planned {
                    name: c->name@,
                    dir: live_dirs(t, parent_dir(t, c)->0).len() as u32,
                    kind: record_kind(c)->0,
                    frn: c.frn(),
                    size: match known {
                        Some(p) => old.size_of(p),
                        None => 0,
                    },
                    mtime: match known {
                        Some(p) => old.mtime_of(p),
                        None => 0,
                    },
                },
            )
        } else {
            r
        }
    }
}

pub open spec fn count_moved(old: IndexView, cs: Seq<Change>, t: DirsView, n: int) -> nat
    decreases n,
{
    if n <= 0 {
        0
    } else {
        count_moved(old, cs, t, n - 1) + if placed(cs, t, n - 1) && known_at(old, cs[n - 1].vol(), cs[n - 1].frn()) is Some {
            1nat
        } else {
            0nat
        }
    }
}

pub open spec fn count_new(old: IndexView, cs: Seq<Change>, t: DirsView, n: int) -> nat
    decreases n,
{
    if n <= 0 {
        0
    } else {
        count_new(old, cs, t, n - 1) + if placed(cs, t, n - 1) && known_at(old, cs[n - 1].vol(), cs[n - 1].frn()) is None {
            1nat
        } else {
            0nat
        }
    }
}

pub open spec fn count_unplaced(cs: Seq<Change>, t: DirsView, n: int) -> nat
    decreases n,
{
    if n <= 0 {
        0
    } else {
        count_unplaced(cs, t, n - 1) + if unplaced(cs, t, n - 1) {
            1nat
        } else {
            0nat
        }
    }
}

proof fn lemma_file_counts(old: IndexView, cs: Seq<Change>, t: DirsView, n: int)
    requires
        0 <= n,
    ensures
        count_moved(old, cs, t, n) + count_new(old, cs, t, n) + count_unplaced(cs, t, n) <= count_file_records(cs, n),
        count_moved(old, cs, t, n) + count_new(old, cs, t, n) == added(old, cs, t, n).len(),
    decreases n,
{
    if n > 0 {
        lemma_file_counts(old, cs, t, n - 1);
    }
}

proof fn lemma_file_records_mono(cs: Seq<Change>, i: int, n: int)
    requires
        0 <= i <= n,
    ensures
        count_file_records(cs, i) <= count_file_records(cs, n),
    decreases n - i,
{
    if i < n {
        lemma_file_records_mono(cs, i, n - 1);
    }
}

proof fn lemma_dropped_bound(old: IndexView, cs: Seq<Change>, t: DirsView, n: int)
    requires
        0 <= n,
    ensures
        count_dropped(old, cs, t, n) <= n,
    decreases n,
{
    if n > 0 {
        lemma_dropped_bound(old, cs, t, n - 1);
    }
}

/// Every file of the rebuilt index: the survivors, then what the batch placed.
pub open spec fn plan(old: IndexView, cs: Seq<Change>, t: DirsView) -> Seq<Planned> {
    carried(old, cs, t, old.len() as int) + added(old, cs, t, cs.len() as int)
}

/// Arena taken by the names of planned files.
pub open spec fn names_cost(p: Seq<Planned>) -> nat
    decreases p.len(),
{
    if p.len() == 0 {
        0
    } else {
        names_cost(p.drop_last()) + text_cost(p.last().name)
    }
}

proof fn lemma_names_cost_concat(a: Seq<Planned>, b: Seq<Planned>)
    ensures
        names_cost(a + b) == names_cost(a) + names_cost(b),
    decreases b.len(),
{
    if b.len() > 0 {
        assert((a + b).drop_last() =~= a + b.drop_last());
        lemma_names_cost_concat(a, b.drop_last());
    } else {
        assert(a + b =~= a);
    }
}

proof fn lemma_carried_mono(old: IndexView, cs: Seq<Change>, t: DirsView, i: int, n: int)
    requires
        0 <= i <= n,
    ensures
        names_cost(carried(old, cs, t, i)) <= names_cost(carried(old, cs, t, n)),
        carried(old, cs, t, i).len() <= carried(old, cs, t, n).len(),
    decreases n - i,
{
    if i < n {
        lemma_carried_mono(old, cs, t, i, n - 1);
        let r = carried(old, cs, t, n - 1);
        if kept(old, cs, t, n - 1) {
            assert(carried(old, cs, t, n).drop_last() =~= r);
        }
    }
}

proof fn lemma_added_mono(old: IndexView, cs: Seq<Change>, t: DirsView, i: int, n: int)
    requires
        0 <= i <= n,
    ensures
        names_cost(added(old, cs, t, i)) <= names_cost(added(old, cs, t, n)),
        added(old, cs, t, i).len() <= added(old, cs, t, n).len(),
    decreases n - i,
{
    if i < n {
        lemma_added_mono(old, cs, t, i, n - 1);
        let r = added(old, cs, t, n - 1);
        if placed(cs, t, n - 1) {
            assert(added(old, cs, t, n).drop_last() =~= r);
        }
    }
}

/// The whole rebuild fits the arena's 32-bit offsets and the id space.
pub open spec fn fits(old: IndexView, cs: Seq<Change>, t: DirsView) -> bool {
    &&& live_cost(t, t.len() as int) + names_cost(plan(old, cs, t)) <= u32::MAX
    &&& live_dirs(t, t.len() as int).len() < NO_DIR
    &&& plan(old, cs, t).len() < u32::MAX
}

/// An index with nothing in it.
pub open spec fn empty_view() -> IndexView {
    IndexView {
        names: Seq::empty(),
        dir_of: Seq::empty(),
        kinds: Seq::empty(),
        frns: Seq::empty(),
        dirs: Seq::empty(),
        dir_frns: Seq::empty(),
        sizes: Seq::empty(),
        mtimes: Seq::empty(),
    }
}

/// The index a builder holds once `t`'s live directories and the files `p`
/// are added (no sizes or times yet).
pub open spec fn built_view(t: DirsView, p: Seq<Planned>) -> IndexView {
    IndexView {
        names: p.map_values(|e: Planned| e.name),
        dir_of: p.map_values(|e: Planned| e.dir),
        kinds: p.map_values(|e: Planned| e.kind),
        frns: p.map_values(|e: Planned| e.frn),
        dirs: live_dirs(t, t.len() as int),
        dir_frns: live_dir_frns(t, t.len() as int),
        sizes: Seq::empty(),
        mtimes: Seq::empty(),
    }
}

/// The rebuilt index: `t`'s live directories and the files `p`, with their
/// sizes and times.
pub open spec fn planned_view(t: DirsView, p: Seq<Planned>) -> IndexView {
    IndexView {
        sizes: p.map_values(|e: Planned| e.size),
        mtimes: p.map_values(|e: Planned| e.mtime),
        ..built_view(t, p)
    }
}

proof fn lemma_built_push(t: DirsView, p: Seq<Planned>, e: Planned)
    ensures
        built_view(t, p.push(e)) == (IndexView {
            names: built_view(t, p).names.push(e.name),
            dir_of: built_view(t, p).dir_of.push(e.dir),
            kinds: built_view(t, p).kinds.push(e.kind),
            frns: built_view(t, p).frns.push(e.frn),
            ..built_view(t, p)
        }),
{
    assert(p.push(e).map_values(|e: Planned| e.name) =~= p.map_values(|e: Planned| e.name).push(e.name));
    assert(p.push(e).map_values(|e: Planned| e.dir) =~= p.map_values(|e: Planned| e.dir).push(e.dir));
    assert(p.push(e).map_values(|e: Planned| e.kind) =~= p.map_values(|e: Planned| e.kind).push(e.kind));
    assert(p.push(e).map_values(|e: Planned| e.frn) =~= p.map_values(|e: Planned| e.frn).push(e.frn));
}

/// What [`rebuild_with`] produces from `old` and the records `cs`, where `c`
/// is the table once the batch's new directories are in: renames and
/// deletions applied to it in record order, every surviving old entry in its
/// old order, then every file the batch placed, in record order.
pub open spec fn rebuilt(old: IndexView, cs: Seq<Change>, c: DirsView, ix: IndexView, st: UpdateStats) -> bool {
    let t = applied(c, cs);
    let n = cs.len() as int;
    &&& fits(old, cs, t) ==> ix == planned_view(t, plan(old, cs, t))
    &&& st.files_removed == count_dropped(old, cs, t, old.len() as int)
    &&& st.files_added == count_new(old, cs, t, n)
    &&& st.files_moved == count_moved(old, cs, t, n)
    &&& st.dirs_renamed == renames_done(c, cs, n)
    &&& st.dirs_removed == dead_count(t.paths) - dead_count(renamed(c, cs, n).paths)
    &&& st.unresolved >= count_unplaced(cs, t, n)
    &&& st.dirs_added + st.unresolved - count_unplaced(cs, t, n) <= count_dir_records(cs, n)
}

/// The characters of `a` followed by `\` and `name`.
fn join_chars(a: &Vec<char>, name: &str) -> (r: Vec<char>)
    ensures
        r@ == a@ + seq!['\\'] + name@,
{
    let mut out = crate::parse::sub_vec(a, 0, a.len());
    assert(out@ =~= a@);
    out.push('\\');
    let tail = str_chars(name);
    let mut k: usize = 0;
    while k < tail.len()
        invariant
            k <= tail@.len(),
            out@ == a@ + seq!['\\'] + tail@.subrange(0, k as int),
        decreases tail@.len() - k,
    {
        out.push(tail[k]);
        assert(tail@.subrange(0, k + 1) =~= tail@.subrange(0, k as int).push(tail@[k as int]));
        k += 1;
    }
    assert(tail@.subrange(0, tail@.len() as int) =~= tail@);
    out
}

fn chars_equal(a: &Vec<char>, b: &Vec<char>) -> (r: bool)
    ensures
        r == (a@ == b@),
{
    if a.len() != b.len() {
        return false;
    }
    let mut k: usize = 0;
    while k < a.len()
        invariant
            a@.len() == b@.len(),
            k <= a@.len(),
            forall|q: int| 0 <= q < k ==> a@[q] == b@[q],
        decreases a@.len() - k,
    {
        if a[k] != b[k] {
            return false;
        }
        k += 1;
    }
    assert(a@ =~= b@);
    true
}

/// Whether `a[..n]` and `b` are equal once ASCII case is ignored.
fn head_eq_ignore_case(a: &Vec<char>, n: usize, b: &Vec<char>) -> (r: bool)
    requires
        n <= a@.len(),
    ensures
        r == chars_eq_ignore_case(a@.subrange(0, n as int), b@),
{
    let ghost x = a@.subrange(0, n as int);
    if n != b.len() {
        assert(lower_chars(x).len() != lower_chars(b@).len());
        return false;
    }
    let mut k: usize = 0;
    while k < n
        invariant
            n == b@.len(),
            n <= a@.len(),
            x == a@.subrange(0, n as int),
            k <= n,
            forall|q: int| 0 <= q < k ==> lower_chars(x)[q] == lower_chars(b@)[q],
        decreases n - k,
    {
        if to_lower_char(a[k]) != to_lower_char(b[k]) {
            assert(lower_chars(x)[k as int] != lower_chars(b@)[k as int]);
            return false;
        }
        k += 1;
    }
    assert(lower_chars(x) =~= lower_chars(b@));
    true
}

fn is_under(path: &Vec<char>, prefix: &Vec<char>) -> (r: bool)
    ensures
        r == under(path@, prefix@),
{
    path.len() > prefix.len() && path[prefix.len()] == '\\' && head_eq_ignore_case(path, prefix.len(), prefix)
}

/// Exec form of [`moved_path`].
fn move_path(p: &Vec<char>, from: &Vec<char>, to: &Vec<char>) -> (r: Vec<char>)
    ensures
        r@ == moved_path(p@, from@, to@),
{
    if head_eq_ignore_case(p, p.len(), from) {
        assert(p@.subrange(0, p@.len() as int) =~= p@);
        crate::parse::sub_vec(to, 0, to.len())
    } else {
        assert(p@.subrange(0, p@.len() as int) =~= p@);
        if is_under(p, from) {
            let mut out = crate::parse::sub_vec(to, 0, to.len());
            let tail = crate::parse::sub_vec(p, from.len(), p.len());
            let mut k: usize = 0;
            while k < tail.len()
                invariant
                    k <= tail@.len(),
                    out@ == to@.subrange(0, to@.len() as int) + tail@.subrange(0, k as int),
                decreases tail@.len() - k,
            {
                out.push(tail[k]);
                assert(tail@.subrange(0, k + 1) =~= tail@.subrange(0, k as int).push(tail@[k as int]));
                k += 1;
            }
            assert(to@.subrange(0, to@.len() as int) =~= to@);
            assert(tail@.subrange(0, tail@.len() as int) =~= tail@);
            out
        } else {
            crate::parse::sub_vec(p, 0, p.len())
        }
    }
}

impl DirTable {
    spec fn view(&self) -> DirsView {
        DirsView { paths: self.paths@.map_values(|p: Option<Vec<char>>| opt_chars(p)), frns: self.frns@, vols: self.vols@ }
    }

    spec fn wf(&self) -> bool {
        &&& self.view().wf()
        &&& self.by_frn@ == self.view().keys()
    }

    fn new() -> (t: Self)
        ensures
            t.wf(),
            t.view().len() == 0,
    {
        let t = DirTable { paths: Vec::new(), frns: Vec::new(), vols: Vec::new(), by_frn: HashMap::new() };
        assert(t.view().paths.len() == 0);
        assert(t.by_frn@ =~= t.view().keys());
        t
    }

    fn push(&mut self, vol: u8, frn: u64, path: Vec<char>) -> (id: u32)
        requires
            old(self).wf(),
            old(self).view().len() + 1 < u32::MAX,
        ensures
            final(self).wf(),
            id == old(self).view().len(),
            final(self).view() == (DirsView {
                paths: old(self).view().paths.push(Some(path@)),
                frns: old(self).view().frns.push(frn),
                vols: old(self).view().vols.push(vol),
            }),
    {
        let ghost v0 = self.view();
        let id = self.paths.len() as u32;
        self.paths.push(Some(path));
        self.frns.push(frn);
        self.vols.push(vol);
        let k = pack_key(vol, lookup_frn(frn));
        self.by_frn.insert(k, id);
        let ghost v1 = self.view();
        assert(v1.paths =~= v0.paths.push(Some(path@)));
        proof {
            let n = v0.len() as int;
            assert(v1.vols.subrange(0, n) =~= v0.vols.subrange(0, n));
            assert(v1.frns.subrange(0, n) =~= v0.frns.subrange(0, n));
            lemma_dir_keys_prefix(v1.vols, v1.frns, v0.vols, v0.frns, n);
        }
        id
    }

    /// The directory filed under `(vol, frn)`.
    fn resolve(&self, vol: u8, frn: u64) -> (r: Option<u32>)
        requires
            self.wf(),
        ensures
            match self.view().resolve(vol, frn) {
                Some(id) => r == Some(id as u32) && 0 <= id < self.view().len(),
                None => r is None,
            },
    {
        proof {
            lemma_dir_keys(self.view().vols, self.view().frns, self.view().len() as int);
        }
        match self.by_frn.get(&pack_key(vol, lookup_frn(frn))) {
            Some(id) => Some(*id),
            None => None,
        }
    }

    fn from_index(old: &Index) -> (t: Self)
        ensures
            t.wf(),
            t.view() == initial_dirs(old@),
    {
        let _ = old.len();
        let n = old.dir_count();
        let mut t = DirTable::new();
        let mut i: usize = 0;
        while i < n
            invariant
                n == old@.dirs.len(),
                old@.consistent(),
                i <= n,
                t.wf(),
                t.view().paths =~= initial_dirs(old@).paths.subrange(0, i as int),
                t.view().frns =~= initial_dirs(old@).frns.subrange(0, i as int),
                t.view().vols =~= initial_dirs(old@).vols.subrange(0, i as int),
            decreases n - i,
        {
            let vol = old.volume_of_dir(i);
            let frn = old.dir_frn(i);
            let path = str_chars(old.dir_path(i));
            t.push(vol, frn, path);
            i += 1;
        }
        assert(t.view().paths =~= initial_dirs(old@).paths);
        assert(t.view().frns =~= initial_dirs(old@).frns);
        assert(t.view().vols =~= initial_dirs(old@).vols);
        t
    }

    /// Move a directory and everything beneath it to a new path.
    fn rewrite_prefix(&mut self, from: &Vec<char>, to: &Vec<char>)
        requires
            old(self).wf(),
        ensures
            final(self).wf(),
            final(self).view() == moved(old(self).view(), from@, to@),
    {
        let ghost v0 = self.view();
        let ghost target = moved(v0, from@, to@);
        let n = self.paths.len();
        let mut i: usize = 0;
        while i < n
            invariant
                n == self.paths@.len(),
                n == v0.paths.len(),
                i <= n,
                v0.wf(),
                self.frns@ == v0.frns,
                self.vols@ == v0.vols,
                self.by_frn@ == v0.keys(),
                target == moved(v0, from@, to@),
                forall|x: int| 0 <= x < i ==> #[trigger] opt_chars(self.paths@[x]) == target.paths[x],
                forall|x: int| i <= x < n ==> #[trigger] opt_chars(self.paths@[x]) == v0.paths[x],
            decreases n - i,
        {
            let ghost cur = self.paths@[i as int];
            assert(opt_chars(cur) == v0.paths[i as int]);
            let np = match &self.paths[i] {
                Some(p) => {
                    assert(cur == Some(*p));
                    Some(move_path(p, from, to))
                },
                None => None,
            };
            assert(target.paths[i as int] == match v0.paths[i as int] {
                Some(p) => Some(moved_path(p, from@, to@)),
                None => None,
            });
            assert(opt_chars(np) == target.paths[i as int]);
            self.paths[i] = np;
            assert(opt_chars(self.paths@[i as int]) == target.paths[i as int]);
            i += 1;
        }
        assert(self.view().paths =~= target.paths);
    }

    /// Create a pending directory, and its pending parents, on demand.
    fn materialise(
        &mut self,
        vol: u8,
        frn: u64,
        pending: &HashMap<u128, usize>,
        changes: &[Change],
        depth: usize,
    ) -> (r: Option<u32>)
        requires
            old(self).wf(),
            depth <= MAX_DEPTH,
            pending_ok(pending@, changes@),
        ensures
            final(self).wf(),
            grows_from(old(self).view(), final(self).view(), changes@),
            r matches Some(id) ==> final(self).view().resolve(vol, frn) == Some(id as int),
            final(self).view() == made(old(self).view(), pending@, changes@, vol, frn, depth as nat).0,
            match r {
                Some(id) => made(old(self).view(), pending@, changes@, vol, frn, depth as nat).1 == Some(id as int),
                None => made(old(self).view(), pending@, changes@, vol, frn, depth as nat).1 is None,
            },
        decreases MAX_DEPTH - depth,
    {
        let ghost v0 = self.view();
        proof {
            assert(v0.paths.subrange(0, v0.len() as int) =~= v0.paths);
            assert(v0.frns.subrange(0, v0.len() as int) =~= v0.frns);
            assert(v0.vols.subrange(0, v0.len() as int) =~= v0.vols);
        }
        if let Some(id) = self.resolve(vol, frn) {
            return Some(id);
        }
        if depth >= MAX_DEPTH {
            return None;
        }
        let j = match pending.get(&pack_key(vol, frn)) {
            Some(j) => *j,
            None => return None,
        };
        proof {
            lemma_pack_injective(changes@[j as int].vol(), changes@[j as int].frn(), vol, frn);
        }
        match &changes[j] {
            Change::Present { parent_frn, name, .. } => {
                let pf = *parent_frn;
                let parent_id = match self.resolve(vol, pf) {
                    Some(id) => id,
                    None => match self.materialise(vol, pf, pending, changes, depth + 1) {
                        Some(id) => id,
                        None => return None,
                    },
                };
                let ghost v1 = self.view();
                proof {
                    lemma_dir_keys(v1.vols, v1.frns, v1.len() as int);
                }
                let parent = match &self.paths[parent_id as usize] {
                    Some(p) => join_chars(p, name.as_str()),
                    None => return None,
                };
                if self.paths.len() >= 0xFFFF_FFFD {
                    return None;
                }
                let id = self.push(vol, frn, parent);
                let ghost v2 = self.view();
                proof {
                    let n1 = v1.len() as int;
                    assert(v2.paths.subrange(0, n1) =~= v1.paths);
                    assert(v2.frns.subrange(0, n1) =~= v1.frns);
                    assert(v2.vols.subrange(0, n1) =~= v1.vols);
                    assert(is_dir_record(changes@, j as int));
                    assert(created_by(changes@, v2.vols[n1], v2.frns[n1]));
                    assert(grows_from(v1, v2, changes@));
                    lemma_grows_trans(v0, v1, v2, changes@);
                }
                Some(id)
            },
            Change::Gone { .. } => None,
        }
    }

    /// Create the directories the batch asks for and the table lacks, parents
    /// first whatever order the records came in.
    fn create_dirs(&mut self, changes: &[Change], latest: &HashMap<u128, usize>, stats: &mut UpdateStats)
        requires
            old(self).wf(),
            latest@ == latest_map(changes@, changes@.len() as int),
            *old(stats) == no_stats(),
        ensures
            final(self).wf(),
            creation_ok(old(self).view(), changes@, final(self).view()),
            final(stats).dirs_added + final(stats).unresolved <= count_dir_records(changes@, changes@.len() as int),
            *final(stats) == (UpdateStats { dirs_added: final(stats).dirs_added, unresolved: final(stats).unresolved, ..no_stats() }),
            final(self).view() == created(old(self).view(), changes@).0,
            final(stats).dirs_added == created(old(self).view(), changes@).1,
            final(stats).unresolved == created(old(self).view(), changes@).2,
    {
        let ghost t0 = self.view();
        let ghost cs = changes@;
        let _count = changes.len();
        proof {
            lemma_latest_map(cs, cs.len() as int);
            lemma_record_counts(cs, cs.len() as int);
            assert(t0.paths.subrange(0, t0.len() as int) =~= t0.paths);
            assert(t0.frns.subrange(0, t0.len() as int) =~= t0.frns);
            assert(t0.vols.subrange(0, t0.len() as int) =~= t0.vols);
        }
        let mut pending: HashMap<u128, usize> = HashMap::new();
        let mut order: Vec<(u8, u64)> = Vec::new();
        let mut j: usize = 0;
        while j < changes.len()
            invariant
                j <= cs.len(),
                cs == changes@,
                latest@ == latest_map(cs, cs.len() as int),
                forall|k: u128| #[trigger] latest_map(cs, cs.len() as int).contains_key(k) ==> {
                    let x = latest_map(cs, cs.len() as int)[k] as int;
                    &&& 0 <= x < cs.len()
                    &&& pack(cs[x].vol(), cs[x].frn()) == k
                    &&& cs[x].frn() != NO_FRN
                },
                pending_ok(pending@, cs),
                order@.len() <= count_dir_records(cs, j as int),
                self.view() == t0,
                self.wf(),
                pending@ == waiting_map(t0, cs, j as int),
                order@ == waiting_order(t0, cs, j as int),
            decreases cs.len() - j,
        {
            let ghost wanted = is_dir_record(cs, j as int) && t0.resolve(cs[j as int].vol(), cs[j as int].frn()) is None;
            if let Change::Present { volume, frn, is_dir, .. } = &changes[j] {
                if *is_dir {
                    let k = pack_key(*volume, *frn);
                    let last = match latest.get(&k) {
                        Some(x) => *x == j,
                        None => false,
                    };
                    proof {
                        if is_latest(cs, j as int) {
                            assert(latest_map(cs, cs.len() as int).contains_key(k));
                        }
                    }
                    if last && self.resolve(*volume, *frn).is_none() {
                        assert(is_dir_record(cs, j as int));
                        pending.insert(k, j);
                        order.push((*volume, *frn));
                    } else {
                        assert(!wanted);
                    }
                } else {
                    assert(!wanted);
                }
            } else {
                assert(!wanted);
            }
            j += 1;
        }
        let ghost pend = pending@;
        let ghost ord = order@;
        assert(pend == waiting_map(t0, cs, cs.len() as int));
        assert(ord == waiting_order(t0, cs, cs.len() as int));
        let mut q: usize = 0;
        while q < order.len()
            invariant
                q <= order@.len(),
                order@.len() <= count_dir_records(cs, cs.len() as int),
                cs == changes@,
                pending_ok(pending@, cs),
                self.wf(),
                grows_from(t0, self.view(), cs),
                order@.len() == 0 ==> self.view() == t0,
                stats.dirs_added + stats.unresolved == q,
                *stats == (UpdateStats { dirs_added: stats.dirs_added, unresolved: stats.unresolved, ..no_stats() }),
                pending@ == pend,
                order@ == ord,
                self.view() == make_all(t0, pend, cs, ord, q as int).0,
                stats.dirs_added == make_all(t0, pend, cs, ord, q as int).1,
                stats.unresolved == make_all(t0, pend, cs, ord, q as int).2,
            decreases order@.len() - q,
        {
            let (v, f) = order[q];
            let ghost before = self.view();
            let made = self.materialise(v, f, &pending, changes, 0);
            proof {
                lemma_grows_trans(t0, before, self.view(), cs);
            }
            match made {
                Some(_) => stats.dirs_added += 1,
                None => stats.unresolved += 1,
            }
            q += 1;
        }
    }

    /// Apply the rename records in order.
    fn apply_renames(&mut self, changes: &[Change], latest: &HashMap<u128, usize>, stats: &mut UpdateStats)
        requires
            old(self).wf(),
            latest@ == latest_map(changes@, changes@.len() as int),
            old(stats).dirs_renamed == 0,
        ensures
            final(self).wf(),
            final(self).view() == renamed(old(self).view(), changes@, changes@.len() as int),
            final(self).view().len() == old(self).view().len(),
            renames_done(old(self).view(), changes@, changes@.len() as int) <= changes@.len(),
            *final(stats) == (UpdateStats {
                dirs_renamed: renames_done(old(self).view(), changes@, changes@.len() as int) as usize,
                ..*old(stats)
            }),
    {
        let ghost t0 = self.view();
        let ghost cs = changes@;
        let ghost s0 = *stats;
        let _count = changes.len();
        proof {
            lemma_latest_map(cs, cs.len() as int);
        }
        let mut j: usize = 0;
        while j < changes.len()
            invariant
                j <= cs.len(),
                cs == changes@,
                latest@ == latest_map(cs, cs.len() as int),
                forall|k: u128| #[trigger] latest_map(cs, cs.len() as int).contains_key(k) ==> {
                    let x = latest_map(cs, cs.len() as int)[k] as int;
                    &&& 0 <= x < cs.len()
                    &&& pack(cs[x].vol(), cs[x].frn()) == k
                    &&& cs[x].frn() != NO_FRN
                },
                self.wf(),
                self.view() == renamed(t0, cs, j as int),
                self.view().len() == t0.len(),
                renames_done(t0, cs, j as int) <= j,
                *stats == (UpdateStats { dirs_renamed: renames_done(t0, cs, j as int) as usize, ..s0 }),
            decreases cs.len() - j,
        {
            let ghost tj = self.view();
            if let Change::Present { volume, frn, parent_frn, name, is_dir } = &changes[j] {
                let k = pack_key(*volume, *frn);
                let last = match latest.get(&k) {
                    Some(x) => *x == j,
                    None => false,
                };
                if last && *is_dir {
                    if let Some(id) = self.resolve(*volume, *frn) {
                        if let Some(pid) = self.resolve(*volume, *parent_frn) {
                            let fresh = match &self.paths[pid as usize] {
                                Some(p) => Some(join_chars(p, name.as_str())),
                                None => None,
                            };
                            let cur = match &self.paths[id as usize] {
                                Some(c) => Some(crate::parse::sub_vec(c, 0, c.len())),
                                None => None,
                            };
                            if let (Some(fresh), Some(cur)) = (fresh, cur) {
                                assert(cur@ =~= tj.paths[id as int]->0);
                                if !chars_equal(&fresh, &cur) {
                                    self.rewrite_prefix(&cur, &fresh);
                                    stats.dirs_renamed += 1;
                                }
                            }
                        }
                    }
                }
            }
            j += 1;
        }
    }

    /// Apply the deletion records in order; a deleted directory takes every
    /// directory of its volume underneath it along.
    fn apply_deletions(&mut self, changes: &[Change], latest: &HashMap<u128, usize>, stats: &mut UpdateStats)
        requires
            old(self).wf(),
            latest@ == latest_map(changes@, changes@.len() as int),
            old(stats).dirs_removed == 0,
        ensures
            final(self).wf(),
            final(self).view() == deleted(old(self).view(), changes@, changes@.len() as int),
            final(self).view().len() == old(self).view().len(),
            dead_count(old(self).view().paths) <= dead_count(final(self).view().paths),
            dead_count(final(self).view().paths) <= final(self).view().len(),
            *final(stats) == (UpdateStats {
                dirs_removed: (dead_count(final(self).view().paths) - dead_count(old(self).view().paths)) as usize,
                ..*old(stats)
            }),
    {
        let ghost t0 = self.view();
        let ghost cs = changes@;
        let ghost s0 = *stats;
        let _count = changes.len();
        proof {
            lemma_latest_map(cs, cs.len() as int);
        }
        let n = self.paths.len();
        proof {
            lemma_dead_bound(t0.paths);
        }
        let mut j: usize = 0;
        while j < changes.len()
            invariant
                j <= cs.len(),
                cs == changes@,
                n == t0.len(),
                latest@ == latest_map(cs, cs.len() as int),
                forall|k: u128| #[trigger] latest_map(cs, cs.len() as int).contains_key(k) ==> {
                    let x = latest_map(cs, cs.len() as int)[k] as int;
                    &&& 0 <= x < cs.len()
                    &&& pack(cs[x].vol(), cs[x].frn()) == k
                    &&& cs[x].frn() != NO_FRN
                },
                self.wf(),
                self.view() == deleted(t0, cs, j as int),
                self.view().len() == n,
                self.view().frns == t0.frns,
                self.view().vols == t0.vols,
                dead_count(t0.paths) <= dead_count(self.view().paths),
                dead_count(self.view().paths) <= n,
                *stats == (UpdateStats {
                    dirs_removed: (dead_count(self.view().paths) - dead_count(t0.paths)) as usize,
                    ..s0
                }),
            decreases cs.len() - j,
        {
            let ghost tj = self.view();
            if let Change::Gone { volume, frn } = &changes[j] {
                let vol = *volume;
                let k = pack_key(vol, *frn);
                let last = match latest.get(&k) {
                    Some(x) => *x == j,
                    None => false,
                };
                if last {
                    if let Some(id) = self.resolve(vol, *frn) {
                        let gone = match &self.paths[id as usize] {
                            Some(p) => Some(crate::parse::sub_vec(p, 0, p.len())),
                            None => None,
                        };
                        if let Some(path) = gone {
                            assert(path@ =~= tj.paths[id as int]->0);
                            let ghost target = delete_step(tj, cs, j as int);
                            proof {
                                lemma_kill(tj.paths, id as int);
                                lemma_dead_bound(tj.paths.update(id as int, None));
                            }
                            self.paths[id as usize] = None;
                            assert(self.view().paths =~= tj.paths.update(id as int, None));
                            stats.dirs_removed += 1;
                            let mut i: usize = 0;
                            while i < n
                                invariant
                                    n == tj.len(),
                                    n == self.paths@.len(),
                                    i <= n,
                                    tj.wf(),
                                    id < n,
                                    self.frns@ == tj.frns,
                                    self.vols@ == tj.vols,
                                    self.by_frn@ == tj.keys(),
                                    tj.frns == t0.frns,
                                    tj.vols == t0.vols,
                                    target == delete_step(tj, cs, j as int),
                                    tj.paths[id as int] == Some(path@),
                                    target.paths.len() == n,
                                    forall|x: int| 0 <= x < n ==> #[trigger] target.paths[x] == (if x == id || swept(tj, x, vol, path@) {
                                        None
                                    } else {
                                        tj.paths[x]
                                    }),
                                    forall|x: int| 0 <= x < i ==> #[trigger] opt_chars(self.paths@[x]) == target.paths[x],
                                    forall|x: int| i <= x < n ==> #[trigger] opt_chars(self.paths@[x]) == tj.paths.update(id as int, None)[x],
                                    dead_count(t0.paths) <= dead_count(self.view().paths),
                                    dead_count(self.view().paths) <= n,
                                    *stats == (UpdateStats {
                                        dirs_removed: (dead_count(self.view().paths) - dead_count(t0.paths)) as usize,
                                        ..s0
                                    }),
                                decreases n - i,
                            {
                                let ghost before = self.view().paths;
                                let hit = self.vols[i] == vol && match &self.paths[i] {
                                    Some(p) => is_under(p, &path),
                                    None => false,
                                };
                                if hit {
                                    proof {
                                        lemma_kill(before, i as int);
                                        lemma_dead_bound(before.update(i as int, None));
                                    }
                                    self.paths[i] = None;
                                    assert(self.view().paths =~= before.update(i as int, None));
                                    stats.dirs_removed += 1;
                                }
                                i += 1;
                            }
                            assert(self.view().paths =~= target.paths);
                        }
                    }
                }
            }
            j += 1;
        }
    }

    /// How many directories are still alive.
    fn live_count(&self) -> (r: usize)
        requires
            self.wf(),
        ensures
            r == live_dirs(self.view(), self.view().len() as int).len(),
    {
        let n = self.paths.len();
        let mut c: usize = 0;
        let mut i: usize = 0;
        while i < n
            invariant
                n == self.view().len(),
                self.view().wf(),
                i <= n,
                c == live_dirs(self.view(), i as int).len(),
                c <= i,
            decreases n - i,
        {
            if self.paths[i].is_some() {
                c += 1;
            }
            i += 1;
        }
        c
    }

    /// Add the surviving directories to `b`, returning old id to new id.
    fn install(&self, b: &mut IndexBuilder, fit: Ghost<bool>) -> (remap: Vec<Option<u32>>)
        requires
            self.wf(),
            old(b).wf(),
            old(b).arena_len() == 0,
            old(b).view() == empty_view(),
            fit@ ==> live_cost(self.view(), self.view().len() as int) <= u32::MAX
                && live_dirs(self.view(), self.view().len() as int).len() < NO_DIR,
        ensures
            final(b).wf(),
            remap@.len() == self.view().len(),
            forall|i: int| 0 <= i < self.view().len() ==> (#[trigger] remap@[i] is Some <==> self.view().paths[i] is Some),
            fit@ ==> final(b).view() == built_view(self.view(), Seq::empty()) && final(b).arena_len() == live_cost(
                self.view(),
                self.view().len() as int,
            ) && forall|i: int|
                0 <= i < self.view().len() && #[trigger] self.view().paths[i] is Some ==> remap@[i] == Some(
                    live_dirs(self.view(), i).len() as u32,
                ),
    {
        let ghost t = self.view();
        let n = self.paths.len();
        let mut remap: Vec<Option<u32>> = Vec::new();
        let mut i: usize = 0;
        while i < n
            invariant
                t == self.view(),
                self.wf(),
                n == t.len(),
                i <= n,
                b.wf(),
                remap@.len() == i,
                forall|x: int| 0 <= x < i ==> (#[trigger] remap@[x] is Some <==> t.paths[x] is Some),
                fit@ ==> live_cost(t, n as int) <= u32::MAX && live_dirs(t, n as int).len() < NO_DIR,
                fit@ ==> b.view() == (IndexView {
                    dirs: live_dirs(t, i as int),
                    dir_frns: live_dir_frns(t, i as int),
                    ..empty_view()
                }) && b.arena_len() == live_cost(t, i as int) && forall|x: int|
                    0 <= x < i && #[trigger] t.paths[x] is Some ==> remap@[x] == Some(live_dirs(t, x).len() as u32),
            decreases n - i,
        {
            proof {
                lemma_live_mono(t, i + 1, n as int);
                lemma_live_mono(t, i as int, i as int);
            }
            let ghost cur = self.paths@[i as int];
            assert(opt_chars(cur) == t.paths[i as int]);
            match &self.paths[i] {
                Some(p) => {
                    assert(cur == Some(*p));
                    let s = string_from_chars(p.as_slice());
                    let id = b.add_dir(s.as_str(), self.frns[i]);
                    remap.push(Some(id));
                },
                None => {
                    remap.push(None);
                },
            }
            proof {
                if fit@ {
                    assert(b.view().dirs =~= live_dirs(t, i + 1));
                    assert(b.view().dir_frns =~= live_dir_frns(t, i + 1));
                }
            }
            i += 1;
        }
        proof {
            let e: Seq<Planned> = Seq::empty();
            assert(e.map_values(|e: Planned| e.name) =~= Seq::<Seq<char>>::empty());
            assert(e.map_values(|e: Planned| e.dir) =~= Seq::<u32>::empty());
            assert(e.map_values(|e: Planned| e.kind) =~= Seq::<MediaKind>::empty());
            assert(e.map_values(|e: Planned| e.frn) =~= Seq::<u64>::empty());
        }
        remap
    }
}


/// Build a new index from `old` with `changes` applied.
///
/// Entry positions are not preserved (entries in the middle disappear), so
/// everything keyed by position must be rebuilt, as after a rescan. A file
/// that moved keeps the size and time already measured for it; a new one is
/// left at zero for the metadata pass, since a journal record carries no size.
pub fn rebuild_with(old: &Index, changes: &[Change]) -> (r: (Index, UpdateStats))
    ensures
        ({
            let made = created(initial_dirs(old@), changes@);
            &&& creation_ok(initial_dirs(old@), changes@, made.0)
            &&& rebuilt(old@, changes@, made.0, r.0@, r.1)
            &&& r.1.dirs_added == made.1
            &&& r.1.unresolved == made.2 + count_unplaced(
                changes@,
                applied(made.0, changes@),
                changes@.len() as int,
            )
        }),
{
    let ghost ov = old@;
    let ghost cs = changes@;
    let n_old = old.len();
    let n_ch = changes.len();
    let mut stats = UpdateStats::default();
    let latest = latest_records(changes);
    proof {
        lemma_latest_map(cs, cs.len() as int);
    }
    let mut dirs = DirTable::from_index(old);
    let ghost t_init = dirs.view();
    dirs.create_dirs(changes, &latest, &mut stats);
    let ghost c = dirs.view();
    assert(creation_ok(initial_dirs(ov), cs, c));
    let ghost s_created = stats;
    dirs.apply_renames(changes, &latest, &mut stats);
    dirs.apply_deletions(changes, &latest, &mut stats);
    let ghost t = dirs.view();
    assert(t == applied(c, cs));

    let mut old_pos: HashMap<u128, u32> = HashMap::with_capacity(n_old);
    let mut i: usize = 0;
    while i < n_old
        invariant
            n_old == ov.len(),
            ov == old@,
            ov.consistent(),
            i <= n_old,
            old_pos@ == old_positions(ov, i as int),
        decreases n_old - i,
    {
        let frn = old.frn(i);
        if frn != NO_FRN {
            old_pos.insert(pack_key(old.volume_of(i), frn), i as u32);
        }
        i += 1;
    }

    let mut b = IndexBuilder::new();
    let live = dirs.live_count();
    let hint = match n_old.checked_add(latest.len()) {
        Some(x) => x,
        None => n_old,
    };
    b.reserve(live, hint);
    let ghost fit = fits(ov, cs, t);
    proof {
        if fit {
            lemma_names_cost_concat(carried(ov, cs, t, n_old as int), added(ov, cs, t, n_ch as int));
        }
    }
    let remap = dirs.install(&mut b, Ghost(fit));
    let ghost nt = t.len() as int;
    let ghost all_carried = carried(ov, cs, t, n_old as int);

    // Carry over everything the batch did not touch.
    let dir_ids = old.dir_ids();
    let mut sizes: Vec<u64> = Vec::new();
    let mut mtimes: Vec<i64> = Vec::new();
    let mut i: usize = 0;
    while i < n_old
        invariant
            n_old == ov.len(),
            ov == old@,
            ov.consistent(),
            cs == changes@,
            n_ch == cs.len(),
            dir_ids@ == ov.dir_of,
            i <= n_old,
            t == dirs.view(),
            dirs.wf(),
            nt == t.len(),
            remap@.len() == t.len(),
            forall|x: int| 0 <= x < t.len() ==> (#[trigger] remap@[x] is Some <==> t.paths[x] is Some),
            fit ==> forall|x: int|
                0 <= x < t.len() && #[trigger] t.paths[x] is Some ==> remap@[x] == Some(live_dirs(t, x).len() as u32),
            latest@ == latest_map(cs, cs.len() as int),
            forall|k: u128| #[trigger] latest_map(cs, cs.len() as int).contains_key(k) ==> {
                let x = latest_map(cs, cs.len() as int)[k] as int;
                &&& 0 <= x < cs.len()
                &&& pack(cs[x].vol(), cs[x].frn()) == k
                &&& cs[x].frn() != NO_FRN
            },
            t.wf(),
            forall|x: int| 0 <= x < ov.len() ==> #[trigger] ov.dir_of[x] < t.len(),
            b.wf(),
            all_carried == carried(ov, cs, t, n_old as int),
            fit == fits(ov, cs, t),
            fit ==> live_cost(t, nt) + names_cost(all_carried) <= u32::MAX,
            fit ==> live_dirs(t, nt).len() < NO_DIR,
            fit ==> all_carried.len() < u32::MAX,
            fit ==> b.view() == built_view(t, carried(ov, cs, t, i as int)),
            fit ==> b.arena_len() == live_cost(t, nt) + names_cost(carried(ov, cs, t, i as int)),
            fit ==> sizes@ == carried(ov, cs, t, i as int).map_values(|e: Planned| e.size),
            fit ==> mtimes@ == carried(ov, cs, t, i as int).map_values(|e: Planned| e.mtime),
            stats.files_removed == count_dropped(ov, cs, t, i as int),
            count_dropped(ov, cs, t, i as int) <= i,
            stats.files_added == 0,
            stats.files_moved == 0,
            stats.unresolved == s_created.unresolved,
            stats.dirs_added == s_created.dirs_added,
            stats.dirs_renamed == renames_done(c, cs, n_ch as int),
            stats.dirs_removed == dead_count(t.paths) - dead_count(renamed(c, cs, n_ch as int).paths),
            s_created.dirs_added + s_created.unresolved <= count_dir_records(cs, n_ch as int),
        decreases n_old - i,
    {
        let ghost before = carried(ov, cs, t, i as int);
        proof {
            lemma_dropped_bound(ov, cs, t, i + 1);
            if fit {
                lemma_carried_mono(ov, cs, t, i + 1, n_old as int);
            }
        }
        let vol = old.volume_of(i);
        let frn = old.frn(i);
        let mut named = false;
        if frn != NO_FRN {
            match latest.get(&pack_key(vol, frn)) {
                Some(j) => {
                    if let Change::Gone { .. } = &changes[*j] {
                        stats.files_removed += 1;
                    }
                    named = true;
                },
                None => {},
            }
        }
        if !named {
            let d = dir_ids[i];
            match remap[d as usize] {
                None => {
                    stats.files_removed += 1;
                },
                Some(dir_id) => {
                    proof {
                        let e = Planned {
                            name: ov.names[i as int],
                            dir: live_dirs(t, ov.dir_of[i as int] as int).len() as u32,
                            kind: ov.kinds[i as int],
                            frn: ov.frns[i as int],
                            size: ov.size_of(i as int),
                            mtime: ov.mtime_of(i as int),
                        };
                        assert(carried(ov, cs, t, i + 1) == before.push(e));
                        assert(before.push(e).drop_last() =~= before);
                        lemma_built_push(t, before, e);
                        if fit {
                            lemma_live_mono(t, d as int + 1, nt);
                        }
                    }
                    b.add_file(old.name(i), old.kind(i), dir_id, frn);
                    sizes.push(old.size(i));
                    mtimes.push(old.mtime(i));
                    proof {
                        let after = carried(ov, cs, t, i + 1);
                        if fit {
                            assert(sizes@ =~= after.map_values(|e: Planned| e.size));
                            assert(mtimes@ =~= after.map_values(|e: Planned| e.mtime));
                        }
                    }
                },
            }
        }
        i += 1;
    }

    // Then everything the batch created or moved, in record order.
    let ghost base = carried(ov, cs, t, n_old as int);
    proof {
        lemma_record_counts(cs, n_ch as int);
        lemma_file_counts(ov, cs, t, n_ch as int);
        lemma_file_records_mono(cs, 0, n_ch as int);
    }
    let mut j: usize = 0;
    while j < n_ch
        invariant
            n_old == ov.len(),
            ov == old@,
            ov.consistent(),
            cs == changes@,
            n_ch == cs.len(),
            j <= n_ch,
            t == dirs.view(),
            dirs.wf(),
            nt == t.len(),
            remap@.len() == t.len(),
            forall|x: int| 0 <= x < t.len() ==> (#[trigger] remap@[x] is Some <==> t.paths[x] is Some),
            fit ==> forall|x: int|
                0 <= x < t.len() && #[trigger] t.paths[x] is Some ==> remap@[x] == Some(live_dirs(t, x).len() as u32),
            latest@ == latest_map(cs, cs.len() as int),
            forall|k: u128| #[trigger] latest_map(cs, cs.len() as int).contains_key(k) ==> {
                let x = latest_map(cs, cs.len() as int)[k] as int;
                &&& 0 <= x < cs.len()
                &&& pack(cs[x].vol(), cs[x].frn()) == k
                &&& cs[x].frn() != NO_FRN
            },
            old_pos@ == old_positions(ov, n_old as int),
            t.wf(),
            b.wf(),
            base == carried(ov, cs, t, n_old as int),
            fit == fits(ov, cs, t),
            fit ==> live_cost(t, nt) + names_cost(base) + names_cost(added(ov, cs, t, n_ch as int)) <= u32::MAX,
            fit ==> live_dirs(t, nt).len() < NO_DIR,
            fit ==> base.len() + added(ov, cs, t, n_ch as int).len() < u32::MAX,
            fit ==> b.view() == built_view(t, base + added(ov, cs, t, j as int)),
            fit ==> b.arena_len() == live_cost(t, nt) + names_cost(base) + names_cost(added(ov, cs, t, j as int)),
            fit ==> sizes@ == (base + added(ov, cs, t, j as int)).map_values(|e: Planned| e.size),
            fit ==> mtimes@ == (base + added(ov, cs, t, j as int)).map_values(|e: Planned| e.mtime),
            stats.files_removed == count_dropped(ov, cs, t, n_old as int),
            stats.files_added == count_new(ov, cs, t, j as int),
            stats.files_moved == count_moved(ov, cs, t, j as int),
            stats.unresolved == s_created.unresolved + count_unplaced(cs, t, j as int),
            stats.dirs_added == s_created.dirs_added,
            s_created.dirs_added + s_created.unresolved <= count_dir_records(cs, n_ch as int),
            count_dir_records(cs, n_ch as int) + count_file_records(cs, n_ch as int) <= n_ch,
            stats.dirs_renamed == renames_done(c, cs, n_ch as int),
            stats.dirs_removed == dead_count(t.paths) - dead_count(renamed(c, cs, n_ch as int).paths),
        decreases n_ch - j,
    {
        let ghost before = added(ov, cs, t, j as int);
        proof {
            lemma_file_counts(ov, cs, t, j + 1);
            lemma_file_records_mono(cs, j + 1, n_ch as int);
            if fit {
                lemma_added_mono(ov, cs, t, j + 1, n_ch as int);
            }
        }
        if let Change::Present { volume, frn, parent_frn, name, is_dir } = &changes[j] {
            let last = match latest.get(&pack_key(*volume, *frn)) {
                Some(x) => *x == j,
                None => false,
            };
            if last && !*is_dir {
                if let Some(kind) = classify_name(name.as_str()) {
                    let dir = match dirs.resolve(*volume, *parent_frn) {
                        Some(d) => remap[d as usize],
                        None => None,
                    };
                    match dir {
                        None => {
                            stats.unresolved += 1;
                        },
                        Some(dir_id) => {
                            let known = old_pos.get(&pack_key(*volume, *frn));
                            let (sz, mt) = match known {
                                Some(p) => (old.size(*p as usize), old.mtime(*p as usize)),
                                None => (0u64, 0i64),
                            };
                            if known.is_some() {
                                stats.files_moved += 1;
                            } else {
                                stats.files_added += 1;
                            }
                            proof {
                                let cj = cs[j as int];
                                let d = parent_dir(t, cj)->0;
                                let e = Planned {
                                    name: name@,
                                    dir: live_dirs(t, d).len() as u32,
                                    kind: kind,
                                    frn: *frn,
                                    size: sz,
                                    mtime: mt,
                                };
                                assert(added(ov, cs, t, j + 1) == before.push(e));
                                assert((base + before).push(e) =~= base + before.push(e));
                                assert(before.push(e).drop_last() =~= before);
                                assert((base + before).push(e).drop_last() =~= base + before);
                                lemma_names_cost_concat(base, before);
                                lemma_names_cost_concat(base, before.push(e));
                                lemma_built_push(t, base + before, e);
                                if fit {
                                    lemma_live_mono(t, d + 1, nt);
                                }
                            }
                            b.add_file(name.as_str(), kind, dir_id, *frn);
                            sizes.push(sz);
                            mtimes.push(mt);
                            proof {
                                let after = base + added(ov, cs, t, j + 1);
                                if fit {
                                    assert(sizes@ =~= after.map_values(|e: Planned| e.size));
                                    assert(mtimes@ =~= after.map_values(|e: Planned| e.mtime));
                                }
                            }
                        },
                    }
                }
            }
        }
        j += 1;
    }
    let mut ix = b.finish();
    ix.set_file_stats(sizes, mtimes);
    proof {
        assert(added(ov, cs, t, n_ch as int) == added(ov, cs, t, cs.len() as int));
        if fit {
            assert(ix@ == planned_view(t, plan(ov, cs, t)));
        }
        assert(rebuilt(ov, cs, c, ix@, stats));
    }
    let r = (ix, stats);
    assert(creation_ok(initial_dirs(old@), changes@, c) && rebuilt(old@, changes@, c, r.0@, r.1));
    r
}



proof fn lemma_initial_live(old: IndexView, k: int)
    requires
        0 <= k <= old.dirs.len(),
        old.dir_frns.len() == old.dirs.len(),
    ensures
        live_dirs(initial_dirs(old), k) == old.dirs.subrange(0, k),
        live_dir_frns(initial_dirs(old), k) == old.dir_frns.subrange(0, k),
        live_cost(initial_dirs(old), k) == seq_cost(old.dirs.subrange(0, k)),
    decreases k,
{
    if k > 0 {
        lemma_initial_live(old, k - 1);
        assert(old.dirs.subrange(0, k).drop_last() =~= old.dirs.subrange(0, k - 1));
        assert(old.dirs.subrange(0, k) =~= old.dirs.subrange(0, k - 1).push(old.dirs[k - 1]));
        assert(old.dir_frns.subrange(0, k) =~= old.dir_frns.subrange(0, k - 1).push(old.dir_frns[k - 1]));
    } else {
        assert(old.dirs.subrange(0, 0) =~= Seq::<Seq<char>>::empty());
        assert(old.dir_frns.subrange(0, 0) =~= Seq::<u64>::empty());
    }
}

proof fn lemma_carried_all(old: IndexView, k: int)
    requires
        old.consistent(),
        0 <= k <= old.len(),
    ensures
        carried(old, Seq::empty(), initial_dirs(old), k).len() == k,
        forall|i: int| 0 <= i < k ==> #[trigger] carried(old, Seq::empty(), initial_dirs(old), k)[i] == (Planned {
            name: old.names[i],
            dir: old.dir_of[i],
            kind: old.kinds[i],
            frn: old.frns[i],
            size: old.size_of(i),
            mtime: old.mtime_of(i),
        }),
        names_cost(carried(old, Seq::empty(), initial_dirs(old), k)) == seq_cost(old.names.subrange(0, k)),
    decreases k,
{
    let cs = Seq::<Change>::empty();
    let t0 = initial_dirs(old);
    if k > 0 {
        lemma_carried_all(old, k - 1);
        let i = k - 1;
        let d = old.dir_of[i] as int;
        lemma_initial_live(old, d);
        assert(!touched(cs, old.volume(i), old.frn_of(i)));
        assert(t0.paths[d] == Some(old.dirs[d]));
        assert(kept(old, cs, t0, i));
        let r = carried(old, cs, t0, k);
        assert(r.drop_last() =~= carried(old, cs, t0, k - 1));
        assert(old.names.subrange(0, k).drop_last() =~= old.names.subrange(0, k - 1));
    } else {
        assert(old.names.subrange(0, 0) =~= Seq::<Seq<char>>::empty());
    }
}

/// A batch with no records rebuilds the same library: the same directories,
/// the same entries in the same order, the sizes and times already measured,
/// and nothing counted. (An index whose sizes were never filled in comes back
/// with them filled in as zero.) Every index meets the arena bound:
/// [`Index::text_fits`] states it.
pub proof fn rebuild_without_changes_keeps_the_library(old: IndexView, c: DirsView, ix: IndexView, st: UpdateStats)
    requires
        old.consistent(),
        old.sizes.len() == old.len(),
        old.mtimes.len() == old.len(),
        text_total(old) <= u32::MAX,
        creation_ok(initial_dirs(old), Seq::empty(), c),
        rebuilt(old, Seq::empty(), c, ix, st),
    ensures
        ix == old,
        st == no_stats(),
{
    let cs = Seq::<Change>::empty();
    let t0 = initial_dirs(old);
    assert(c == t0);
    let t = applied(c, cs);
    assert(t == t0);
    let nd = old.dirs.len() as int;
    let n = old.len() as int;
    lemma_initial_live(old, nd);
    lemma_carried_all(old, n);
    assert(old.dirs.subrange(0, nd) =~= old.dirs);
    assert(old.dir_frns.subrange(0, nd) =~= old.dir_frns);
    assert(old.names.subrange(0, n) =~= old.names);
    let p = plan(old, cs, t0);
    assert(added(old, cs, t0, 0) =~= Seq::<Planned>::empty());
    assert(p =~= carried(old, cs, t0, n));
    assert(fits(old, cs, t0));
    let v = planned_view(t0, p);
    assert(v.names =~= old.names);
    assert(v.dir_of =~= old.dir_of);
    assert(v.kinds =~= old.kinds);
    assert(v.frns =~= old.frns);
    assert(v.sizes =~= old.sizes);
    assert(v.mtimes =~= old.mtimes);
    assert(ix == old);
    assert(count_dropped(old, cs, t0, n) == 0) by {
        lemma_no_drops(old, n);
    }
}

proof fn lemma_no_drops(old: IndexView, k: int)
    requires
        old.consistent(),
        0 <= k <= old.len(),
    ensures
        count_dropped(old, Seq::empty(), initial_dirs(old), k) == 0,
    decreases k,
{
    if k > 0 {
        lemma_no_drops(old, k - 1);
        let d = old.dir_of[k - 1] as int;
        assert(initial_dirs(old).paths[d] == Some(old.dirs[d]));
    }
}


proof fn lemma_added_prefix(old: IndexView, cs: Seq<Change>, t: DirsView, m: int, n: int)
    requires
        0 <= m <= n,
    ensures
        added(old, cs, t, m).len() <= added(old, cs, t, n).len(),
        forall|q: int| 0 <= q < added(old, cs, t, m).len() ==> added(old, cs, t, n)[q] == added(old, cs, t, m)[q],
    decreases n - m,
{
    if m < n {
        lemma_added_prefix(old, cs, t, m, n - 1);
    }
}

/// A file that a record of the batch places in a live directory comes into
/// the rebuilt index under the record's name, kind and reference number,
/// after the surviving old entries and the files placed by earlier records.
/// If the old index had it (it moved or was renamed), it keeps the size and
/// time already measured for it; a new file starts at zero.
pub proof fn placed_file_keeps_its_measures(
    old: IndexView,
    cs: Seq<Change>,
    c: DirsView,
    ix: IndexView,
    st: UpdateStats,
    j: int,
)
    requires
        rebuilt(old, cs, c, ix, st),
        fits(old, cs, applied(c, cs)),
        0 <= j < cs.len(),
        placed(cs, applied(c, cs), j),
    ensures
        ({
            let t = applied(c, cs);
            let k = (carried(old, cs, t, old.len() as int).len() + added(old, cs, t, j).len()) as int;
            &&& 0 <= k < ix.len()
            &&& ix.names[k] == cs[j]->name@
            &&& ix.kinds[k] == record_kind(cs[j])->0
            &&& ix.frns[k] == cs[j].frn()
            &&& match known_at(old, cs[j].vol(), cs[j].frn()) {
                Some(p) => ix.sizes[k] == old.size_of(p) && ix.mtimes[k] == old.mtime_of(p),
                None => ix.sizes[k] == 0 && ix.mtimes[k] == 0,
            }
        }),
{
    let t = applied(c, cs);
    let n = cs.len() as int;
    let cr = carried(old, cs, t, old.len() as int);
    let a = added(old, cs, t, n);
    let q = added(old, cs, t, j).len() as int;
    lemma_added_prefix(old, cs, t, j + 1, n);
    assert(added(old, cs, t, j + 1) == added(old, cs, t, j).push(added(old, cs, t, j + 1)[q]));
    let e = a[q];
    let p = plan(old, cs, t);
    assert(p == cr + a);
    let k = cr.len() + q;
    assert(p[k] == e);
    assert(ix == planned_view(t, p));
}


proof fn lemma_dead_stays_dead(t: DirsView, cs: Seq<Change>, m: int, n: int, x: int)
    requires
        0 <= m <= n,
        0 <= x < deleted(t, cs, m).paths.len(),
        deleted(t, cs, m).paths[x] is None,
    ensures
        deleted(t, cs, n).paths.len() == deleted(t, cs, m).paths.len(),
        deleted(t, cs, n).paths[x] is None,
    decreases n - m,
{
    if m < n {
        lemma_dead_stays_dead(t, cs, m, n - 1, x);
    }
}

/// A deletion record that names a live directory takes that directory away
/// for good, and with it every directory of the same volume beneath it, as
/// they stood when the record came: none of them is alive once the batch is
/// done, and every old entry in one of them that no record names is dropped
/// from the rebuilt index.
pub proof fn deleting_a_directory_sweeps_its_subtree(old: IndexView, cs: Seq<Change>, c: DirsView, j: int, x: int)
    requires
        0 <= j < cs.len(),
        is_latest(cs, j),
        cs[j] is Gone,
        ({
            let d = deleted(renamed(c, cs, cs.len() as int), cs, j);
            &&& d.resolve(cs[j].vol(), cs[j].frn()) is Some
            &&& d.paths[d.resolve(cs[j].vol(), cs[j].frn())->0] is Some
            &&& 0 <= x < d.paths.len()
            &&& (x == d.resolve(cs[j].vol(), cs[j].frn())->0 || swept(
                d,
                x,
                cs[j].vol(),
                d.paths[d.resolve(cs[j].vol(), cs[j].frn())->0]->0,
            ))
        }),
    ensures
        applied(c, cs).paths[x] is None,
        forall|i: int|
            0 <= i < old.len() && old.dir_of[i] == x && !touched(cs, old.volume(i), old.frn_of(i)) ==> {
                &&& dropped(old, cs, applied(c, cs), i)
                &&& !kept(old, cs, applied(c, cs), i)
            },
{
    let r = renamed(c, cs, cs.len() as int);
    let d = deleted(r, cs, j);
    let d1 = deleted(r, cs, j + 1);
    assert(d1 == delete_step(d, cs, j));
    assert(d1.paths.len() == d.paths.len());
    assert(d1.paths[x] is None);
    lemma_dead_stays_dead(r, cs, j + 1, cs.len() as int, x);
}

} // verus!
