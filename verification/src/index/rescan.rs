//! Rebuilding the index from a scan: the drives just walked, and everything
//! else exactly as it was.
//!
//! A drive this run did not scan is a drive it has nothing to say about,
//! whether a NAS the elevated scanner cannot see, an unplugged stick or a
//! disk that failed to open. Its entries are carried over untouched, with
//! the sizes and times already measured for them; dropping them would look
//! like the files were deleted.

use vstd::prelude::*;

use crate::index::model::{seq_cost, text_cost, text_total, Index, IndexBuilder, IndexView, MediaKind, NO_DIR};
use crate::index::persist::VolumeStamp;
use crate::text::{to_upper_byte, upper_byte};

verus! {

/// A directory tree walked on one drive: directory paths with their File
/// Reference Numbers (0 where there is none), and the media files in them.
#[derive(Debug, Clone)]
pub struct WalkedSet {
    pub dirs: Vec<String>,
    pub dir_frns: Vec<u64>,
    pub files: Vec<WalkedFile>,
}

/// A file found by a walk: `dir_id` counts into its set's `dirs`.
#[derive(Debug, Clone)]
pub struct WalkedFile {
    pub name: String,
    pub kind: MediaKind,
    pub dir_id: u32,
    pub frn: u64,
}

impl WalkedSet {
    /// Every directory has its number, and every file names a directory of
    /// the set.
    pub open spec fn wf(&self) -> bool {
        &&& self.dir_frns@.len() == self.dirs@.len()
        &&& forall|f: int| 0 <= f < self.files@.len() ==> (#[trigger] self.files@[f]).dir_id < self.dirs@.len()
    }

    pub open spec fn cost(&self) -> nat {
        seq_cost(self.dirs@.map_values(|d: String| d@)) + seq_cost(self.files@.map_values(|f: WalkedFile| f.name@))
    }
}

/// The entries of `old` below `n` on drives not in `scanned`, in order.
pub open spec fn untouched(old: IndexView, scanned: Seq<u8>, n: int) -> Seq<int>
    decreases n,
{
    if n <= 0 {
        Seq::empty()
    } else if !scanned.contains(old.volume(n - 1)) {
        untouched(old, scanned, n - 1).push(n - 1)
    } else {
        untouched(old, scanned, n - 1)
    }
}

/// Room enough in the builder for every text and id of `old`.
pub open spec fn room_for(b: IndexView, arena: nat, old: IndexView) -> bool {
    &&& arena + text_total(old) <= u32::MAX
    &&& b.dirs.len() + old.dirs.len() + 1 < NO_DIR
    &&& b.len() + old.len() + 1 < u32::MAX
}

/// `v` is `v0` with more appended: nothing already there moved or changed.
pub open spec fn extends(v0: IndexView, v: IndexView) -> bool {
    &&& v0.names.len() <= v.names.len()
    &&& v0.dirs.len() <= v.dirs.len()
    &&& v.names.subrange(0, v0.names.len() as int) == v0.names
    &&& v.dir_of.subrange(0, v0.dir_of.len() as int) == v0.dir_of
    &&& v.kinds.subrange(0, v0.kinds.len() as int) == v0.kinds
    &&& v.frns.subrange(0, v0.frns.len() as int) == v0.frns
    &&& v.dirs.subrange(0, v0.dirs.len() as int) == v0.dirs
    &&& v.dir_frns.subrange(0, v0.dir_frns.len() as int) == v0.dir_frns
}

/// Entry `e` of `v` is entry `i` of `old`: same name, same directory path and
/// number, same kind, same File Reference Number.
pub open spec fn same_entry(v: IndexView, e: int, old: IndexView, i: int) -> bool {
    &&& v.names[e] == old.names[i]
    &&& v.dir_text(e) == old.dir_text(i)
    &&& v.dir_frns[v.dir_of[e] as int] == old.dir_frns[old.dir_of[i] as int]
    &&& v.kinds[e] == old.kinds[i]
    &&& v.frns[e] == old.frns[i]
}

/// The arena the directories assigned so far take.
pub open spec fn assigned_cost(dirs: Seq<Seq<char>>, remap: Seq<Option<u32>>, n: int) -> nat
    decreases n,
{
    if n <= 0 {
        0
    } else {
        assigned_cost(dirs, remap, n - 1) + if remap[n - 1] is Some { text_cost(dirs[n - 1]) } else { 0 }
    }
}

pub open spec fn assigned_count(remap: Seq<Option<u32>>, n: int) -> nat
    decreases n,
{
    if n <= 0 {
        0
    } else {
        assigned_count(remap, n - 1) + if remap[n - 1] is Some { 1nat } else { 0nat }
    }
}

proof fn lemma_assigned_bound(dirs: Seq<Seq<char>>, remap: Seq<Option<u32>>, n: int)
    requires
        0 <= n <= dirs.len(),
        n <= remap.len(),
    ensures
        assigned_cost(dirs, remap, n) <= seq_cost(dirs.subrange(0, n)),
        assigned_count(remap, n) <= n,
    decreases n,
{
    if n > 0 {
        lemma_assigned_bound(dirs, remap, n - 1);
        assert(dirs.subrange(0, n).drop_last() =~= dirs.subrange(0, n - 1));
    }
}

proof fn lemma_assigned_update(dirs: Seq<Seq<char>>, remap: Seq<Option<u32>>, d: int, x: u32, n: int)
    requires
        0 <= d < remap.len(),
        remap[d] is None,
        0 <= n <= remap.len(),
    ensures
        assigned_cost(dirs, remap.update(d, Some(x)), n) == assigned_cost(dirs, remap, n) + if d < n {
            text_cost(dirs[d])
        } else {
            0
        },
        assigned_count(remap.update(d, Some(x)), n) == assigned_count(remap, n) + if d < n { 1nat } else { 0nat },
    decreases n,
{
    if n > 0 {
        lemma_assigned_update(dirs, remap, d, x, n - 1);
    }
}

proof fn lemma_seq_cost_prefix(s: Seq<Seq<char>>, n: int)
    requires
        0 <= n <= s.len(),
    ensures
        seq_cost(s.subrange(0, n)) <= seq_cost(s),
    decreases s.len() - n,
{
    if n < s.len() {
        lemma_seq_cost_prefix(s, n + 1);
        assert(s.subrange(0, n + 1).drop_last() =~= s.subrange(0, n));
    } else {
        assert(s.subrange(0, n) =~= s);
    }
}

proof fn lemma_untouched_shape(old: IndexView, scanned: Seq<u8>, n: int)
    requires
        0 <= n,
    ensures
        untouched(old, scanned, n).len() <= n,
        forall|k: int| 0 <= k < untouched(old, scanned, n).len() ==> 0 <= #[trigger] untouched(old, scanned, n)[k] < n,
    decreases n,
{
    if n > 0 {
        lemma_untouched_shape(old, scanned, n - 1);
    }
}

fn has_byte(s: &[u8], v: u8) -> (r: bool)
    ensures
        r == s@.contains(v),
{
    let mut k: usize = 0;
    while k < s.len()
        invariant
            k <= s@.len(),
            forall|q: int| 0 <= q < k ==> s@[q] != v,
        decreases s@.len() - k,
    {
        if s[k] == v {
            return true;
        }
        k += 1;
    }
    false
}

/// The directories of the entries of `old` below `n` on drives not in
/// `scanned`, each once, in the order they are first needed.
pub open spec fn dirs_used(old: IndexView, scanned: Seq<u8>, n: int) -> Seq<int>
    decreases n,
{
    if n <= 0 {
        Seq::empty()
    } else {
        let u = dirs_used(old, scanned, n - 1);
        let d = old.dir_of[n - 1] as int;
        if !scanned.contains(old.volume(n - 1)) && !u.contains(d) {
            u.push(d)
        } else {
            u
        }
    }
}

proof fn lemma_dirs_used(old: IndexView, scanned: Seq<u8>, n: int)
    requires
        0 <= n <= old.len(),
        old.consistent(),
    ensures
        dirs_used(old, scanned, n).no_duplicates(),
        forall|k: int| 0 <= k < dirs_used(old, scanned, n).len() ==> 0 <= #[trigger] dirs_used(old, scanned, n)[k] < old.dirs.len(),
    decreases n,
{
    if n > 0 {
        lemma_dirs_used(old, scanned, n - 1);
    }
}

/// Carry into the builder every entry of `old` on a drive not in `scanned`,
/// registering each directory once, and return their sizes and times in the
/// same order: they are kept rather than measured again.
///
/// With room in the builder for all of `old`'s text, each carried entry is
/// the old one exactly: name, directory path and number, kind, File Reference
/// Number; and what was in the builder before stays as it was.
pub fn carry_over(b: &mut IndexBuilder, prev: &Index, scanned: &[u8]) -> (carried: Vec<(u64, i64)>)
    requires
        old(b).wf(),
    ensures
        final(b).wf(),
        ({
            let u = untouched(prev@, scanned@, prev@.len() as int);
            &&& carried@.len() == u.len()
            &&& forall|k: int|
                0 <= k < u.len() ==> #[trigger] carried@[k] == (prev@.size_of(u[k]), prev@.mtime_of(u[k]))
            &&& dirs_used(prev@, scanned@, prev@.len() as int).no_duplicates()
            &&& room_for(old(b).view(), old(b).arena_len(), prev@) ==> {
                &&& extends(old(b).view(), final(b).view())
                &&& final(b).view().dirs == old(b).view().dirs + dirs_used(prev@, scanned@, prev@.len() as int).map_values(
                    |d: int| prev@.dirs[d],
                )
                &&& final(b).view().dir_frns == old(b).view().dir_frns + dirs_used(
                    prev@,
                    scanned@,
                    prev@.len() as int,
                ).map_values(|d: int| prev@.dir_frns[d])
                &&& final(b).view().len() == old(b).view().len() + u.len()
                &&& forall|k: int|
                    0 <= k < u.len() ==> same_entry(final(b).view(), old(b).view().len() + k, prev@, #[trigger] u[k])
            }
        }),
{
    let ghost v0 = b.view();
    let ghost a0 = b.arena_len();
    let ghost fit = room_for(v0, a0, prev@);
    let n = prev.len();
    let nd = prev.dir_count();
    let ghost ov = prev@;
    let mut remap: Vec<Option<u32>> = Vec::new();
    let mut z: usize = 0;
    while z < nd
        invariant
            z <= nd,
            remap@.len() == z,
            forall|d: int| 0 <= d < z ==> (#[trigger] remap@[d]) is None,
        decreases nd - z,
    {
        remap.push(None);
        z += 1;
    }
    proof {
        assert(assigned_cost(ov.dirs, remap@, nd as int) == 0) by {
            lemma_none_assigned(ov.dirs, remap@, nd as int);
        }
    }
    let mut carried: Vec<(u64, i64)> = Vec::new();
    proof {
        b.lemma_view_consistent();
        lemma_extends_refl(v0);
    }
    let mut i: usize = 0;
    while i < n
        invariant
            ov == prev@,
            n == ov.len(),
            nd == ov.dirs.len(),
            ov.consistent(),
            i <= n,
            b.wf(),
            remap@.len() == nd,
            fit == room_for(v0, a0, ov),
            v0.consistent(),
            carried@.len() == untouched(ov, scanned@, i as int).len(),
            forall|k: int|
                0 <= k < carried@.len() ==> #[trigger] carried@[k] == (
                ov.size_of(untouched(ov, scanned@, i as int)[k]),
                ov.mtime_of(untouched(ov, scanned@, i as int)[k]),
                ),
            forall|d: int| 0 <= d < nd ==> ((#[trigger] remap@[d]) is Some <==> dirs_used(ov, scanned@, i as int).contains(d)),
            fit ==> b.view().dirs == v0.dirs + dirs_used(ov, scanned@, i as int).map_values(|d: int| ov.dirs[d]),
            fit ==> b.view().dir_frns == v0.dir_frns + dirs_used(ov, scanned@, i as int).map_values(|d: int| ov.dir_frns[d]),
            fit ==> {
                &&& extends(v0, b.view())
                &&& b.view().len() == v0.len() + carried@.len()
                &&& b.arena_len() <= a0 + assigned_cost(ov.dirs, remap@, nd as int) + seq_cost(
                    ov.names.subrange(0, i as int),
                )
                &&& b.view().dirs.len() <= v0.dirs.len() + assigned_count(remap@, nd as int)
                &&& forall|d: int|
                    0 <= d < nd && (#[trigger] remap@[d]) is Some ==> {
                        let x = remap@[d].unwrap() as int;
                        &&& v0.dirs.len() <= x < b.view().dirs.len()
                        &&& b.view().dirs[x] == ov.dirs[d]
                        &&& b.view().dir_frns[x] == ov.dir_frns[d]
                    }
                &&& forall|k: int|
                    0 <= k < carried@.len() ==> same_entry(
                        b.view(),
                        v0.len() + k,
                        ov,
                        #[trigger] untouched(ov, scanned@, i as int)[k],
                    )
            },
        decreases n - i,
    {
        proof {
            b.lemma_view_consistent();
            lemma_untouched_shape(ov, scanned@, i as int);
            lemma_assigned_bound(ov.dirs, remap@, nd as int);
            lemma_seq_cost_prefix(ov.dirs, nd as int);
            assert(ov.dirs.subrange(0, nd as int) =~= ov.dirs);
            lemma_seq_cost_prefix(ov.names, i + 1);
            assert(ov.names.subrange(0, i + 1).drop_last() =~= ov.names.subrange(0, i as int));
        }
        let vol = prev.volume_of(i);
        if !has_byte(scanned, vol) {
            let od = prev.dir_ids()[i] as usize;
            let ghost before = b.view();
            let ghost r0 = remap@;
            let d = match remap[od] {
                Some(d) => d,
                None => {
                    proof {
                        lemma_assigned_update(ov.dirs, r0, od as int, 0, nd as int);
                        lemma_assigned_bound(ov.dirs, r0.update(od as int, Some(0u32)), nd as int);
                        if fit {
                            assert(b.arena_len() + text_cost(ov.dirs[od as int]) <= u32::MAX);
                            assert(b.view().dirs.len() + 1 < NO_DIR);
                        }
                    }
                    let d = b.add_dir(prev.dir_path(od), prev.dir_frn(od));
                    remap.set(od, Some(d));
                    proof {
                        lemma_assigned_update(ov.dirs, r0, od as int, d, nd as int);
                        b.lemma_view_consistent();
                        assert(dirs_used(ov, scanned@, i + 1) == dirs_used(ov, scanned@, i as int).push(od as int));
                        if fit {
                            assert(b.view().dirs =~= before.dirs.push(ov.dirs[od as int]));
                            assert(dirs_used(ov, scanned@, i + 1).map_values(|d: int| ov.dirs[d]) =~= dirs_used(ov, scanned@, i as int).map_values(|d: int| ov.dirs[d]).push(ov.dirs[od as int]));
                            assert(dirs_used(ov, scanned@, i + 1).map_values(|d: int| ov.dir_frns[d]) =~= dirs_used(ov, scanned@, i as int).map_values(|d: int| ov.dir_frns[d]).push(ov.dir_frns[od as int]));
                            assert(b.view().dirs =~= v0.dirs + dirs_used(ov, scanned@, i + 1).map_values(|d: int| ov.dirs[d]));
                            assert(b.view().dir_frns =~= v0.dir_frns + dirs_used(ov, scanned@, i + 1).map_values(|d: int| ov.dir_frns[d]));
                            assert(b.view().dirs.drop_last() =~= before.dirs);
                            assert(b.view().dir_frns.drop_last() =~= before.dir_frns);
                            lemma_extends_push_dir(before, b.view());
                            lemma_extends_trans(v0, before, b.view());
                            assert forall|d2: int|
                                0 <= d2 < nd && (#[trigger] remap@[d2]) is Some implies {
                                    let x = remap@[d2].unwrap() as int;
                                    &&& v0.dirs.len() <= x < b.view().dirs.len()
                                    &&& b.view().dirs[x] == ov.dirs[d2]
                                    &&& b.view().dir_frns[x] == ov.dir_frns[d2]
                                } by {
                                if d2 != od {
                                    assert(remap@[d2] == r0[d2]);
                                }
                            }
                            assert forall|k: int|
                                0 <= k < carried@.len() implies same_entry(
                                    b.view(),
                                    v0.len() + k,
                                    ov,
                                    #[trigger] untouched(ov, scanned@, i as int)[k],
                                ) by {
                                assert(before.dir_of[v0.len() + k] < before.dirs.len());
                            }
                        }
                    }
                    d
                },
            };
            let ghost mid = b.view();
            proof {
                assert(ov.dir_of[i as int] == od);
                if r0[od as int] is Some {
                    assert(dirs_used(ov, scanned@, i as int).contains(od as int));
                    assert(dirs_used(ov, scanned@, i + 1) == dirs_used(ov, scanned@, i as int));
                } else {
                    assert(dirs_used(ov, scanned@, i + 1) == dirs_used(ov, scanned@, i as int).push(od as int));
                }
                assert forall|d2: int| 0 <= d2 < nd implies ((#[trigger] remap@[d2]) is Some <==> dirs_used(
                    ov,
                    scanned@,
                    i + 1,
                ).contains(d2)) by {
                    if r0[od as int] is None && d2 != od {
                        assert(remap@[d2] == r0[d2]);
                        let u = dirs_used(ov, scanned@, i as int);
                        if u.contains(d2) {
                            let k = choose|k: int| 0 <= k < u.len() && u[k] == d2;
                            assert(u.push(od as int)[k] == d2);
                        }
                        if u.push(od as int).contains(d2) {
                            let k = choose|k: int| 0 <= k < u.len() + 1 && u.push(od as int)[k] == d2;
                            assert(k < u.len());
                        }
                    } else if r0[od as int] is None {
                        assert(dirs_used(ov, scanned@, i + 1)[dirs_used(ov, scanned@, i as int).len() as int] == od);
                    }
                }
                if fit {
                    assert(ov.names.subrange(0, i + 1) =~= ov.names.subrange(0, i as int).push(ov.names[i as int]));
                    assert(mid.len() == v0.len() + carried@.len());
                    assert(remap@[od as int] is Some);
                    assert(b.arena_len() + text_cost(ov.names[i as int]) <= u32::MAX);
                    assert(d < mid.dirs.len());
                    assert(mid.len() + 1 < u32::MAX);
                }
            }
            b.add_file(prev.name(i), prev.kind(i), d, prev.frn(i));
            carried.push((prev.size(i), prev.mtime(i)));
            proof {
                b.lemma_view_consistent();
                let u0 = untouched(ov, scanned@, i as int);
                let u1 = untouched(ov, scanned@, i + 1);
                assert(u1 == u0.push(i as int));
                assert forall|k: int|
                    0 <= k < carried@.len() implies #[trigger] carried@[k] == (ov.size_of(u1[k]), ov.mtime_of(u1[k])) by {
                    if k < u0.len() {
                        assert(u1[k] == u0[k]);
                    }
                }
                if fit {
                    let after = b.view();
                    assert(after.names.drop_last() =~= mid.names);
                    assert(after.dir_of.drop_last() =~= mid.dir_of);
                    assert(after.kinds.drop_last() =~= mid.kinds);
                    assert(after.frns.drop_last() =~= mid.frns);
                    lemma_extends_push_file(mid, after);
                    lemma_extends_trans(v0, mid, after);
                    assert forall|k: int| 0 <= k < carried@.len() implies same_entry(after, v0.len() + k, ov, #[trigger] u1[k]) by {
                        if k < u0.len() {
                            assert(u1[k] == u0[k]);
                            assert(mid.dir_of[v0.len() + k] < mid.dirs.len());
                        } else {
                            assert(u1[k] == i as int);
                        }
                    }
                }
            }
        } else {
            proof {
                assert(dirs_used(ov, scanned@, i + 1) == dirs_used(ov, scanned@, i as int));
                assert(untouched(ov, scanned@, i + 1) == untouched(ov, scanned@, i as int));
                if fit {
                    assert(ov.names.subrange(0, i + 1) =~= ov.names.subrange(0, i as int).push(ov.names[i as int]));
                }
            }
        }
        i += 1;
    }
    proof {
        assert(ov.names.subrange(0, n as int) =~= ov.names);
        lemma_dirs_used(ov, scanned@, n as int);
    }
    carried
}

/// Room enough in the builder for everything in `set`.
pub open spec fn room_for_set(b: IndexView, arena: nat, set: &WalkedSet) -> bool {
    &&& arena + set.cost() <= u32::MAX
    &&& b.dirs.len() + set.dirs@.len() + 1 < NO_DIR
    &&& b.len() + set.files@.len() + 1 < u32::MAX
}

/// Add a walked drive to the builder: its directories in order, each keeping
/// its number, then its files, each pointing at its directory's new id.
///
/// With room for all of it, the builder holds exactly what it held before
/// followed by the set.
pub fn add_walked(b: &mut IndexBuilder, set: &WalkedSet)
    requires
        old(b).wf(),
        set.wf(),
    ensures
        final(b).wf(),
        room_for_set(old(b).view(), old(b).arena_len(), set) ==> {
            let v0 = old(b).view();
            let base = v0.dirs.len();
            final(b).view() == (IndexView {
                names: v0.names + set.files@.map_values(|f: WalkedFile| f.name@),
                dir_of: v0.dir_of + set.files@.map_values(|f: WalkedFile| (base + f.dir_id) as u32),
                kinds: v0.kinds + set.files@.map_values(|f: WalkedFile| f.kind),
                frns: v0.frns + set.files@.map_values(|f: WalkedFile| f.frn),
                dirs: v0.dirs + set.dirs@.map_values(|d: String| d@),
                dir_frns: v0.dir_frns + set.dir_frns@,
                ..v0
            })
        },
{
    let ghost v0 = b.view();
    let ghost a0 = b.arena_len();
    let ghost fit = room_for_set(v0, a0, set);
    let ghost dv = set.dirs@.map_values(|d: String| d@);
    let ghost nv = set.files@.map_values(|f: WalkedFile| f.name@);
    proof {
        b.lemma_view_consistent();
    }
    let nd = set.dirs.len();
    let mut remap: Vec<u32> = Vec::new();
    let mut j: usize = 0;
    while j < nd
        invariant
            nd == set.dirs@.len(),
            set.wf(),
            j <= nd,
            b.wf(),
            dv == set.dirs@.map_values(|d: String| d@),
            fit == room_for_set(v0, a0, set),
            v0.consistent(),
            remap@.len() == j,
            fit ==> {
                &&& b.view() == (IndexView {
                    dirs: v0.dirs + dv.subrange(0, j as int),
                    dir_frns: v0.dir_frns + set.dir_frns@.subrange(0, j as int),
                    ..v0
                })
                &&& b.arena_len() == a0 + seq_cost(dv.subrange(0, j as int))
                &&& forall|k: int| 0 <= k < j ==> #[trigger] remap@[k] == v0.dirs.len() + k
            },
        decreases nd - j,
    {
        proof {
            if fit {
                lemma_seq_cost_prefix(dv, j + 1);
                assert(dv.subrange(0, j + 1).drop_last() =~= dv.subrange(0, j as int));
                assert(dv.subrange(0, nd as int) =~= dv);
                assert(set.cost() == seq_cost(dv) + seq_cost(set.files@.map_values(|g: WalkedFile| g.name@))) by {
                    assert(dv =~= set.dirs@.map_values(|d: String| d@));
                }
            }
        }
        let id = b.add_dir(set.dirs[j].as_str(), set.dir_frns[j]);
        remap.push(id);
        proof {
            if fit {
                assert(dv.subrange(0, j + 1) =~= dv.subrange(0, j as int).push(dv[j as int]));
                assert(set.dir_frns@.subrange(0, j + 1) =~= set.dir_frns@.subrange(0, j as int).push(set.dir_frns@[j as int]));
                assert(b.view().dirs =~= v0.dirs + dv.subrange(0, j + 1));
                assert(b.view().dir_frns =~= v0.dir_frns + set.dir_frns@.subrange(0, j + 1));
            }
        }
        j += 1;
    }
    proof {
        assert(dv.subrange(0, nd as int) =~= dv);
        assert(set.dir_frns@.subrange(0, nd as int) =~= set.dir_frns@);
    }
    let ghost v1 = b.view();
    let ghost a1 = b.arena_len();
    let nf = set.files.len();
    let mut i: usize = 0;
    while i < nf
        invariant
            nf == set.files@.len(),
            nd == set.dirs@.len(),
            set.wf(),
            i <= nf,
            b.wf(),
            nv == set.files@.map_values(|f: WalkedFile| f.name@),
            dv == set.dirs@.map_values(|d: String| d@),
            fit == room_for_set(v0, a0, set),
            v0.consistent(),
            remap@.len() == nd,
            fit ==> {
                &&& v1 == (IndexView { dirs: v0.dirs + dv, dir_frns: v0.dir_frns + set.dir_frns@, ..v0 })
                &&& a1 == a0 + seq_cost(dv)
                &&& forall|k: int| 0 <= k < nd ==> #[trigger] remap@[k] == v0.dirs.len() + k
                &&& b.view() == (IndexView {
                    names: v1.names + nv.subrange(0, i as int),
                    dir_of: v1.dir_of + set.files@.subrange(0, i as int).map_values(
                        |f: WalkedFile| (v0.dirs.len() + f.dir_id) as u32,
                    ),
                    kinds: v1.kinds + set.files@.subrange(0, i as int).map_values(|f: WalkedFile| f.kind),
                    frns: v1.frns + set.files@.subrange(0, i as int).map_values(|f: WalkedFile| f.frn),
                    ..v1
                })
                &&& b.arena_len() == a1 + seq_cost(nv.subrange(0, i as int))
            },
        decreases nf - i,
    {
        let f = &set.files[i];
        proof {
            if fit {
                lemma_seq_cost_prefix(nv, i + 1);
                assert(nv.subrange(0, i + 1).drop_last() =~= nv.subrange(0, i as int));
                assert(nv.subrange(0, nf as int) =~= nv);
                assert(f.dir_id < nd);
                assert(set.cost() == seq_cost(dv) + seq_cost(nv)) by {
                    assert(dv =~= set.dirs@.map_values(|d: String| d@));
                    assert(nv =~= set.files@.map_values(|g: WalkedFile| g.name@));
                }
                assert(nv[i as int] == f.name@);
                assert(b.arena_len() + text_cost(f.name@) <= u32::MAX);
                assert(remap@[f.dir_id as int] < b.view().dirs.len());
                assert(b.view().len() + 1 < u32::MAX);
            }
        }
        let ghost before = b.view();
        b.add_file(f.name.as_str(), f.kind, remap[f.dir_id as usize], f.frn);
        proof {
            if fit {
                let s1 = set.files@.subrange(0, i + 1);
                let s0 = set.files@.subrange(0, i as int);
                assert(s1 =~= s0.push(*f));
                assert(nv.subrange(0, i + 1) =~= nv.subrange(0, i as int).push(f.name@));
                assert(s1.map_values(|g: WalkedFile| (v0.dirs.len() + g.dir_id) as u32) =~= s0.map_values(
                    |g: WalkedFile| (v0.dirs.len() + g.dir_id) as u32,
                ).push((v0.dirs.len() + f.dir_id) as u32));
                assert(s1.map_values(|g: WalkedFile| g.kind) =~= s0.map_values(|g: WalkedFile| g.kind).push(f.kind));
                assert(s1.map_values(|g: WalkedFile| g.frn) =~= s0.map_values(|g: WalkedFile| g.frn).push(f.frn));
                assert(b.view().names =~= v1.names + nv.subrange(0, i + 1));
                assert(b.view().dir_of =~= v1.dir_of + s1.map_values(|g: WalkedFile| (v0.dirs.len() + g.dir_id) as u32));
                assert(b.view().kinds =~= v1.kinds + s1.map_values(|g: WalkedFile| g.kind));
                assert(b.view().frns =~= v1.frns + s1.map_values(|g: WalkedFile| g.frn));
            }
        }
        i += 1;
    }
    proof {
        if fit {
            assert(nv.subrange(0, nf as int) =~= nv);
            assert(set.files@.subrange(0, nf as int) =~= set.files@);
            assert(b.view().names =~= v0.names + nv);
        }
    }
}

/// Byte `b`'s drive letter, uppercased, the way a stamp's letter is compared.
pub open spec fn stamp_byte(c: char) -> u8 {
    upper_byte(((c as u32) % 256) as u8)
}

/// The drives a run scanned, from the stamps it recorded.
pub fn scanned_letters(stamps: &[VolumeStamp]) -> (r: Vec<u8>)
    ensures
        r@ == stamps@.map_values(|s: VolumeStamp| stamp_byte(s.letter)),
{
    let mut out: Vec<u8> = Vec::new();
    let mut k: usize = 0;
    while k < stamps.len()
        invariant
            k <= stamps@.len(),
            out@ == stamps@.subrange(0, k as int).map_values(|s: VolumeStamp| stamp_byte(s.letter)),
        decreases stamps@.len() - k,
    {
        let c = stamps[k].letter;
        out.push(to_upper_byte(((c as u32) % 256) as u8));
        assert(stamps@.subrange(0, k + 1) =~= stamps@.subrange(0, k as int).push(stamps@[k as int]));
        assert(out@ =~= stamps@.subrange(0, k + 1).map_values(|s: VolumeStamp| stamp_byte(s.letter)));
        k += 1;
    }
    assert(stamps@.subrange(0, stamps@.len() as int) =~= stamps@);
    out
}

/// The stamps of the drives not in `scanned`, in order.
pub open spec fn kept_stamps(stamps: Seq<VolumeStamp>, scanned: Seq<u8>) -> Seq<VolumeStamp>
    decreases stamps.len(),
{
    if stamps.len() == 0 {
        Seq::empty()
    } else if scanned.contains(stamp_byte(stamps.last().letter)) {
        kept_stamps(stamps.drop_last(), scanned)
    } else {
        kept_stamps(stamps.drop_last(), scanned).push(stamps.last())
    }
}

/// The stamps to keep from the previous cache: those of the drives this run
/// did not scan, whose journal cursors must survive untouched.
pub fn keep_stamps(stamps: &[VolumeStamp], scanned: &[u8]) -> (r: Vec<VolumeStamp>)
    ensures
        r@ == kept_stamps(stamps@, scanned@),
{
    let mut out: Vec<VolumeStamp> = Vec::new();
    let mut k: usize = 0;
    while k < stamps.len()
        invariant
            k <= stamps@.len(),
            out@ == kept_stamps(stamps@.subrange(0, k as int), scanned@),
        decreases stamps@.len() - k,
    {
        assert(stamps@.subrange(0, k + 1).drop_last() =~= stamps@.subrange(0, k as int));
        let st = stamps[k];
        let c = st.letter;
        if !has_byte(scanned, to_upper_byte(((c as u32) % 256) as u8)) {
            out.push(st);
        }
        k += 1;
    }
    assert(stamps@.subrange(0, stamps@.len() as int) =~= stamps@);
    out
}

proof fn lemma_extends_refl(v: IndexView)
    ensures
        extends(v, v),
{
    assert(v.names.subrange(0, v.names.len() as int) =~= v.names);
    assert(v.dir_of.subrange(0, v.dir_of.len() as int) =~= v.dir_of);
    assert(v.kinds.subrange(0, v.kinds.len() as int) =~= v.kinds);
    assert(v.frns.subrange(0, v.frns.len() as int) =~= v.frns);
    assert(v.dirs.subrange(0, v.dirs.len() as int) =~= v.dirs);
    assert(v.dir_frns.subrange(0, v.dir_frns.len() as int) =~= v.dir_frns);
}

proof fn lemma_extends_trans(v0: IndexView, v1: IndexView, v2: IndexView)
    requires
        extends(v0, v1),
        extends(v1, v2),
        v0.consistent(),
        v1.consistent(),
        v2.consistent(),
    ensures
        extends(v0, v2),
{
    assert(v2.names.subrange(0, v0.names.len() as int) =~= v2.names.subrange(0, v1.names.len() as int).subrange(
        0,
        v0.names.len() as int,
    ));
    assert(v2.dir_of.subrange(0, v0.dir_of.len() as int) =~= v2.dir_of.subrange(0, v1.dir_of.len() as int).subrange(
        0,
        v0.dir_of.len() as int,
    ));
    assert(v2.kinds.subrange(0, v0.kinds.len() as int) =~= v2.kinds.subrange(0, v1.kinds.len() as int).subrange(
        0,
        v0.kinds.len() as int,
    ));
    assert(v2.frns.subrange(0, v0.frns.len() as int) =~= v2.frns.subrange(0, v1.frns.len() as int).subrange(
        0,
        v0.frns.len() as int,
    ));
    assert(v2.dirs.subrange(0, v0.dirs.len() as int) =~= v2.dirs.subrange(0, v1.dirs.len() as int).subrange(
        0,
        v0.dirs.len() as int,
    ));
    assert(v2.dir_frns.subrange(0, v0.dir_frns.len() as int) =~= v2.dir_frns.subrange(
        0,
        v1.dir_frns.len() as int,
    ).subrange(0, v0.dir_frns.len() as int));
}

/// A directory added: the entries and the directories already there stay.
proof fn lemma_extends_push_dir(v1: IndexView, v2: IndexView)
    requires
        v2.names == v1.names,
        v2.dir_of == v1.dir_of,
        v2.kinds == v1.kinds,
        v2.frns == v1.frns,
        v2.dirs.len() == v1.dirs.len() + 1,
        v2.dirs.drop_last() == v1.dirs,
        v2.dir_frns.len() == v1.dir_frns.len() + 1,
        v2.dir_frns.drop_last() == v1.dir_frns,
    ensures
        extends(v1, v2),
{
    lemma_extends_refl(v1);
    assert(v2.dirs.subrange(0, v1.dirs.len() as int) =~= v1.dirs);
    assert(v2.dir_frns.subrange(0, v1.dir_frns.len() as int) =~= v1.dir_frns);
}

/// A file added: the entries and the directories already there stay.
proof fn lemma_extends_push_file(v1: IndexView, v2: IndexView)
    requires
        v2.dirs == v1.dirs,
        v2.dir_frns == v1.dir_frns,
        v2.names.len() == v1.names.len() + 1,
        v2.names.drop_last() == v1.names,
        v2.dir_of.len() == v1.dir_of.len() + 1,
        v2.dir_of.drop_last() == v1.dir_of,
        v2.kinds.len() == v1.kinds.len() + 1,
        v2.kinds.drop_last() == v1.kinds,
        v2.frns.len() == v1.frns.len() + 1,
        v2.frns.drop_last() == v1.frns,
    ensures
        extends(v1, v2),
{
    lemma_extends_refl(v1);
    assert(v2.names.subrange(0, v1.names.len() as int) =~= v1.names);
    assert(v2.dir_of.subrange(0, v1.dir_of.len() as int) =~= v1.dir_of);
    assert(v2.kinds.subrange(0, v1.kinds.len() as int) =~= v1.kinds);
    assert(v2.frns.subrange(0, v1.frns.len() as int) =~= v1.frns);
}

proof fn lemma_none_assigned(dirs: Seq<Seq<char>>, remap: Seq<Option<u32>>, n: int)
    requires
        0 <= n <= remap.len(),
        forall|d: int| 0 <= d < n ==> (#[trigger] remap[d]) is None,
    ensures
        assigned_cost(dirs, remap, n) == 0,
        assigned_count(remap, n) == 0,
    decreases n,
{
    if n > 0 {
        lemma_none_assigned(dirs, remap, n - 1);
    }
}

} // verus!
