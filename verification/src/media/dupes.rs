//! Finding duplicate files without reading them all.
//!
//! Three tiers, each looking only at what survived the last: the same byte
//! count (free, the index knows every size), the same fingerprint over both
//! ends of the file (128 KB read per file), and, only for a group someone is
//! about to act on, the whole content. Size classes are worked through by how
//! much they could reclaim, so the groups worth most come out first.
//!
//! Nothing here deletes anything: it reports, and a person decides.

use vstd::prelude::*;

use crate::digest::{blake3_digest, blake3_of, le_u64, push_le_u64};
use crate::media::dupescope::{DupeScope, MIN_INTERESTING_SIZE};
use crate::order::{sort_triples, triple_le, triples_sorted};
use crate::text::bytes_eq;

use std::collections::HashMap;

verus! {

broadcast use vstd::std_specs::hash::group_hash_axioms;

/// Bytes sampled from each end of a file for its fingerprint.
pub const SAMPLE_BYTES: u64 = 65536;

/// Files up to this size are fingerprinted whole: reading both ends of them
/// would read most of the file twice.
pub const SMALL_FILE_LIMIT: u64 = 131072;

/// Candidates per wave: whole size classes are gathered until a wave holds at
/// least this many, and the groups found so far are published after each.
pub const TEP_MOI_DOT: usize = 400;

/// Files that must have been read before a time estimate is given.
pub const MIN_MAU_UOC_LUONG: usize = 200;

/// Files with the same content, as far as the fingerprint can tell.
#[derive(Debug, Clone, PartialEq, Eq)]
pub struct DuplicateGroup {
    /// Bytes per copy.
    pub size: u64,
    /// Index positions of the files, two or more, ascending.
    pub entries: Vec<u32>,
    /// What keeping one copy would reclaim: `size * (count - 1)`.
    pub wasted: u64,
}

/// What the interface shows about a scan.
#[derive(Debug, Clone, Copy, PartialEq, Eq)]
pub struct DupeProgress {
    pub running: bool,
    /// Files to fingerprint in this scan.
    pub candidates: usize,
    pub hashed: usize,
    pub groups: usize,
    pub wasted: u64,
    /// A scan has finished and its answer is the one in `groups`.
    pub completed: bool,
    /// When the current scan started, Unix seconds; 0 before any scan.
    pub started_unix: u64,
    /// A stop was asked for and the scan has not ended yet.
    pub stopping: bool,
    /// Seconds left, when enough is known to say.
    pub eta_seconds: Option<u64>,
}

impl Default for DupeProgress {
    fn default() -> (r: Self)
        ensures
            r == (DupeProgress {
                running: false,
                candidates: 0,
                hashed: 0,
                groups: 0,
                wasted: 0,
                completed: false,
                started_unix: 0,
                stopping: false,
                eta_seconds: None,
            }),
    {
        DupeProgress {
            running: false,
            candidates: 0,
            hashed: 0,
            groups: 0,
            wasted: 0,
            completed: false,
            started_unix: 0,
            stopping: false,
            eta_seconds: None,
        }
    }
}

/// What `count` copies of `size` bytes waste, with the 64-bit wrap of the
/// multiplication a release build does.
pub open spec fn wasted_of(size: u64, count: nat) -> u64 {
    size.wrapping_mul((count - 1) as u64)
}

/// Whether a file of `size` bytes is fingerprinted whole rather than by its
/// two ends.
pub fn reads_whole(size: u64) -> (r: bool)
    ensures
        r == (size <= SMALL_FILE_LIMIT),
{
    size <= SMALL_FILE_LIMIT
}

/// The fingerprint of a file of `size` bytes: BLAKE3 over the size (eight
/// little-endian bytes), then the sampled bytes: the whole file when it is
/// small (and `tail` empty), else its first and its last [`SAMPLE_BYTES`].
/// The size is hashed in, so samples alone never make two files equal.
pub fn fingerprint_of(size: u64, head: &[u8], tail: &[u8]) -> (r: [u8; 32])
    ensures
        r@ == blake3_digest(le_u64(size) + head@ + tail@),
{
    let mut msg: Vec<u8> = Vec::new();
    push_le_u64(&mut msg, size);
    let mut i: usize = 0;
    while i < head.len()
        invariant
            i <= head@.len(),
            msg@ == le_u64(size) + head@.subrange(0, i as int),
        decreases head@.len() - i,
    {
        msg.push(head[i]);
        assert(msg@ =~= le_u64(size) + head@.subrange(0, i + 1));
        i += 1;
    }
    let mut j: usize = 0;
    while j < tail.len()
        invariant
            j <= tail@.len(),
            msg@ == le_u64(size) + head@ + tail@.subrange(0, j as int),
        decreases tail@.len() - j,
    {
        if j == 0 {
            assert(head@.subrange(0, head@.len() as int) =~= head@);
        }
        msg.push(tail[j]);
        assert(msg@ =~= le_u64(size) + head@ + tail@.subrange(0, j + 1));
        j += 1;
    }
    assert(head@.subrange(0, head@.len() as int) =~= head@);
    assert(tail@.subrange(0, tail@.len() as int) =~= tail@);
    assert(msg@ =~= le_u64(size) + head@ + tail@);
    blake3_of(msg.as_slice())
}

// ---------------------------------------------------------------------------
// Tier 1: size classes.

/// Entry `i` takes part: inside the scope and big enough to matter.
pub open spec fn eligible(sizes: Seq<u64>, ok: Seq<bool>, i: int) -> bool {
    ok[i] && sizes[i] >= MIN_INTERESTING_SIZE
}

/// The eligible entries below `n` of size `s`, ascending.
pub open spec fn members(sizes: Seq<u64>, ok: Seq<bool>, s: u64, n: int) -> Seq<u32>
    decreases n,
{
    if n <= 0 {
        Seq::empty()
    } else if eligible(sizes, ok, n - 1) && sizes[n - 1] == s {
        members(sizes, ok, s, n - 1).push((n - 1) as u32)
    } else {
        members(sizes, ok, s, n - 1)
    }
}

/// The order classes are worked through: what they could reclaim at most,
/// largest first, then the larger size first.
pub open spec fn class_key(size: u64, count: nat, k: u64) -> (u64, u64, u64) {
    ((u64::MAX - wasted_of(size, count)) as u64, (u64::MAX - size) as u64, k)
}

proof fn lemma_members_none(sizes: Seq<u64>, ok: Seq<bool>, s: u64, n: int)
    requires
        0 <= n <= sizes.len(),
        forall|j: int| 0 <= j < n && eligible(sizes, ok, j) ==> sizes[j] != s,
    ensures
        members(sizes, ok, s, n) == Seq::<u32>::empty(),
    decreases n,
{
    if n > 0 {
        lemma_members_none(sizes, ok, s, n - 1);
    }
}

/// The size classes worth fingerprinting: for each size shared by two or
/// more eligible entries, that size and its entries (ascending); `ok` says
/// which entries are inside the chosen scope. Classes come in working order
/// (see [`class_key`]), and no size comes twice.
pub fn size_classes(sizes: &[u64], ok: &[bool]) -> (r: Vec<(u64, Vec<u32>)>)
    requires
        sizes@.len() == ok@.len(),
        sizes@.len() <= u32::MAX,
    ensures
        forall|p: int|
            0 <= p < r@.len() ==> {
                &&& (#[trigger] r@[p]).0 >= MIN_INTERESTING_SIZE
                &&& r@[p].1@ == members(sizes@, ok@, r@[p].0, sizes@.len() as int)
                &&& r@[p].1@.len() >= 2
            },
        forall|i: int|
            0 <= i < sizes@.len() && eligible(sizes@, ok@, i) && members(sizes@, ok@, sizes@[i], sizes@.len() as int).len()
                >= 2 ==> exists|p: int| 0 <= p < r@.len() && (#[trigger] r@[p]).0 == sizes@[i],
        forall|p: int, q: int| 0 <= p < q < r@.len() ==> (#[trigger] r@[p]).0 != (#[trigger] r@[q]).0,
        forall|p: int, q: int|
            0 <= p < q < r@.len() ==> triple_le(
                class_key((#[trigger] r@[p]).0, r@[p].1@.len(), 0),
                class_key((#[trigger] r@[q]).0, r@[q].1@.len(), 0),
            ),
{
    let n = sizes.len();
    let mut pos: HashMap<u64, usize> = HashMap::new();
    let mut cs: Vec<u64> = Vec::new();
    let mut cm: Vec<Vec<u32>> = Vec::new();
    let mut i: usize = 0;
    while i < n
        invariant
            n == sizes@.len(),
            n == ok@.len(),
            n <= u32::MAX,
            i <= n,
            cs@.len() == cm@.len(),
            forall|k: int| 0 <= k < cs@.len() ==> (#[trigger] cm@[k])@ == members(sizes@, ok@, cs@[k], i as int),
            forall|k: int| 0 <= k < cs@.len() ==> (#[trigger] cm@[k])@.len() >= 1,
            forall|k: int| 0 <= k < cs@.len() ==> pos@.contains_key(#[trigger] cs@[k]) && pos@[cs@[k]] == k,
            forall|s: u64| #[trigger] pos@.contains_key(s) ==> pos@[s] < cs@.len() && cs@[pos@[s] as int] == s,
            forall|j: int| 0 <= j < i && eligible(sizes@, ok@, j) ==> #[trigger] pos@.contains_key(sizes@[j]),
            forall|k: int| 0 <= k < cs@.len() ==> (#[trigger] cs@[k]) >= MIN_INTERESTING_SIZE,
        decreases n - i,
    {
        let s = sizes[i];
        if ok[i] && s >= MIN_INTERESTING_SIZE {
            match pos.get(&s) {
                Some(k) => {
                    let k = *k;
                    let ghost before = cm@;
                    let mut v: Vec<u32> = Vec::new();
                    std::mem::swap(&mut v, &mut cm[k]);
                    v.push(i as u32);
                    cm.set(k, v);
                    assert forall|k2: int| 0 <= k2 < cs@.len() implies (#[trigger] cm@[k2])@ == members(
                        sizes@,
                        ok@,
                        cs@[k2],
                        i + 1,
                    ) by {
                        if k2 != k {
                            assert(cm@[k2] == before[k2]);
                        }
                    }
                },
                None => {
                    proof {
                        assert forall|j: int| 0 <= j < i && eligible(sizes@, ok@, j) implies sizes@[j] != s by {
                            assert(pos@.contains_key(sizes@[j]));
                        }
                        lemma_members_none(sizes@, ok@, s, i as int);
                    }
                    let k = cs.len();
                    pos.insert(s, k);
                    cs.push(s);
                    let mut v: Vec<u32> = Vec::new();
                    v.push(i as u32);
                    cm.push(v);
                    assert(cm@[k as int]@ =~= members(sizes@, ok@, s, i + 1));
                    assert forall|k2: int| 0 <= k2 < cs@.len() implies (#[trigger] cm@[k2])@ == members(
                        sizes@,
                        ok@,
                        cs@[k2],
                        i + 1,
                    ) by {
                        if k2 != k {
                            assert(cs@[k2] != s);
                        }
                    }
                },
            }
        }
        i += 1;
    }
    // Keep the classes of two or more, keyed for working order.
    let mut keys: Vec<(u64, u64, u64)> = Vec::new();
    let mut k: usize = 0;
    while k < cs.len()
        invariant
            cs@.len() == cm@.len(),
            k <= cs@.len(),
            forall|k2: int| 0 <= k2 < cs@.len() ==> (#[trigger] cm@[k2])@ == members(sizes@, ok@, cs@[k2], sizes@.len() as int),
            forall|k2: int| 0 <= k2 < cs@.len() ==> (#[trigger] cs@[k2]) >= MIN_INTERESTING_SIZE,
            forall|k2: int| 0 <= k2 < cs@.len() ==> pos@.contains_key(#[trigger] cs@[k2]) && pos@[cs@[k2]] == k2,
            forall|x: u64| #[trigger] pos@.contains_key(x) ==> pos@[x] < cs@.len() && cs@[pos@[x] as int] == x,
            forall|j: int| 0 <= j < sizes@.len() && eligible(sizes@, ok@, j) ==> #[trigger] pos@.contains_key(sizes@[j]),

            forall|t: int|
                0 <= t < keys@.len() ==> ((#[trigger] keys@[t]).2 < cs@.len() && cm@[keys@[t].2 as int]@.len() >= 2
                    && keys@[t] == class_key(cs@[keys@[t].2 as int], cm@[keys@[t].2 as int]@.len(), keys@[t].2)),
            forall|k2: int| 0 <= k2 < k && cm@[k2]@.len() >= 2 ==> keys@.contains(
                #[trigger] class_key(cs@[k2], cm@[k2]@.len(), k2 as u64),
            ),
        decreases cs@.len() - k,
    {
        let len = cm[k].len();
        if len >= 2 {
            let pot = cs[k].wrapping_mul((len - 1) as u64);
            let ghost before = keys@;
            keys.push((u64::MAX - pot, u64::MAX - cs[k], k as u64));
            assert(keys@.last() == class_key(cs@[k as int], cm@[k as int]@.len(), k as u64));
            assert forall|k2: int| 0 <= k2 < k + 1 && cm@[k2]@.len() >= 2 implies keys@.contains(
                #[trigger] class_key(cs@[k2], cm@[k2]@.len(), k2 as u64),
            ) by {
                if k2 < k {
                    let t = choose|t: int| 0 <= t < before.len() && before[t] == class_key(cs@[k2], cm@[k2]@.len(), k2 as u64);
                    assert(keys@[t] == before[t]);
                } else {
                    assert(keys@[keys@.len() - 1] == class_key(cs@[k2], cm@[k2]@.len(), k2 as u64));
                }
            }
        }
        k += 1;
    }
    let ghost built = keys@;
    let ghost cm0 = cm@;
    sort_triples(&mut keys);
    proof {
        broadcast use vstd::seq_lib::group_to_multiset_ensures;
        assert forall|t: int| 0 <= t < keys@.len() implies built.contains(#[trigger] keys@[t]) by {
            assert(keys@.to_multiset().contains(keys@[t]));
        }
        assert forall|x: (u64, u64, u64)| built.contains(x) implies #[trigger] keys@.contains(x) by {
            assert(built.to_multiset().contains(x));
        }
    }
    let mut used: Vec<bool> = Vec::new();
    let mut z: usize = 0;
    while z < cs.len()
        invariant
            z <= cs@.len(),
            cm0 == cm@,
            cm0.len() == cs@.len(),
            forall|k2: int| 0 <= k2 < cs@.len() && cm0[k2]@.len() >= 2 ==> built.contains(
                #[trigger] class_key(cs@[k2], cm0[k2]@.len(), k2 as u64),
            ),
            forall|k2: int| 0 <= k2 < cs@.len() ==> (#[trigger] cm0[k2])@ == members(sizes@, ok@, cs@[k2], sizes@.len() as int),
            forall|k2: int| 0 <= k2 < cs@.len() ==> (#[trigger] cs@[k2]) >= MIN_INTERESTING_SIZE,
            forall|k2: int| 0 <= k2 < cs@.len() ==> pos@.contains_key(#[trigger] cs@[k2]) && pos@[cs@[k2]] == k2,
            forall|x: u64| #[trigger] pos@.contains_key(x) ==> pos@[x] < cs@.len() && cs@[pos@[x] as int] == x,
            forall|j: int| 0 <= j < sizes@.len() && eligible(sizes@, ok@, j) ==> #[trigger] pos@.contains_key(sizes@[j]),
            used@.len() == z,
            forall|c: int| 0 <= c < z ==> !(#[trigger] used@[c]),
        decreases cs@.len() - z,
    {
        used.push(false);
        z += 1;
    }
    let mut out: Vec<(u64, Vec<u32>)> = Vec::new();
    let ghost mut ids: Seq<int> = Seq::empty();
    let ghost mut tp: Seq<int> = Seq::empty();
    let mut t: usize = 0;
    while t < keys.len()
        invariant
            cs@.len() == cm@.len(),
            cm0.len() == cm@.len(),
            forall|k2: int| 0 <= k2 < cs@.len() && cm0[k2]@.len() >= 2 ==> built.contains(
                #[trigger] class_key(cs@[k2], cm0[k2]@.len(), k2 as u64),
            ),
            forall|k2: int| 0 <= k2 < cs@.len() ==> (#[trigger] cm0[k2])@ == members(sizes@, ok@, cs@[k2], sizes@.len() as int),
            forall|k2: int| 0 <= k2 < cs@.len() ==> (#[trigger] cs@[k2]) >= MIN_INTERESTING_SIZE,
            forall|k2: int| 0 <= k2 < cs@.len() ==> pos@.contains_key(#[trigger] cs@[k2]) && pos@[cs@[k2]] == k2,
            forall|x: u64| #[trigger] pos@.contains_key(x) ==> pos@[x] < cs@.len() && cs@[pos@[x] as int] == x,
            forall|j: int| 0 <= j < sizes@.len() && eligible(sizes@, ok@, j) ==> #[trigger] pos@.contains_key(sizes@[j]),
            used@.len() == cs@.len(),
            t <= keys@.len(),
            triples_sorted(keys@),
            forall|t2: int| 0 <= t2 < keys@.len() ==> built.contains(#[trigger] keys@[t2]),
            forall|x: int|
                0 <= x < built.len() ==> ((#[trigger] built[x]).2 < cs@.len() && cm0[built[x].2 as int]@.len() >= 2
                    && built[x] == class_key(cs@[built[x].2 as int], cm0[built[x].2 as int]@.len(), built[x].2)),
            forall|c: int| 0 <= c < cs@.len() && !used@[c] ==> (#[trigger] cm@[c]) == cm0[c],
            ids.len() == out@.len(),
            tp.len() == out@.len(),
            forall|p: int|
                0 <= p < out@.len() ==> {
                    &&& 0 <= #[trigger] ids[p] < cs@.len()
                    &&& used@[ids[p]]
                    &&& out@[p].0 == cs@[ids[p]]
                    &&& out@[p].1@ == cm0[ids[p]]@
                    &&& cm0[ids[p]]@.len() >= 2
                    &&& 0 <= tp[p] < t
                    &&& keys@[tp[p]].2 == ids[p]
                },
            forall|p: int, q: int| 0 <= p < q < out@.len() ==> #[trigger] tp[p] < #[trigger] tp[q],
            forall|p: int, q: int| 0 <= p < q < out@.len() ==> #[trigger] ids[p] != #[trigger] ids[q],
            forall|c: int| 0 <= c < cs@.len() && #[trigger] used@[c] ==> exists|p: int| 0 <= p < ids.len() && ids[p] == c,
            forall|t2: int| 0 <= t2 < t ==> #[trigger] used@[keys@[t2].2 as int],
        decreases keys@.len() - t,
    {
        let key = keys[t];
        proof {
            assert(built.contains(keys@[t as int]));
        }
        let c = key.2 as usize;
        if !used[c] {
            used.set(c, true);
            let mut v: Vec<u32> = Vec::new();
            std::mem::swap(&mut v, &mut cm[c]);
            out.push((cs[c], v));
            proof {
                let ids0 = ids;
                let tp0 = tp;
                ids = ids.push(c as int);
                tp = tp.push(t as int);
                assert forall|p: int|
                    0 <= p < out@.len() implies {
                        &&& 0 <= #[trigger] ids[p] < cs@.len()
                        &&& used@[ids[p]]
                        &&& out@[p].0 == cs@[ids[p]]
                        &&& out@[p].1@ == cm0[ids[p]]@
                        &&& cm0[ids[p]]@.len() >= 2
                        &&& 0 <= tp[p] < t + 1
                        &&& keys@[tp[p]].2 == ids[p]
                    } by {
                    if p < out@.len() - 1 {
                        assert(ids[p] == ids0[p]);
                        assert(0 <= ids0[p] < cs@.len());
                        assert(tp[p] == tp0[p]);
                    } else {
                        assert(built.contains(keys@[t as int]));
                        let x = choose|x: int| 0 <= x < built.len() && built[x] == keys@[t as int];
                        assert(built[x].2 < cs@.len());
                    }
                }
                assert forall|p: int, q: int| 0 <= p < q < out@.len() implies #[trigger] tp[p] < #[trigger] tp[q] by {
                    if q < out@.len() - 1 {
                        assert(tp[p] == tp0[p] && tp[q] == tp0[q]);
                    } else {
                        assert(tp[p] == tp0[p]);
                        assert(0 <= ids0[p] < cs@.len());
                    }
                }
                assert forall|c2: int| 0 <= c2 < cs@.len() && #[trigger] used@[c2] implies exists|p: int| 0 <= p < ids.len() && ids[p] == c2 by {
                    if c2 == c {
                        assert(ids[ids.len() - 1] == c2);
                    } else {
                        let p = choose|p: int| 0 <= p < ids0.len() && ids0[p] == c2;
                        assert(ids[p] == c2);
                    }
                }
            }
        }
        t += 1;
    }
    proof {
        assert forall|p: int|
            0 <= p < out@.len() implies {
                &&& (#[trigger] out@[p]).0 >= MIN_INTERESTING_SIZE
                &&& out@[p].1@ == members(sizes@, ok@, out@[p].0, sizes@.len() as int)
                &&& out@[p].1@.len() >= 2
            } by {
            assert(0 <= ids[p] < cs@.len());
        }
        assert forall|i: int|
            0 <= i < sizes@.len() && eligible(sizes@, ok@, i) && members(sizes@, ok@, sizes@[i], sizes@.len() as int).len()
                >= 2 implies exists|p: int| 0 <= p < out@.len() && (#[trigger] out@[p]).0 == sizes@[i] by {
            assert(pos@.contains_key(sizes@[i]));
            let c = pos@[sizes@[i]] as int;
            assert(cs@[c] == sizes@[i]);
            let x = class_key(cs@[c], cm0[c]@.len(), c as u64);
            assert(built.contains(x));
            assert(keys@.contains(x));
            let t2 = choose|t2: int| 0 <= t2 < keys@.len() && keys@[t2] == x;
            assert(used@[keys@[t2].2 as int]);
            let p = choose|p: int| 0 <= p < ids.len() && ids[p] == c;
            assert(out@[p].0 == sizes@[i]);
        }
        assert forall|p: int, q: int| 0 <= p < q < out@.len() implies (#[trigger] out@[p]).0 != (#[trigger] out@[q]).0 by {
            assert(ids[p] != ids[q]);
            assert(pos@[cs@[ids[p]]] == ids[p]);
            assert(pos@[cs@[ids[q]]] == ids[q]);
        }
        assert forall|p: int, q: int|
            0 <= p < q < out@.len() implies triple_le(
                class_key((#[trigger] out@[p]).0, out@[p].1@.len(), 0),
                class_key((#[trigger] out@[q]).0, out@[q].1@.len(), 0),
            ) by {
            assert(0 <= ids[p] < cs@.len());
            assert(0 <= ids[q] < cs@.len());
            assert(tp[p] < tp[q]);
            assert(triple_le(keys@[tp[p]], keys@[tp[q]]));
            assert(built.contains(keys@[tp[p]]));
            assert(built.contains(keys@[tp[q]]));
        }
    }
    out
}

// ---------------------------------------------------------------------------
// Tier 2: groups by fingerprint.

/// One size class after fingerprinting: the entries that could be read, in
/// index order, each with its fingerprint.
#[derive(Debug, Clone)]
pub struct Sampled {
    pub size: u64,
    pub found: Vec<(u32, [u8; 32])>,
}

/// The entries of `found` whose fingerprint is `fp`, in order.
pub open spec fn fp_members(found: Seq<(u32, [u8; 32])>, fp: Seq<u8>) -> Seq<u32>
    decreases found.len(),
{
    if found.len() == 0 {
        Seq::empty()
    } else if found.last().1@ == fp {
        fp_members(found.drop_last(), fp).push(found.last().0)
    } else {
        fp_members(found.drop_last(), fp)
    }
}

/// Entry `j` is the first in `found` with its fingerprint.
pub open spec fn first_of(found: Seq<(u32, [u8; 32])>, j: int) -> bool {
    forall|j2: int| 0 <= j2 < j ==> (#[trigger] found[j2]).1@ != found[j].1@
}

/// The group the fingerprint of entry `j` of class `c` makes: its size, its
/// entries, what it wastes.
pub open spec fn group_at(classes: Seq<Sampled>, c: int, j: int) -> (u64, Seq<u32>, u64) {
    let f = classes[c].found@;
    let m = fp_members(f, f[j].1@);
    (classes[c].size, m, wasted_of(classes[c].size, m.len()))
}

pub open spec fn group_view(g: DuplicateGroup) -> (u64, Seq<u32>, u64) {
    (g.size, g.entries@, g.wasted)
}

/// Entries ascending within each class, and no entry in two places.
pub open spec fn well_sampled(classes: Seq<Sampled>) -> bool {
    &&& forall|c: int, j1: int, j2: int|
        0 <= c < classes.len() && 0 <= j1 < j2 < classes[c].found@.len() ==> (#[trigger] classes[c].found@[j1]).0
            < (#[trigger] classes[c].found@[j2]).0
    &&& forall|c1: int, j1: int, c2: int, j2: int|
        0 <= c1 < classes.len() && 0 <= c2 < classes.len() && c1 != c2 && 0 <= j1 < classes[c1].found@.len() && 0 <= j2
            < classes[c2].found@.len() ==> (#[trigger] classes[c1].found@[j1]).0 != (#[trigger] classes[c2].found@[j2]).0
}

/// The sort key of candidate group `k`: most waste first, then first entry.
pub open spec fn group_key(g: DuplicateGroup, k: u64) -> (u64, u64, u64) {
    ((u64::MAX - g.wasted) as u64, g.entries@[0] as u64, k)
}

/// Groups first by what they waste, most first; then by first entry.
pub open spec fn group_before(a: DuplicateGroup, b: DuplicateGroup) -> bool {
    a.wasted > b.wasted || (a.wasted == b.wasted && a.entries@[0] <= b.entries@[0])
}

proof fn lemma_members_below(found: Seq<(u32, [u8; 32])>, fp: Seq<u8>, bound: u32)
    requires
        forall|j: int| 0 <= j < found.len() ==> (#[trigger] found[j]).0 < bound,
    ensures
        forall|k: int| 0 <= k < fp_members(found, fp).len() ==> #[trigger] fp_members(found, fp)[k] < bound,
    decreases found.len(),
{
    if found.len() > 0 {
        let d = found.drop_last();
        assert forall|j: int| 0 <= j < d.len() implies (#[trigger] d[j]).0 < bound by {
            assert(d[j] == found[j]);
        }
        lemma_members_below(d, fp, bound);
        assert(found[found.len() - 1] == found.last());
        let r = fp_members(d, fp);
        if found.last().1@ == fp {
            assert(fp_members(found, fp) == r.push(found.last().0));
            assert forall|k: int| 0 <= k < r.push(found.last().0).len() implies #[trigger] r.push(found.last().0)[k] < bound by {
                if k < r.len() {
                    assert(r.push(found.last().0)[k] == r[k]);
                }
            }
        } else {
            assert(fp_members(found, fp) == r);
        }
    }
}

proof fn lemma_members_absent(found: Seq<(u32, [u8; 32])>, fp: Seq<u8>)
    requires
        forall|j: int| 0 <= j < found.len() ==> (#[trigger] found[j]).1@ != fp,
    ensures
        fp_members(found, fp).len() == 0,
    decreases found.len(),
{
    if found.len() > 0 {
        let d = found.drop_last();
        assert forall|j: int| 0 <= j < d.len() implies (#[trigger] d[j]).1@ != fp by {
            assert(d[j] == found[j]);
        }
        lemma_members_absent(d, fp);
        assert(found[found.len() - 1] == found.last());
    }
}

/// The first member of the group of a first occurrence is that entry.
proof fn lemma_first_member(found: Seq<(u32, [u8; 32])>, j: int)
    requires
        0 <= j < found.len(),
        first_of(found, j),
    ensures
        fp_members(found, found[j].1@).len() >= 1,
        fp_members(found, found[j].1@)[0] == found[j].0,
    decreases found.len(),
{
    let fp = found[j].1@;
    if j == found.len() - 1 {
        assert forall|j2: int| 0 <= j2 < found.drop_last().len() implies (#[trigger] found.drop_last()[j2]).1@ != fp by {
            assert(found.drop_last()[j2] == found[j2]);
        }
        lemma_members_absent(found.drop_last(), fp);
        assert(fp_members(found.drop_last(), fp) =~= Seq::<u32>::empty());
    } else {
        assert forall|j2: int| 0 <= j2 < j implies (#[trigger] found.drop_last()[j2]).1@ != found.drop_last()[j].1@ by {
            assert(found.drop_last()[j2] == found[j2]);
        }
        lemma_first_member(found.drop_last(), j);
        assert(found.drop_last()[j] == found[j]);
    }
}

proof fn lemma_fp_members_sorted(found: Seq<(u32, [u8; 32])>, fp: Seq<u8>)
    requires
        forall|j1: int, j2: int| 0 <= j1 < j2 < found.len() ==> (#[trigger] found[j1]).0 < (#[trigger] found[j2]).0,
    ensures
        forall|a: int, b: int|
            0 <= a < b < fp_members(found, fp).len() ==> (#[trigger] fp_members(found, fp)[a]) < (
            #[trigger] fp_members(found, fp)[b]),
    decreases found.len(),
{
    if found.len() > 0 {
        let d = found.drop_last();
        assert forall|j1: int, j2: int| 0 <= j1 < j2 < d.len() implies (#[trigger] d[j1]).0 < (#[trigger] d[j2]).0 by {
            assert(d[j1] == found[j1] && d[j2] == found[j2]);
        }
        lemma_fp_members_sorted(d, fp);
        let last = found.last().0;
        assert forall|j: int| 0 <= j < d.len() implies (#[trigger] d[j]).0 < last by {
            assert(d[j] == found[j]);
            assert(found[found.len() - 1] == found.last());
        }
        lemma_members_below(d, fp, last);
        let r = fp_members(d, fp);
        if found.last().1@ == fp {
            assert(fp_members(found, fp) == r.push(last));
            assert forall|a: int, b: int| 0 <= a < b < r.push(last).len() implies (#[trigger] r.push(last)[a]) < (
            #[trigger] r.push(last)[b]) by {
                if b == r.len() {
                    assert(r[a] < last);
                } else {
                    assert(r.push(last)[a] == r[a] && r.push(last)[b] == r[b]);
                }
            }
        }
    }
}

/// The group the fingerprint of entry `j` makes within a class of `size`.
pub open spec fn group_of(size: u64, f: Seq<(u32, [u8; 32])>, j: int) -> (u64, Seq<u32>, u64) {
    let m = fp_members(f, f[j].1@);
    (size, m, wasted_of(size, m.len()))
}

/// The candidate groups of one class, in order of first occurrence, with
/// where each first occurs.
fn groups_of_class(cl: &Sampled) -> (r: (Vec<DuplicateGroup>, Ghost<Seq<int>>))
    ensures
        r.1@.len() == r.0@.len(),
        forall|g: int|
            0 <= g < r.0@.len() ==> {
                &&& 0 <= #[trigger] r.1@[g] < cl.found@.len()
                &&& first_of(cl.found@, r.1@[g])
                &&& group_view(r.0@[g]) == group_of(cl.size, cl.found@, r.1@[g])
                &&& r.0@[g].entries@.len() >= 2
            },
        forall|j: int|
            0 <= j < cl.found@.len() && first_of(cl.found@, j) && (#[trigger] group_of(cl.size, cl.found@, j)).1.len()
                >= 2 ==> exists|g: int| 0 <= g < r.1@.len() && r.1@[g] == j,
        forall|g1: int, g2: int| 0 <= g1 < g2 < r.1@.len() ==> #[trigger] r.1@[g1] < #[trigger] r.1@[g2],
{
    let n = cl.found.len();
    let mut gs: Vec<DuplicateGroup> = Vec::new();
    let ghost mut at: Seq<int> = Seq::empty();
    let mut j: usize = 0;
    while j < n
        invariant
            n == cl.found@.len(),
            j <= n,
            at.len() == gs@.len(),
            forall|g: int|
                0 <= g < gs@.len() ==> {
                    &&& 0 <= #[trigger] at[g] < j
                    &&& first_of(cl.found@, at[g])
                    &&& group_view(gs@[g]) == group_of(cl.size, cl.found@, at[g])
                    &&& gs@[g].entries@.len() >= 2
                },
            forall|j2: int|
                0 <= j2 < j && first_of(cl.found@, j2) && (#[trigger] group_of(cl.size, cl.found@, j2)).1.len() >= 2
                    ==> exists|g: int| 0 <= g < at.len() && at[g] == j2,
            forall|g1: int, g2: int| 0 <= g1 < g2 < at.len() ==> #[trigger] at[g1] < #[trigger] at[g2],
        decreases n - j,
    {
        let fp = &cl.found[j].1;
        let mut first = true;
        let mut j2: usize = 0;
        while j2 < j
            invariant
                j < n,
                n == cl.found@.len(),
                j2 <= j,
                *fp == cl.found@[j as int].1,
                first == (forall|j3: int| 0 <= j3 < j2 ==> (#[trigger] cl.found@[j3]).1@ != fp@),
            decreases j - j2,
        {
            if bytes_eq(cl.found[j2].1.as_slice(), fp.as_slice()) {
                first = false;
            }
            j2 += 1;
        }
        if first {
            let mut m: Vec<u32> = Vec::new();
            let mut j3: usize = 0;
            while j3 < n
                invariant
                    n == cl.found@.len(),
                    j3 <= n,
                    j < n,
                    *fp == cl.found@[j as int].1,
                    m@ == fp_members(cl.found@.subrange(0, j3 as int), fp@),
                decreases n - j3,
            {
                assert(cl.found@.subrange(0, j3 + 1).drop_last() =~= cl.found@.subrange(0, j3 as int));
                if bytes_eq(cl.found[j3].1.as_slice(), fp.as_slice()) {
                    m.push(cl.found[j3].0);
                }
                j3 += 1;
            }
            assert(cl.found@.subrange(0, n as int) =~= cl.found@);
            let count = m.len();
            if count >= 2 {
                let size = cl.size;
                let wasted = size.wrapping_mul((count - 1) as u64);
                let ghost at0 = at;
                gs.push(DuplicateGroup { size, entries: m, wasted });
                proof {
                    at = at.push(j as int);
                    assert forall|g: int|
                        0 <= g < gs@.len() implies {
                            &&& 0 <= #[trigger] at[g] < j + 1
                            &&& first_of(cl.found@, at[g])
                            &&& group_view(gs@[g]) == group_of(cl.size, cl.found@, at[g])
                            &&& gs@[g].entries@.len() >= 2
                        } by {
                        if g < gs@.len() - 1 {
                            assert(at[g] == at0[g]);
                        }
                    }
                    assert forall|g1: int, g2: int| 0 <= g1 < g2 < at.len() implies #[trigger] at[g1] < #[trigger] at[g2] by {
                        if g2 < at.len() - 1 {
                            assert(at[g1] == at0[g1] && at[g2] == at0[g2]);
                        } else {
                            assert(at[g1] == at0[g1]);
                            assert(0 <= at0[g1] < j);
                        }
                    }
                    assert forall|j4: int|
                        0 <= j4 < j + 1 && first_of(cl.found@, j4) && (#[trigger] group_of(cl.size, cl.found@, j4)).1.len()
                            >= 2 implies exists|g: int| 0 <= g < at.len() && at[g] == j4 by {
                        if j4 < j {
                            let g = choose|g: int| 0 <= g < at0.len() && at0[g] == j4;
                            assert(at[g] == j4);
                        } else {
                            assert(at[at.len() - 1] == j4);
                        }
                    }
                }
            }
        }
        j += 1;
    }
    (gs, Ghost(at))
}

/// Every candidate group in `gs` with a class below `c` comes from the first
/// occurrence `src[g]` of a fingerprint, no two from the same one, and every
/// such occurrence in those classes that makes a group has one.
pub open spec fn groups_upto(classes: Seq<Sampled>, gs: Seq<DuplicateGroup>, src: Seq<(int, int)>, c: int) -> bool {
    &&& src.len() == gs.len()
    &&& forall|g: int|
        0 <= g < gs.len() ==> {
            &&& 0 <= (#[trigger] src[g]).0 < c
            &&& c <= classes.len()
            &&& 0 <= src[g].1 < classes[src[g].0].found@.len()
            &&& first_of(classes[src[g].0].found@, src[g].1)
            &&& group_view(gs[g]) == group_of(classes[src[g].0].size, classes[src[g].0].found@, src[g].1)
            &&& gs[g].entries@.len() >= 2
        }
    &&& forall|c2: int, j: int|
        0 <= c2 < c && 0 <= j < classes[c2].found@.len() && first_of(classes[c2].found@, j) && (#[trigger] group_of(
            classes[c2].size,
            classes[c2].found@,
            j,
        )).1.len() >= 2 ==> exists|g: int| 0 <= g < gs.len() && src[g] == (c2, j)
    &&& forall|g1: int, g2: int| 0 <= g1 < g2 < gs.len() ==> #[trigger] src[g1] != #[trigger] src[g2]
}

fn candidate_groups(classes: &[Sampled]) -> (r: (Vec<DuplicateGroup>, Ghost<Seq<(int, int)>>))
    ensures
        groups_upto(classes@, r.0@, r.1@, classes@.len() as int),
{
    let mut gs: Vec<DuplicateGroup> = Vec::new();
    let ghost mut src: Seq<(int, int)> = Seq::empty();
    let mut c: usize = 0;
    while c < classes.len()
        invariant
            c <= classes@.len(),
            groups_upto(classes@, gs@, src, c as int),
        decreases classes@.len() - c,
    {
        let (mut cg, Ghost(at)) = groups_of_class(&classes[c]);
        let ghost gs0 = gs@;
        let ghost src0 = src;
        let ghost cg0 = cg@;
        gs.append(&mut cg);
        proof {
            src = src0 + at.map_values(|j: int| (c as int, j));
            assert(gs@ == gs0 + cg0);
            assert forall|g: int|
                0 <= g < gs@.len() implies {
                    &&& 0 <= (#[trigger] src[g]).0 < c + 1
                    &&& c + 1 <= classes@.len()
                    &&& 0 <= src[g].1 < classes@[src[g].0].found@.len()
                    &&& first_of(classes@[src[g].0].found@, src[g].1)
                    &&& group_view(gs@[g]) == group_of(classes@[src[g].0].size, classes@[src[g].0].found@, src[g].1)
                    &&& gs@[g].entries@.len() >= 2
                } by {
                if g < gs0.len() {
                    assert(src[g] == src0[g]);
                    assert(gs@[g] == gs0[g]);
                } else {
                    assert(src[g] == (c as int, at[g - gs0.len()]));
                    assert(gs@[g] == cg0[g - gs0.len()]);
                    assert(0 <= at[g - gs0.len()] < classes@[c as int].found@.len());
                }
            }
            assert forall|c2: int, j: int|
                0 <= c2 < c + 1 && 0 <= j < classes@[c2].found@.len() && first_of(classes@[c2].found@, j) && (
                #[trigger] group_of(classes@[c2].size, classes@[c2].found@, j)).1.len() >= 2 implies exists|g: int|
                0 <= g < gs@.len() && src[g] == (c2, j) by {
                if c2 < c {
                    let g = choose|g: int| 0 <= g < gs0.len() && src0[g] == (c2, j);
                    assert(src[g] == src0[g]);
                } else {
                    let g = choose|g: int| 0 <= g < at.len() && at[g] == j;
                    assert(src[gs0.len() + g] == (c2, j));
                }
            }
            assert forall|g1: int, g2: int| 0 <= g1 < g2 < gs@.len() implies #[trigger] src[g1] != #[trigger] src[g2] by {
                if g2 < gs0.len() {
                    assert(src[g1] == src0[g1] && src[g2] == src0[g2]);
                } else if g1 < gs0.len() {
                    assert(src[g1] == src0[g1]);
                    assert(src0[g1].0 < c);
                } else {
                    assert(at[g1 - gs0.len()] < at[g2 - gs0.len()]);
                }
            }
        }
        c += 1;
    }
    (gs, Ghost(src))
}

/// Position `g` appears in `ids`.
pub open spec fn listed(ids: Seq<int>, g: int) -> bool {
    exists|p: int| 0 <= p < ids.len() && ids[p] == g
}

/// `gs` in order: most waste first, then first entry; every group once.
fn order_groups(gs: Vec<DuplicateGroup>) -> (r: (Vec<DuplicateGroup>, Ghost<Seq<int>>))
    requires
        forall|g: int| 0 <= g < gs@.len() ==> (#[trigger] gs@[g]).entries@.len() >= 1,
    ensures
        r.1@.len() == r.0@.len(),
        forall|p: int| 0 <= p < r.0@.len() ==> 0 <= #[trigger] r.1@[p] < gs@.len() && r.0@[p] == gs@[r.1@[p]],
        forall|p: int, q: int| 0 <= p < q < r.0@.len() ==> #[trigger] r.1@[p] != #[trigger] r.1@[q],
        forall|g: int| 0 <= g < gs@.len() ==> #[trigger] listed(r.1@, g),
        forall|p: int, q: int| 0 <= p < q < r.0@.len() ==> group_before(#[trigger] r.0@[p], #[trigger] r.0@[q]),
{
    let mut gs = gs;
    let ghost gs0 = gs@;
    let mut keys: Vec<(u64, u64, u64)> = Vec::new();
    let mut g: usize = 0;
    while g < gs.len()
        invariant
            gs@ == gs0,
            g <= gs@.len(),
            forall|g2: int| 0 <= g2 < gs@.len() ==> (#[trigger] gs@[g2]).entries@.len() >= 1,
            forall|t: int|
                0 <= t < keys@.len() ==> ((#[trigger] keys@[t]).2 < g && keys@[t] == group_key(gs@[keys@[t].2 as int], keys@[t].2)),
            forall|g2: int| 0 <= g2 < g ==> keys@.contains(#[trigger] group_key(gs@[g2], g2 as u64)),
        decreases gs@.len() - g,
    {
        let ghost before = keys@;
        keys.push((u64::MAX - gs[g].wasted, gs[g].entries[0] as u64, g as u64));
        assert forall|g2: int| 0 <= g2 < g + 1 implies keys@.contains(#[trigger] group_key(gs@[g2], g2 as u64)) by {
            if g2 < g {
                let t = choose|t: int| 0 <= t < before.len() && before[t] == group_key(gs@[g2], g2 as u64);
                assert(keys@[t] == before[t]);
            } else {
                assert(keys@[keys@.len() - 1] == group_key(gs@[g2], g2 as u64));
            }
        }
        g += 1;
    }
    let ghost built = keys@;
    sort_triples(&mut keys);
    proof {
        broadcast use vstd::seq_lib::group_to_multiset_ensures;
        assert forall|t: int| 0 <= t < keys@.len() implies built.contains(#[trigger] keys@[t]) by {
            assert(keys@.to_multiset().contains(keys@[t]));
        }
        assert forall|x: (u64, u64, u64)| built.contains(x) implies #[trigger] keys@.contains(x) by {
            assert(built.to_multiset().contains(x));
        }
    }
    assert(gs0.len() == gs.len());
    let mut used: Vec<bool> = Vec::new();
    let mut z: usize = 0;
    while z < gs.len()
        invariant
            z <= gs@.len(),
            used@.len() == z,
            forall|g2: int| 0 <= g2 < z ==> !(#[trigger] used@[g2]),
        decreases gs@.len() - z,
    {
        used.push(false);
        z += 1;
    }
    let mut out: Vec<DuplicateGroup> = Vec::new();
    let ghost mut ids: Seq<int> = Seq::empty();
    let ghost mut tp: Seq<int> = Seq::empty();
    let mut t: usize = 0;
    while t < keys.len()
        invariant
            gs0.len() == gs@.len(),
            gs0.len() <= usize::MAX,
            used@.len() == gs@.len(),
            t <= keys@.len(),
            triples_sorted(keys@),
            forall|t2: int| 0 <= t2 < keys@.len() ==> built.contains(#[trigger] keys@[t2]),
            forall|x: int|
                0 <= x < built.len() ==> ((#[trigger] built[x]).2 < gs0.len() && built[x] == group_key(
                    gs0[built[x].2 as int],
                    built[x].2,
                )),
            forall|g2: int| 0 <= g2 < gs0.len() ==> built.contains(#[trigger] group_key(gs0[g2], g2 as u64)),
            forall|g2: int| 0 <= g2 < gs0.len() && !used@[g2] ==> (#[trigger] gs@[g2]) == gs0[g2],
            ids.len() == out@.len(),
            tp.len() == out@.len(),
            forall|p: int|
                0 <= p < out@.len() ==> {
                    &&& 0 <= #[trigger] ids[p] < gs0.len()
                    &&& used@[ids[p]]
                    &&& out@[p] == gs0[ids[p]]
                    &&& 0 <= tp[p] < t
                    &&& keys@[tp[p]].2 == ids[p]
                },
            forall|p: int, q: int| 0 <= p < q < out@.len() ==> #[trigger] tp[p] < #[trigger] tp[q],
            forall|p: int, q: int| 0 <= p < q < out@.len() ==> #[trigger] ids[p] != #[trigger] ids[q],
            forall|g2: int| 0 <= g2 < gs0.len() && #[trigger] used@[g2] ==> exists|p: int| 0 <= p < ids.len() && ids[p] == g2,
            forall|t2: int| 0 <= t2 < t ==> #[trigger] used@[keys@[t2].2 as int],
        decreases keys@.len() - t,
    {
        let key = keys[t];
        proof {
            assert(built.contains(keys@[t as int]));
            let x = choose|x: int| 0 <= x < built.len() && built[x] == keys@[t as int];
            assert(keys@[t as int].2 < gs0.len());
            assert(key == keys@[t as int]);
            assert(key.2 < usize::MAX);
        }
        let k = key.2 as usize;
        assert(k as int == key.2 as int);
        if !used[k] {
            let ghost used0 = used@;
            used.set(k, true);
            let mut e: Vec<u32> = Vec::new();
            std::mem::swap(&mut e, &mut gs[k].entries);
            out.push(DuplicateGroup { size: gs[k].size, entries: e, wasted: gs[k].wasted });
            proof {
                let ids0 = ids;
                let tp0 = tp;
                ids = ids.push(k as int);
                tp = tp.push(t as int);
                assert(out@.last() == gs0[k as int]);
                assert(key.2 as int == k as int);
                assert(used@[k as int]);
                assert forall|p: int|
                    0 <= p < out@.len() implies {
                        &&& 0 <= #[trigger] ids[p] < gs0.len()
                        &&& used@[ids[p]]
                        &&& out@[p] == gs0[ids[p]]
                        &&& 0 <= tp[p] < t + 1
                        &&& keys@[tp[p]].2 == ids[p]
                    } by {
                    if p < out@.len() - 1 {
                        assert(ids[p] == ids0[p]);
                        assert(0 <= ids0[p] < gs0.len());
                        assert(used0[ids0[p]]);
                        assert(tp[p] == tp0[p]);
                    } else {
                        assert(ids[p] == k as int);
                        assert(tp[p] == t as int);
                    }
                }
                assert forall|p: int, q: int| 0 <= p < q < out@.len() implies #[trigger] tp[p] < #[trigger] tp[q] by {
                    if q < out@.len() - 1 {
                        assert(tp[p] == tp0[p] && tp[q] == tp0[q]);
                    } else {
                        assert(tp[p] == tp0[p]);
                        assert(0 <= ids0[p] < gs0.len());
                    }
                }
                assert forall|p: int, q: int| 0 <= p < q < out@.len() implies #[trigger] ids[p] != #[trigger] ids[q] by {
                    if q == out@.len() - 1 {
                        assert(ids[p] == ids0[p]);
                        assert(0 <= ids0[p] < gs0.len());
                    } else {
                        assert(ids[p] == ids0[p] && ids[q] == ids0[q]);
                    }
                }
                assert forall|g2: int| 0 <= g2 < gs0.len() && #[trigger] used@[g2] implies exists|p: int|
                    0 <= p < ids.len() && ids[p] == g2 by {
                    if g2 == k {
                        assert(ids[ids.len() - 1] == g2);
                    } else {
                        let p = choose|p: int| 0 <= p < ids0.len() && ids0[p] == g2;
                        assert(ids[p] == g2);
                    }
                }
                assert forall|t2: int| 0 <= t2 < t + 1 implies #[trigger] used@[keys@[t2].2 as int] by {
                    if t2 < t {
                        assert(used0[keys@[t2].2 as int]);
                    } else {
                        assert(keys@[t2].2 as int == k as int);
                    }
                }
            }
        }
        t += 1;
    }
    proof {
        assert forall|g2: int| 0 <= g2 < gs0.len() implies #[trigger] listed(ids, g2) by {
            let x = group_key(gs0[g2], g2 as u64);
            assert(keys@.contains(x));
            let t2 = choose|t2: int| 0 <= t2 < keys@.len() && keys@[t2] == x;
            assert(used@[keys@[t2].2 as int]);
        }
        assert forall|p: int, q: int| 0 <= p < q < out@.len() implies group_before(#[trigger] out@[p], #[trigger] out@[q]) by {
            assert(0 <= ids[p] < gs0.len());
            assert(0 <= ids[q] < gs0.len());
            assert(tp[p] < tp[q]);
            assert(triple_le(keys@[tp[p]], keys@[tp[q]]));
            assert(built.contains(keys@[tp[p]]));
            assert(built.contains(keys@[tp[q]]));
        }
    }
    (out, Ghost(ids))
}

/// A group that the fingerprint of some entry of some class makes, with two
/// or more members.
pub open spec fn made_by(classes: Seq<Sampled>, v: (u64, Seq<u32>, u64)) -> bool {
    exists|c: int, j: int|
        0 <= c < classes.len() && 0 <= j < classes[c].found@.len() && first_of(classes[c].found@, j) && v
            == #[trigger] group_at(classes, c, j) && v.1.len() >= 2
}

/// What [`order_groups`] hands back of candidate groups.
pub open spec fn picks(gs: Seq<DuplicateGroup>, out: Seq<DuplicateGroup>, ids: Seq<int>) -> bool {
    &&& ids.len() == out.len()
    &&& forall|p: int| 0 <= p < out.len() ==> 0 <= #[trigger] ids[p] < gs.len() && out[p] == gs[ids[p]]
    &&& forall|p: int, q: int| 0 <= p < q < out.len() ==> #[trigger] ids[p] != #[trigger] ids[q]
    &&& forall|g: int| 0 <= g < gs.len() ==> #[trigger] listed(ids, g)
}

proof fn lemma_groups_found(
    classes: Seq<Sampled>,
    gs: Seq<DuplicateGroup>,
    src: Seq<(int, int)>,
    out: Seq<DuplicateGroup>,
    ids: Seq<int>,
)
    requires
        groups_upto(classes, gs, src, classes.len() as int),
        picks(gs, out, ids),
    ensures
        forall|p: int| 0 <= p < out.len() ==> made_by(classes, group_view(#[trigger] out[p])),
        forall|c: int, j: int|
            0 <= c < classes.len() && 0 <= j < classes[c].found@.len() && first_of(classes[c].found@, j) && (
            #[trigger] group_at(classes, c, j)).1.len() >= 2 ==> exists|p: int|
                0 <= p < out.len() && group_view(out[p]) == group_at(classes, c, j),
{
    assert forall|p: int| 0 <= p < out.len() implies made_by(classes, group_view(#[trigger] out[p])) by {
        assert(0 <= ids[p] < gs.len());
        let (c, j) = src[ids[p]];
        assert(0 <= c < classes.len() && 0 <= j < classes[c].found@.len() && first_of(classes[c].found@, j));
        assert(group_view(out[p]) == group_at(classes, c, j));
        assert(out[p].entries@.len() >= 2);
    }
    assert forall|c: int, j: int|
        0 <= c < classes.len() && 0 <= j < classes[c].found@.len() && first_of(classes[c].found@, j) && (
        #[trigger] group_at(classes, c, j)).1.len() >= 2 implies exists|p: int|
            0 <= p < out.len() && group_view(out[p]) == group_at(classes, c, j) by {
        assert(group_of(classes[c].size, classes[c].found@, j) == group_at(classes, c, j));
        let g = choose|g: int| 0 <= g < gs.len() && src[g] == (c, j);
        assert(listed(ids, g));
        let p = choose|p: int| 0 <= p < ids.len() && ids[p] == g;
        assert(out[p] == gs[g]);
    }
}

proof fn lemma_groups_sorted_entries(
    classes: Seq<Sampled>,
    gs: Seq<DuplicateGroup>,
    src: Seq<(int, int)>,
    out: Seq<DuplicateGroup>,
    ids: Seq<int>,
)
    requires
        well_sampled(classes),
        groups_upto(classes, gs, src, classes.len() as int),
        picks(gs, out, ids),
    ensures
        forall|p: int|
            0 <= p < out.len() ==> forall|a: int, b: int|
                0 <= a < b < (#[trigger] out[p]).entries@.len() ==> out[p].entries@[a] < out[p].entries@[b],
{
    assert forall|p: int|
        0 <= p < out.len() implies forall|a: int, b: int|
            0 <= a < b < (#[trigger] out[p]).entries@.len() ==> out[p].entries@[a] < out[p].entries@[b] by {
        assert(0 <= ids[p] < gs.len());
        let (c, j) = src[ids[p]];
        let f = classes[c].found@;
        assert forall|j1: int, j2: int| 0 <= j1 < j2 < f.len() implies (#[trigger] f[j1]).0 < (#[trigger] f[j2]).0 by {
            assert(classes[c].found@[j1] == f[j1]);
        }
        lemma_fp_members_sorted(f, f[j].1@);
    }
}

proof fn lemma_groups_first_distinct(
    classes: Seq<Sampled>,
    gs: Seq<DuplicateGroup>,
    src: Seq<(int, int)>,
    out: Seq<DuplicateGroup>,
    ids: Seq<int>,
)
    requires
        well_sampled(classes),
        groups_upto(classes, gs, src, classes.len() as int),
        picks(gs, out, ids),
    ensures
        forall|p: int, q: int| 0 <= p < q < out.len() ==> (#[trigger] out[p]).entries@[0] != (#[trigger] out[q]).entries@[0],
{
    assert forall|p: int, q: int| 0 <= p < q < out.len() implies (#[trigger] out[p]).entries@[0] != (
    #[trigger] out[q]).entries@[0] by {
        assert(0 <= ids[p] < gs.len());
        assert(0 <= ids[q] < gs.len());
        let (c1, j1) = src[ids[p]];
        let (c2, j2) = src[ids[q]];
        lemma_first_member(classes[c1].found@, j1);
        lemma_first_member(classes[c2].found@, j2);
        assert(src[ids[p]] != src[ids[q]]);
        if c1 == c2 {
            if j1 < j2 {
                assert(classes[c1].found@[j1].0 < classes[c1].found@[j2].0);
            } else {
                assert(classes[c1].found@[j2].0 < classes[c1].found@[j1].0);
            }
        }
    }
}

/// `r` is the list of duplicate groups of `classes`, as [`nhom_tu`] makes it.
pub open spec fn groups_of(classes: Seq<Sampled>, r: Seq<DuplicateGroup>) -> bool {
    &&& forall|p: int| 0 <= p < r.len() ==> made_by(classes, group_view(#[trigger] r[p]))
    &&& forall|c: int, j: int|
        0 <= c < classes.len() && 0 <= j < classes[c].found@.len() && first_of(classes[c].found@, j) && (
        #[trigger] group_at(classes, c, j)).1.len() >= 2 ==> exists|p: int|
            0 <= p < r.len() && group_view(r[p]) == group_at(classes, c, j)
    &&& forall|p: int|
        0 <= p < r.len() ==> forall|a: int, b: int|
            0 <= a < b < (#[trigger] r[p]).entries@.len() ==> r[p].entries@[a] < r[p].entries@[b]
    &&& forall|p: int, q: int| 0 <= p < q < r.len() ==> group_before(#[trigger] r[p], #[trigger] r[q])
    &&& forall|p: int, q: int| 0 <= p < q < r.len() ==> (#[trigger] r[p]).entries@[0] != (#[trigger] r[q]).entries@[0]
}

/// The duplicate groups of fingerprinted classes: within each class, the
/// entries sharing a fingerprint, where there are two or more of them; each
/// with what it wastes. Most waste first, then by first entry, so two runs
/// over the same files list the same groups in the same order.
pub fn nhom_tu(classes: &[Sampled]) -> (r: Vec<DuplicateGroup>)
    requires
        well_sampled(classes@),
    ensures
        groups_of(classes@, r@),
        forall|p: int| 0 <= p < r@.len() ==> made_by(classes@, group_view(#[trigger] r@[p])),
        forall|c: int, j: int|
            0 <= c < classes@.len() && 0 <= j < classes@[c].found@.len() && first_of(classes@[c].found@, j) && (
            #[trigger] group_at(classes@, c, j)).1.len() >= 2 ==> exists|p: int|
                0 <= p < r@.len() && group_view(r@[p]) == group_at(classes@, c, j),
        forall|p: int|
            0 <= p < r@.len() ==> forall|a: int, b: int|
                0 <= a < b < (#[trigger] r@[p]).entries@.len() ==> r@[p].entries@[a] < r@[p].entries@[b],
        forall|p: int, q: int| 0 <= p < q < r@.len() ==> group_before(#[trigger] r@[p], #[trigger] r@[q]),
        forall|p: int, q: int| 0 <= p < q < r@.len() ==> (#[trigger] r@[p]).entries@[0] != (#[trigger] r@[q]).entries@[0],
{
    let (gs, Ghost(src)) = candidate_groups(classes);
    let ghost gs0 = gs@;
    assert forall|g: int| 0 <= g < gs@.len() implies (#[trigger] gs@[g]).entries@.len() >= 1 by {
        assert(0 <= src[g].0);
    }
    let (out, Ghost(ids)) = order_groups(gs);
    proof {
        lemma_groups_found(classes@, gs0, src, out@, ids);
        lemma_groups_sorted_entries(classes@, gs0, src, out@, ids);
        lemma_groups_first_distinct(classes@, gs0, src, out@, ids);
    }
    out
}


/// The waves of fingerprinting over the first `n` size classes, which hold
/// `counts[c]` files each: classes are taken whole and in order, and a wave
/// closes as soon as it holds [`TEP_MOI_DOT`] files or more. The ends of the
/// closed waves (class positions, exclusive), and how many files wait in the
/// open one.
pub open spec fn waves(counts: Seq<usize>, n: int) -> (Seq<usize>, nat)
    decreases n,
{
    if n <= 0 {
        (Seq::empty(), 0)
    } else {
        let (ends, open) = waves(counts, n - 1);
        if open + counts[n - 1] >= TEP_MOI_DOT {
            (ends.push(n as usize), 0)
        } else {
            (ends, (open + counts[n - 1]) as nat)
        }
    }
}

/// Where each wave of fingerprinting ends, as class positions (exclusive):
/// groups are published after every wave, and because classes come most
/// valuable first, what a wave publishes keeps its rank. What is left after
/// the last full wave forms one more.
pub fn chia_dot(counts: &[usize]) -> (r: Vec<usize>)
    ensures
        r@ == waves(counts@, counts@.len() as int).0 + if waves(counts@, counts@.len() as int).1 > 0 {
            seq![counts@.len() as usize]
        } else {
            Seq::empty()
        },
{
    let mut ends: Vec<usize> = Vec::new();
    let mut open: usize = 0;
    let mut c: usize = 0;
    while c < counts.len()
        invariant
            c <= counts@.len(),
            (ends@, open as nat) == waves(counts@, c as int),
            open < TEP_MOI_DOT,
        decreases counts@.len() - c,
    {
        if counts[c] >= TEP_MOI_DOT - open {
            ends.push(c + 1);
            open = 0;
        } else {
            open = open + counts[c];
        }
        c += 1;
    }
    if open > 0 {
        ends.push(counts.len());
    }
    ends
}

/// Whether the fingerprint store may be pruned of the files no longer
/// among the candidates: only after a scan that ran to the end over every
/// drive. A stopped scan, or one of the local disks only, has not seen every
/// file, and pruning by it would throw away fingerprints of files still there.
pub fn nen_tia(da_huy: bool, scope: DupeScope) -> (r: bool)
    ensures
        r == (!da_huy && scope == DupeScope::Everything),
{
    !da_huy && scope == DupeScope::Everything
}


/// How many files the size classes hold.
pub open spec fn class_files(lop: Seq<(u64, Vec<u32>)>) -> nat
    decreases lop.len(),
{
    if lop.len() == 0 {
        0
    } else {
        class_files(lop.drop_last()) + lop.last().1@.len()
    }
}

/// A duplicate scan in progress, wave by wave: the caller fingerprints each
/// wave of files (from the store, or by reading them) and hands the result
/// here.
pub struct QuetTrung {
    /// The files this scan fingerprints: those in scope, in classes of two or
    /// more.
    pub candidates: usize,
    /// The files taken up so far, from the store or read.
    pub hashed: usize,
    /// The classes fingerprinted so far.
    pub classes: Vec<Sampled>,
    /// The groups published after the last wave: since classes come most
    /// valuable first, what is published keeps its rank.
    pub published: Vec<DuplicateGroup>,
    /// The user asked to stop.
    pub stopped: bool,
}

/// Start a scan of the size classes `lop` (already filtered to the scope).
pub fn quet_bat_dau(lop: &Vec<(u64, Vec<u32>)>) -> (r: QuetTrung)
    requires
        class_files(lop@) <= usize::MAX,
    ensures
        r.candidates == class_files(lop@),
        r.hashed == 0,
        r.classes@.len() == 0,
        r.published@.len() == 0,
        !r.stopped,
{
    let mut n: usize = 0;
    let mut c: usize = 0;
    while c < lop.len()
        invariant
            c <= lop@.len(),
            n == class_files(lop@.take(c as int)),
            class_files(lop@) <= usize::MAX,
        decreases lop@.len() - c,
    {
        assert(lop@.take(c + 1).drop_last() =~= lop@.take(c as int));
        proof {
            lemma_class_files_prefix(lop@, c + 1);
        }
        n = n + lop[c].1.len();
        c += 1;
    }
    assert(lop@.take(lop@.len() as int) =~= lop@);
    QuetTrung { candidates: n, hashed: 0, classes: Vec::new(), published: Vec::new(), stopped: false }
}

proof fn lemma_class_files_prefix(lop: Seq<(u64, Vec<u32>)>, k: int)
    requires
        0 <= k <= lop.len(),
    ensures
        class_files(lop.take(k)) <= class_files(lop),
    decreases lop.len() - k,
{
    if k < lop.len() {
        lemma_class_files_prefix(lop, k + 1);
        assert(lop.take(k + 1).drop_last() =~= lop.take(k));
    } else {
        assert(lop.take(k) =~= lop);
    }
}

/// After a wave: `dot` is what the wave fingerprinted, class by class, from
/// `lay` files taken up; `dung` says the user asked to stop during it. The
/// groups are published whether or not the scan stops: the wave's work is
/// real, and the most valuable part of the answer.
pub fn quet_sau_dot(st: QuetTrung, dot: Vec<Sampled>, lay: usize, dung: bool) -> (r: QuetTrung)
    requires
        well_sampled(st.classes@ + dot@),
        st.hashed + lay <= usize::MAX,
    ensures
        r.candidates == st.candidates,
        r.hashed == st.hashed + lay,
        r.classes@ == st.classes@ + dot@,
        groups_of(r.classes@, r.published@),
        r.stopped == (st.stopped || dung),
{
    let mut classes = st.classes;
    let mut more = dot;
    classes.append(&mut more);
    let published = nhom_tu(classes.as_slice());
    QuetTrung {
        candidates: st.candidates,
        hashed: st.hashed + lay,
        classes,
        published,
        stopped: st.stopped || dung,
    }
}

/// What a scan answers: nothing when it was stopped, rather than a partial
/// answer that could be taken for a complete one (the published groups stay
/// for the window to show); otherwise the groups of everything fingerprinted.
pub fn quet_ket_qua(st: QuetTrung) -> (r: Vec<DuplicateGroup>)
    ensures
        st.stopped ==> r@.len() == 0,
        !st.stopped ==> r@ == st.published@,
{
    if st.stopped {
        Vec::new()
    } else {
        st.published
    }
}

} // verus!
