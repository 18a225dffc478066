//! Tier three of duplicate finding: the whole content of one group, on
//! request.
//!
//! The groups tier two finds agree on size and both ends; that is right for
//! finding candidates and wrong as a reason to delete. Here every byte of the
//! few files someone is about to act on is hashed, and the files are grouped
//! by what they really hold. A file that cannot be read is listed apart:
//! unreadable is not "different". A run the user stopped says so, and is not
//! an answer.

use vstd::prelude::*;
use vstd::string::StringSliceAdditionalSpecFns;
use vstd::utf8::encode_utf8;

use crate::text::{
    bytes_before, bytes_eq, bytes_lt, lemma_bytes_lt_irreflexive, lemma_bytes_lt_transitive,
};

verus! {

/// What verifying a group found.
#[derive(Debug, Clone, PartialEq, Eq)]
pub struct VerifyOutcome {
    /// The clusters of files identical byte for byte, largest first. One
    /// cluster holding every readable file: the candidates are true copies.
    pub groups: Vec<Vec<String>>,
    /// Files that could not be read (deleted, network gone, locked): nothing
    /// is said about them.
    pub unreadable: Vec<String>,
    /// The user stopped the run: `groups` is only what was read in time.
    pub cancelled: bool,
}

impl Default for VerifyOutcome {
    fn default() -> (r: Self)
        ensures
            r.groups@.len() == 0,
            r.unreadable@.len() == 0,
            !r.cancelled,
    {
        VerifyOutcome { groups: Vec::new(), unreadable: Vec::new(), cancelled: false }
    }
}

/// What reading one file gave.
#[derive(Debug, Clone, Copy, PartialEq, Eq)]
pub enum Doc {
    /// Read to the end: its BLAKE3 digest.
    Xong([u8; 32]),
    /// Could not be read.
    Loi,
    /// The user asked to stop before it was finished.
    Dung,
}

/// How many files were dealt with before a stop (all of them when none).
pub open spec fn reach(doc: Seq<Doc>) -> nat
    decreases doc.len(),
{
    if doc.len() == 0 {
        0
    } else if doc[0] is Dung {
        0
    } else {
        1 + reach(doc.drop_first())
    }
}

/// The digest of entry `i`, when it was read to the end.
pub open spec fn digest_of(d: Doc) -> Option<Seq<u8>> {
    match d {
        Doc::Xong(h) => Some(h@),
        _ => None,
    }
}

/// The paths among the first `m` read to the end with digest `h`, in order.
pub open spec fn same_content(paths: Seq<String>, doc: Seq<Doc>, h: Seq<u8>, m: int) -> Seq<Seq<char>>
    decreases m,
{
    if m <= 0 {
        Seq::empty()
    } else if digest_of(doc[m - 1]) == Some(h) {
        same_content(paths, doc, h, m - 1).push(paths[m - 1]@)
    } else {
        same_content(paths, doc, h, m - 1)
    }
}

/// The paths among the first `m` that could not be read, in order.
pub open spec fn unread(paths: Seq<String>, doc: Seq<Doc>, m: int) -> Seq<Seq<char>>
    decreases m,
{
    if m <= 0 {
        Seq::empty()
    } else if doc[m - 1] is Loi {
        unread(paths, doc, m - 1).push(paths[m - 1]@)
    } else {
        unread(paths, doc, m - 1)
    }
}

/// Entry `j` is the first read to the end with its digest.
pub open spec fn first_content(doc: Seq<Doc>, j: int) -> bool {
    &&& doc[j] is Xong
    &&& forall|j2: int| 0 <= j2 < j ==> digest_of(#[trigger] doc[j2]) != digest_of(doc[j])
}

/// How many distinct digests the first `m` entries hold.
pub open spec fn count_first(doc: Seq<Doc>, m: int) -> nat
    decreases m,
{
    if m <= 0 {
        0
    } else {
        count_first(doc, m - 1) + if first_content(doc, m - 1) { 1nat } else { 0nat }
    }
}

/// `c` is the cluster of some digest met among the first `m` entries: every
/// path read to the end with that digest, in order.
pub open spec fn is_cluster(paths: Seq<String>, doc: Seq<Doc>, m: int, c: Seq<Seq<char>>) -> bool {
    exists|j: int|
        0 <= j < m && first_content(doc, j) && c == same_content(paths, doc, digest_of(doc[j]).unwrap(), m)
}

/// `c` is the text of one of `groups`.
pub open spec fn listed(groups: Seq<Vec<String>>, c: Seq<Seq<char>>) -> bool {
    exists|p: int| 0 <= p < groups.len() && texts(groups[p]@) == c
}

/// Lists of paths in the order `Vec<String>` compares them: path by path,
/// each byte-wise, a proper prefix first.
pub open spec fn paths_lt(a: Seq<Seq<char>>, b: Seq<Seq<char>>) -> bool
    decreases a.len(),
{
    if a.len() == 0 {
        b.len() > 0
    } else if b.len() == 0 {
        false
    } else if encode_utf8(a[0]) != encode_utf8(b[0]) {
        bytes_lt(encode_utf8(a[0]), encode_utf8(b[0]))
    } else {
        paths_lt(a.drop_first(), b.drop_first())
    }
}

/// Cluster `a` is listed before `b`: larger first, then in path order.
pub open spec fn cluster_before(a: Seq<Seq<char>>, b: Seq<Seq<char>>) -> bool {
    a.len() > b.len() || (a.len() == b.len() && paths_lt(a, b))
}

/// The texts of some strings.
pub open spec fn texts(v: Seq<String>) -> Seq<Seq<char>> {
    v.map_values(|s: String| s@)
}

fn paths_before(a: &Vec<String>, b: &Vec<String>) -> (r: bool)
    ensures
        r == paths_lt(texts(a@), texts(b@)),
{
    let mut i: usize = 0;
    assert(texts(a@).subrange(0, a@.len() as int) =~= texts(a@));
    assert(texts(b@).subrange(0, b@.len() as int) =~= texts(b@));
    while i < a.len() && i < b.len()
        invariant
            i <= a@.len(),
            i <= b@.len(),
            paths_lt(texts(a@), texts(b@)) == paths_lt(
                texts(a@).subrange(i as int, a@.len() as int),
                texts(b@).subrange(i as int, b@.len() as int),
            ),
        decreases a@.len() - i,
    {
        let x = a[i].as_str().as_bytes();
        let y = b[i].as_str().as_bytes();
        proof {
            let sa = texts(a@).subrange(i as int, a@.len() as int);
            let sb = texts(b@).subrange(i as int, b@.len() as int);
            assert(sa[0] == a@[i as int]@ && sb[0] == b@[i as int]@);
            assert(sa.drop_first() =~= texts(a@).subrange(i + 1, a@.len() as int));
            assert(sb.drop_first() =~= texts(b@).subrange(i + 1, b@.len() as int));
        }
        if !bytes_eq(x, y) {
            return bytes_before(x, y);
        }
        i += 1;
    }
    proof {
        let sa = texts(a@).subrange(i as int, a@.len() as int);
        let sb = texts(b@).subrange(i as int, b@.len() as int);
        if i == a.len() {
            assert(sa.len() == 0);
        } else {
            assert(sb.len() == 0);
        }
    }
    i == a.len() && i < b.len()
}

fn digest_eq(a: &[u8; 32], b: &[u8; 32]) -> (r: bool)
    ensures
        r == (a@ == b@),
{
    bytes_eq(a.as_slice(), b.as_slice())
}

/// The clusters, in order of first occurrence, with where each first occurs.
fn clusters(paths: &[String], doc: &[Doc], m: usize) -> (r: (Vec<Vec<String>>, Ghost<Seq<int>>))
    requires
        m <= doc@.len(),
        doc@.len() <= paths@.len(),
    ensures
        r.1@.len() == r.0@.len(),
        r.0@.len() == count_first(doc@, m as int),
        forall|g: int|
            0 <= g < r.0@.len() ==> {
                &&& 0 <= #[trigger] r.1@[g] < m
                &&& first_content(doc@, r.1@[g])
                &&& texts(r.0@[g]@) == same_content(paths@, doc@, digest_of(doc@[r.1@[g]]).unwrap(), m as int)
            },
        forall|j: int| 0 <= j < m && first_content(doc@, j) ==> exists|g: int| 0 <= g < r.1@.len() && r.1@[g] == j,
{
    let mut out: Vec<Vec<String>> = Vec::new();
    let ghost mut at: Seq<int> = Seq::empty();
    let mut j: usize = 0;
    while j < m
        invariant
            m <= doc@.len(),
            doc@.len() <= paths@.len(),
            j <= m,
            at.len() == out@.len(),
            out@.len() == count_first(doc@, j as int),
            forall|g: int|
                0 <= g < out@.len() ==> {
                    &&& 0 <= #[trigger] at[g] < j
                    &&& first_content(doc@, at[g])
                    &&& texts(out@[g]@) == same_content(paths@, doc@, digest_of(doc@[at[g]]).unwrap(), m as int)
                },
            forall|j2: int| 0 <= j2 < j && first_content(doc@, j2) ==> exists|g: int| 0 <= g < at.len() && at[g] == j2,
        decreases m - j,
    {
        match doc[j] {
            Doc::Xong(h) => {
                let mut first = true;
                let mut k: usize = 0;
                while k < j
                    invariant
                        j < m,
                        m <= doc@.len(),
                        k <= j,
                        doc@[j as int] == Doc::Xong(h),
                        first == (forall|k2: int| 0 <= k2 < k ==> digest_of(#[trigger] doc@[k2]) != Some(h@)),
                    decreases j - k,
                {
                    match doc[k] {
                        Doc::Xong(h2) => {
                            if digest_eq(&h2, &h) {
                                first = false;
                            }
                        },
                        _ => {},
                    }
                    k += 1;
                }
                if first {
                    let mut members: Vec<String> = Vec::new();
                    let mut i: usize = 0;
                    while i < m
                        invariant
                            m <= doc@.len(),
                            doc@.len() <= paths@.len(),
                            i <= m,
                            texts(members@) == same_content(paths@, doc@, h@, i as int),
                        decreases m - i,
                    {
                        match doc[i] {
                            Doc::Xong(h2) => {
                                if digest_eq(&h2, &h) {
                                    let ghost before = members@;
                                    members.push(paths[i].clone());
                                    assert(texts(members@) =~= texts(before).push(paths@[i as int]@));
                                }
                            },
                            _ => {},
                        }
                        i += 1;
                    }
                    let ghost at0 = at;
                    out.push(members);
                    proof {
                        at = at.push(j as int);
                        assert(first_content(doc@, j as int));
                        assert forall|g: int|
                            0 <= g < out@.len() implies {
                                &&& 0 <= #[trigger] at[g] < j + 1
                                &&& first_content(doc@, at[g])
                                &&& texts(out@[g]@) == same_content(paths@, doc@, digest_of(doc@[at[g]]).unwrap(), m as int)
                            } by {
                            if g < out@.len() - 1 {
                                assert(at[g] == at0[g]);
                            }
                        }
                        assert forall|j2: int| 0 <= j2 < j + 1 && first_content(doc@, j2) implies exists|g: int|
                            0 <= g < at.len() && at[g] == j2 by {
                            if j2 < j {
                                let g = choose|g: int| 0 <= g < at0.len() && at0[g] == j2;
                                assert(at[g] == j2);
                            } else {
                                assert(at[at.len() - 1] == j2);
                            }
                        }
                    }
                } else {
                    proof {
                        assert(!first_content(doc@, j as int));
                    }
                }
            },
            _ => {
                proof {
                    assert(!first_content(doc@, j as int));
                }
            },
        }
        j += 1;
    }
    (out, Ghost(at))
}

proof fn lemma_reach(doc: Seq<Doc>)
    ensures
        reach(doc) <= doc.len(),
        forall|i: int| 0 <= i < reach(doc) ==> !(#[trigger] doc[i] is Dung),
        reach(doc) < doc.len() ==> doc[reach(doc) as int] is Dung,
    decreases doc.len(),
{
    if doc.len() > 0 && !(doc[0] is Dung) {
        lemma_reach(doc.drop_first());
        assert forall|i: int| 0 <= i < reach(doc) implies !(#[trigger] doc[i] is Dung) by {
            if i > 0 {
                assert(doc[i] == doc.drop_first()[i - 1]);
            }
        }
        if reach(doc) < doc.len() {
            assert(doc[reach(doc) as int] == doc.drop_first()[reach(doc.drop_first()) as int]);
        }
    }
}

/// What verifying a group concludes from what reading each file gave (`doc`,
/// in the order of `paths`, up to the stop if there was one): the files
/// before a stop with the same digest form a cluster, largest first, then in
/// path order; the unreadable ones are listed apart; a stop is reported, and
/// the files after it are neither grouped nor called unreadable.
pub fn ket_luan(paths: &[String], doc: &[Doc]) -> (r: VerifyOutcome)
    requires
        doc@.len() <= paths@.len(),
    ensures
        ({
            let m = reach(doc@) as int;
            &&& r.cancelled == (m < doc@.len())
            &&& texts(r.unreadable@) == unread(paths@, doc@, m)
            &&& r.groups@.len() == count_first(doc@, m)
            &&& forall|p: int|
                0 <= p < r.groups@.len() ==> is_cluster(paths@, doc@, m, texts(#[trigger] r.groups@[p]@))
            &&& forall|j: int|
                0 <= j < m && #[trigger] first_content(doc@, j) ==> listed(
                    r.groups@,
                    same_content(paths@, doc@, digest_of(doc@[j]).unwrap(), m),
                )
            &&& forall|p: int, q: int|
                0 <= p < q < r.groups@.len() ==> !cluster_before(
                    texts(#[trigger] r.groups@[q]@),
                    texts(#[trigger] r.groups@[p]@),
                )
        }),
{
    proof {
        lemma_reach(doc@);
    }
    // How far the reading went.
    let mut m: usize = 0;
    while m < doc.len()
        invariant
            m <= doc@.len(),
            forall|i: int| 0 <= i < m ==> !(#[trigger] doc@[i] is Dung),
            reach(doc@) <= doc@.len(),
            forall|i: int| 0 <= i < reach(doc@) ==> !(#[trigger] doc@[i] is Dung),
            reach(doc@) < doc@.len() ==> doc@[reach(doc@) as int] is Dung,
        ensures
            m == reach(doc@),
        decreases doc@.len() - m,
    {
        match doc[m] {
            Doc::Dung => {
                break;
            },
            _ => {},
        }
        m += 1;
    }
    let mut unreadable: Vec<String> = Vec::new();
    let mut i: usize = 0;
    while i < m
        invariant
            m <= doc@.len(),
            doc@.len() <= paths@.len(),
            i <= m,
            texts(unreadable@) == unread(paths@, doc@, i as int),
        decreases m - i,
    {
        match doc[i] {
            Doc::Loi => {
                let ghost before = unreadable@;
                unreadable.push(paths[i].clone());
                assert(texts(unreadable@) =~= texts(before).push(paths@[i as int]@));
            },
            _ => {},
        }
        i += 1;
    }
    let (cs, Ghost(at)) = clusters(paths, doc, m);
    let ghost cs0 = cs@;
    let n = cs.len();
    let (groups, Ghost(ids)) = order_clusters(cs);
    proof {
        assert forall|pp: int| 0 <= pp < groups@.len() implies is_cluster(
            paths@,
            doc@,
            m as int,
            texts(#[trigger] groups@[pp]@),
        ) by {
            let g = ids[pp];
            let j = at[g];
            assert(0 <= j < m && first_content(doc@, j));
            assert(groups@[pp] == cs0[g]);
        }
        assert forall|j: int| 0 <= j < m && #[trigger] first_content(doc@, j) implies listed(
            groups@,
            same_content(paths@, doc@, digest_of(doc@[j]).unwrap(), m as int),
        ) by {
            let g = choose|g: int| 0 <= g < at.len() && at[g] == j;
            assert(covers(ids, g));
            let pp = choose|q: int| 0 <= q < ids.len() && ids[q] == g;
            assert(groups@[pp] == cs0[g]);
        }
    }
    VerifyOutcome { groups, unreadable, cancelled: m < doc.len() }
}

/// Position `g` is one of `ids`.
pub open spec fn covers(ids: Seq<int>, g: int) -> bool {
    exists|q: int| 0 <= q < ids.len() && ids[q] == g
}

/// Clusters, largest first, then in path order (the order of
/// `Vec<String>`), with where each came from: a permutation of `cs`.
pub(crate) fn order_clusters(cs: Vec<Vec<String>>) -> (r: (Vec<Vec<String>>, Ghost<Seq<int>>))
    ensures
        r.0@.len() == cs@.len(),
        r.1@.len() == cs@.len(),
        forall|q: int| 0 <= q < cs@.len() ==> 0 <= #[trigger] r.1@[q] < cs@.len() && r.0@[q] == cs@[r.1@[q]],
        forall|q1: int, q2: int| 0 <= q1 < q2 < cs@.len() ==> #[trigger] r.1@[q1] != #[trigger] r.1@[q2],
        forall|g: int| 0 <= g < cs@.len() ==> #[trigger] covers(r.1@, g),
        forall|q1: int, q2: int|
            0 <= q1 < q2 < r.0@.len() ==> !cluster_before(texts(#[trigger] r.0@[q2]@), texts(#[trigger] r.0@[q1]@)),
{
    let mut cs = cs;
    let ghost cs0 = cs@;
    // Largest first, then in path order: pick the first remaining each time.
    let n = cs.len();
    let mut used: Vec<bool> = Vec::new();
    let mut z: usize = 0;
    while z < n
        invariant
            z <= n,
            used@.len() == z,
            forall|g: int| 0 <= g < z ==> !(#[trigger] used@[g]),
        decreases n - z,
    {
        used.push(false);
        z += 1;
    }
    let mut groups: Vec<Vec<String>> = Vec::new();
    let ghost mut ids: Seq<int> = Seq::empty();
    let mut p: usize = 0;
    while p < n
        invariant
            n == cs0.len(),
            cs@.len() == n,
            used@.len() == n,
            p <= n,
            ids.len() == p,
            groups@.len() == p,
            forall|g: int| 0 <= g < n && !used@[g] ==> (#[trigger] cs@[g]) == cs0[g],
            forall|q: int| 0 <= q < p ==> 0 <= #[trigger] ids[q] < n && used@[ids[q]] && groups@[q] == cs0[ids[q]],
            forall|q1: int, q2: int| 0 <= q1 < q2 < p ==> #[trigger] ids[q1] != #[trigger] ids[q2],
            forall|g: int| 0 <= g < n && #[trigger] used@[g] ==> exists|q: int| 0 <= q < p && ids[q] == g,
            forall|q: int, g: int|
                0 <= q < p && 0 <= g < n && !used@[g] ==> !cluster_before(texts(#[trigger] cs0[g]@), texts(#[trigger] groups@[q]@)),
            forall|q1: int, q2: int|
                0 <= q1 < q2 < p ==> !cluster_before(texts(#[trigger] groups@[q2]@), texts(#[trigger] groups@[q1]@)),
        decreases n - p,
    {
        // Some cluster is still unused: p of them were taken, each once.
        proof {
            lemma_some_unused(used@, ids, n as int, p as int);
        }
        let mut best: usize = 0;
        while used[best]
            invariant
                used@.len() == n,
                best < n,
                exists|g: int| best <= g < n && !used@[g],
                forall|g: int| 0 <= g < best ==> #[trigger] used@[g],
            decreases n - best,
        {
            best += 1;
        }
        proof {
            lemma_cluster_order(texts(cs0[best as int]@), texts(cs0[best as int]@), texts(cs0[best as int]@));
        }
        let mut k: usize = best + 1;
        while k < n
            invariant
                n == cs0.len(),
                cs@.len() == n,
                used@.len() == n,
                best < n,
                !used@[best as int],
                best < k <= n,
                forall|g: int| 0 <= g < n && !used@[g] ==> (#[trigger] cs@[g]) == cs0[g],
                forall|g: int|
                    0 <= g < k && !used@[g] ==> !cluster_before(texts(#[trigger] cs0[g]@), texts(cs0[best as int]@)),
            decreases n - k,
        {
            if !used[k] {
                let longer = cs[k].len() > cs[best].len();
                let earlier = cs[k].len() == cs[best].len() && paths_before(&cs[k], &cs[best]);
                if longer || earlier {
                    proof {
                        lemma_cluster_before_trans_k(cs0, best as int, k as int, n as int, used@);
                    }
                    best = k;
                }
            }
            k += 1;
        }
        let ghost used0 = used@;
        used.set(best, true);
        let mut taken: Vec<String> = Vec::new();
        std::mem::swap(&mut taken, &mut cs[best]);
        groups.push(taken);
        proof {
            let ids0 = ids;
            ids = ids.push(best as int);
            assert(groups@[p as int] == cs0[best as int]);
            assert forall|q: int| 0 <= q < p + 1 implies 0 <= #[trigger] ids[q] < n && used@[ids[q]] && groups@[q]
                == cs0[ids[q]] by {
                if q < p {
                    assert(ids[q] == ids0[q]);
                    assert(0 <= ids0[q] < n);
                    assert(used0[ids0[q]]);
                }
            }
            assert forall|q1: int, q2: int| 0 <= q1 < q2 < p + 1 implies #[trigger] ids[q1] != #[trigger] ids[q2] by {
                if q2 == p {
                    assert(ids[q1] == ids0[q1]);
                    assert(0 <= ids0[q1] < n);
                    assert(used0[ids0[q1]]);
                } else {
                    assert(ids[q1] == ids0[q1] && ids[q2] == ids0[q2]);
                }
            }
            assert forall|g: int| 0 <= g < n && #[trigger] used@[g] implies exists|q: int| 0 <= q < p + 1 && ids[q] == g by {
                if g == best {
                    assert(ids[p as int] == g);
                } else {
                    assert(used0[g]);
                    let q = choose|q: int| 0 <= q < p && ids0[q] == g;
                    assert(ids[q] == g);
                }
            }
            assert forall|q: int, g: int| 0 <= q < p + 1 && 0 <= g < n && !used@[g] implies !cluster_before(
                texts(#[trigger] cs0[g]@),
                texts(#[trigger] groups@[q]@),
            ) by {
                if q == p {
                    assert(groups@[q] == cs0[best as int]);
                } else {
                    assert(!used0[g]);
                }
            }
            assert forall|q1: int, q2: int| 0 <= q1 < q2 < p + 1 implies !cluster_before(
                texts(#[trigger] groups@[q2]@),
                texts(#[trigger] groups@[q1]@),
            ) by {
                if q2 == p {
                    assert(groups@[q2] == cs0[best as int]);
                    assert(!used0[best as int]);
                }
            }
        }
        p += 1;
    }
    proof {
        lemma_all_used(used@, ids, n as int);
        assert forall|g: int| 0 <= g < n implies #[trigger] covers(ids, g) by {
            assert(used@[g]);
        }
    }
    (groups, Ghost(ids))
}

/// With `p` of `n` taken, each once, one is left when `p < n`.
proof fn lemma_some_unused(used: Seq<bool>, ids: Seq<int>, n: int, p: int)
    requires
        used.len() == n,
        ids.len() == p,
        p < n,
        forall|q: int| 0 <= q < p ==> 0 <= #[trigger] ids[q] < n,
        forall|q1: int, q2: int| 0 <= q1 < q2 < p ==> #[trigger] ids[q1] != #[trigger] ids[q2],
        forall|g: int| 0 <= g < n && #[trigger] used[g] ==> exists|q: int| 0 <= q < p && ids[q] == g,
    ensures
        exists|g: int| 0 <= g < n && !used[g],
{
    if forall|g: int| 0 <= g < n ==> #[trigger] used[g] {
        // Every position is taken, so `ids` would cover `n` distinct values
        // with `p < n` entries.
        let s = Set::new(|g: int| 0 <= g < n);
        let t = ids.to_set();
        assert(s.subset_of(t)) by {
            assert forall|g: int| s.contains(g) implies t.contains(g) by {
                assert(used[g]);
                let q = choose|q: int| 0 <= q < p && ids[q] == g;
                assert(ids.contains(g));
            }
        }
        vstd::set_lib::lemma_int_range(0, n);
        assert(s =~= vstd::set_lib::set_int_range(0, n));
        ids.lemma_cardinality_of_set();
        vstd::set_lib::lemma_len_subset(s, t);
        assert(false);
    }
}

/// When every position was taken exactly once, every one is used.
proof fn lemma_all_used(used: Seq<bool>, ids: Seq<int>, n: int)
    requires
        used.len() == n,
        ids.len() == n,
        forall|q: int| 0 <= q < n ==> 0 <= #[trigger] ids[q] < n && used[ids[q]],
        forall|q1: int, q2: int| 0 <= q1 < q2 < n ==> #[trigger] ids[q1] != #[trigger] ids[q2],
    ensures
        forall|g: int| 0 <= g < n ==> #[trigger] used[g],
{
    assert(ids.no_duplicates()) by {
        assert forall|i: int, j: int| 0 <= i < ids.len() && 0 <= j < ids.len() && i != j implies ids[i]
            != ids[j] by {
            if i < j {
                assert(ids[i] != ids[j]);
            } else {
                assert(ids[j] != ids[i]);
            }
        }
    }
    ids.unique_seq_to_set();
    vstd::set_lib::lemma_int_range(0, n);
    let t = ids.to_set();
    assert forall|g: int| 0 <= g < n implies #[trigger] t.contains(g) by {
        if !t.contains(g) {
            let r = vstd::set_lib::set_int_range(0, n).remove(g);
            assert(t.subset_of(r)) by {
                assert forall|x: int| t.contains(x) implies r.contains(x) by {
                    let q = choose|q: int| 0 <= q < ids.len() && ids[q] == x;
                    assert(0 <= ids[q] < n);
                }
            }
            vstd::set_lib::lemma_len_subset(t, r);
            assert(false);
        }
    }
    assert forall|g: int| 0 <= g < n implies #[trigger] used[g] by {
        assert(t.contains(g));
        let q = choose|q: int| 0 <= q < ids.len() && ids[q] == g;
        assert(used[ids[q]]);
    }
}

/// No list of paths comes before itself.
proof fn lemma_paths_lt_irreflexive(a: Seq<Seq<char>>)
    ensures
        !paths_lt(a, a),
    decreases a.len(),
{
    if a.len() > 0 {
        lemma_paths_lt_irreflexive(a.drop_first());
    }
}

/// The order of lists of paths is transitive.
proof fn lemma_paths_lt_transitive(a: Seq<Seq<char>>, b: Seq<Seq<char>>, c: Seq<Seq<char>>)
    requires
        paths_lt(a, b),
        paths_lt(b, c),
    ensures
        paths_lt(a, c),
    decreases a.len(),
{
    if a.len() > 0 && b.len() > 0 && c.len() > 0 {
        let ea = encode_utf8(a[0]);
        let eb = encode_utf8(b[0]);
        let ec = encode_utf8(c[0]);
        if ea != eb && eb != ec {
            lemma_bytes_lt_transitive(ea, eb, ec);
            if ea == ec {
                lemma_bytes_lt_irreflexive(ea);
            }
        } else if ea == eb && eb == ec {
            lemma_paths_lt_transitive(a.drop_first(), b.drop_first(), c.drop_first());
        }
    }
}

/// The listing order of clusters is a strict order.
proof fn lemma_cluster_order(a: Seq<Seq<char>>, b: Seq<Seq<char>>, c: Seq<Seq<char>>)
    ensures
        !cluster_before(a, a),
        cluster_before(a, b) && cluster_before(b, c) ==> cluster_before(a, c),
{
    lemma_paths_lt_irreflexive(a);
    if cluster_before(a, b) && cluster_before(b, c) && a.len() == b.len() && b.len() == c.len() {
        lemma_paths_lt_transitive(a, b, c);
    }
}

/// Picking `k` over `best` keeps every earlier remaining cluster after it.
proof fn lemma_cluster_before_trans_k(cs0: Seq<Vec<String>>, best: int, k: int, n: int, used: Seq<bool>)
    requires
        n == cs0.len(),
        used.len() == n,
        0 <= best < k < n,
        cluster_before(texts(cs0[k]@), texts(cs0[best]@)),
        forall|g: int|
            0 <= g < k && !used[g] ==> !cluster_before(texts(#[trigger] cs0[g]@), texts(cs0[best]@)),
    ensures
        forall|g: int|
            0 <= g < k + 1 && !used[g] ==> !cluster_before(texts(#[trigger] cs0[g]@), texts(cs0[k]@)),
{
    assert forall|g: int| 0 <= g < k + 1 && !used[g] implies !cluster_before(
        texts(#[trigger] cs0[g]@),
        texts(cs0[k]@),
    ) by {
        lemma_cluster_order(texts(cs0[g]@), texts(cs0[k]@), texts(cs0[best]@));
    }
}

} // verus!
