//! Comparing the content of a duplicate group before anything is deleted:
//! which stretches of each file are read, and how the group splits as they
//! are.
//!
//! At the fast level about 1% of each file is read, spread evenly, plus both
//! ends whole, so the cost does not grow with the file. The full level reads
//! every byte. Reading the files is the program's business; the plan and the
//! splitting are decided here.

use vstd::prelude::*;

use crate::media::verify::{cluster_before, covers, listed, order_clusters, texts};
use crate::text::bytes_eq;

verus! {

/// Blocks sampled at the fast level.
pub const SO_KHOI_MAU: u64 = 200;

/// Bytes per sampled block.
pub const CO_KHOI: u64 = 1024 * 1024;

/// Bytes read whole at each end, at every level.
pub const HAI_DAU: u64 = 8 * 1024 * 1024;

/// How thoroughly a group is compared.
#[derive(Debug, Clone, Copy, PartialEq, Eq, Hash, Structural)]
pub enum Muc {
    /// About 1% spread evenly, plus both ends whole. The default.
    Nhanh,
    /// Every byte.
    ToanBo,
}

impl Default for Muc {
    fn default() -> (r: Self)
        ensures
            r == Muc::Nhanh,
    {
        Muc::Nhanh
    }
}

/// The outcome of comparing one group.
#[derive(Debug, Clone, PartialEq, Eq)]
pub struct KetQua {
    /// The clusters that agree on everything that was read.
    pub groups: Vec<Vec<String>>,
    pub unreadable: Vec<String>,
    pub cancelled: bool,
    /// The level that ran: "the same at 200 points" is not "the same byte for
    /// byte", and the UI says which.
    pub muc: Muc,
    /// Bytes actually read, so the UI can name the cost.
    pub bytes_read: u64,
}

/// Below this size the fast level reads the whole file: jumping around a
/// file smaller than the sample costs more than reading it straight.
pub open spec fn doc_tron(size: u64, muc: Muc) -> bool {
    muc == Muc::ToanBo || size <= HAI_DAU * 2 + SO_KHOI_MAU * CO_KHOI
}

/// The stretches `(offset, length)` read from a file of `size` bytes: the
/// whole file, or the head, 200 blocks spread evenly between the ends (the
/// same ones on every run), and the tail.
pub open spec fn ke_hoach(size: u64, muc: Muc) -> Seq<(u64, u64)> {
    if doc_tron(size, muc) {
        seq![(0u64, size)]
    } else {
        let cuoi = (size - HAI_DAU) as u64;
        let khoang = cuoi - HAI_DAU;
        seq![(0u64, HAI_DAU)] + Seq::new(
            SO_KHOI_MAU as nat,
            |i: int| ((HAI_DAU + khoang * i / SO_KHOI_MAU as int) as u64, CO_KHOI),
        ) + seq![(cuoi, HAI_DAU)]
    }
}

/// The stretches to read from one file, by level.
pub fn ke_hoach_doc(size: u64, muc: Muc) -> (r: Vec<(u64, u64)>)
    ensures
        r@ == ke_hoach(size, muc),
        forall|k: int| 0 <= k < r@.len() ==> #[trigger] r@[k].0 + r@[k].1 <= size,
{
    if muc == Muc::ToanBo || size <= HAI_DAU * 2 + SO_KHOI_MAU * CO_KHOI {
        let mut v: Vec<(u64, u64)> = Vec::new();
        v.push((0, size));
        assert(v@ =~= ke_hoach(size, muc));
        return v;
    }
    let mut ra: Vec<(u64, u64)> = Vec::new();
    ra.push((0, HAI_DAU));
    let dau = HAI_DAU;
    let cuoi = size - HAI_DAU;
    let khoang = cuoi - dau;
    let ghost mid = Seq::new(
        SO_KHOI_MAU as nat,
        |i: int| ((HAI_DAU + khoang * i / SO_KHOI_MAU as int) as u64, CO_KHOI),
    );
    let mut i: u64 = 0;
    while i < SO_KHOI_MAU
        invariant
            i <= SO_KHOI_MAU,
            cuoi == size - HAI_DAU,
            khoang == cuoi - HAI_DAU,
            dau == HAI_DAU,
            size > HAI_DAU * 2 + SO_KHOI_MAU * CO_KHOI,
            mid == Seq::new(
                SO_KHOI_MAU as nat,
                |i: int| ((HAI_DAU + khoang * i / SO_KHOI_MAU as int) as u64, CO_KHOI),
            ),
            ra@ == seq![(0u64, HAI_DAU)] + mid.subrange(0, i as int),
            forall|k: int| 0 <= k < ra@.len() ==> #[trigger] ra@[k].0 + ra@[k].1 <= size,
        decreases SO_KHOI_MAU - i,
    {
        assert((khoang as int) * (i as int) <= 0xFFFF_FFFF_FFFF_FFFF * 200) by (nonlinear_arith)
            requires
                khoang <= 0xFFFF_FFFF_FFFF_FFFFu64,
                i < 200,
        ;
        let step: u128 = (khoang as u128) * (i as u128) / (SO_KHOI_MAU as u128);
        assert(step <= khoang) by (nonlinear_arith)
            requires
                step == (khoang as int) * (i as int) / 200,
                i < 200,
        ;
        let off = dau + step as u64;
        ra.push((off, CO_KHOI));
        assert(mid.subrange(0, i + 1) =~= mid.subrange(0, i as int).push(mid[i as int]));
        assert(ra@ =~= seq![(0u64, HAI_DAU)] + mid.subrange(0, i + 1));
        i += 1;
    }
    ra.push((cuoi, HAI_DAU));
    assert(mid.subrange(0, SO_KHOI_MAU as int) =~= mid);
    assert(ra@ =~= ke_hoach(size, muc));
    ra
}

/// Bytes a plan reads.
pub open spec fn plan_bytes(p: Seq<(u64, u64)>) -> nat
    decreases p.len(),
{
    if p.len() == 0 {
        0
    } else {
        plan_bytes(p.drop_last()) + p.last().1 as nat
    }
}

/// Bytes a comparison at level `muc` reads from files of these sizes: the
/// right denominator for the progress bar, not the size of the group.
pub open spec fn se_doc(sizes: Seq<u64>, muc: Muc) -> nat
    decreases sizes.len(),
{
    if sizes.len() == 0 {
        0
    } else {
        se_doc(sizes.drop_last(), muc) + plan_bytes(ke_hoach(sizes.last(), muc))
    }
}

proof fn lemma_se_doc_mono(sizes: Seq<u64>, muc: Muc, i: int)
    requires
        0 <= i <= sizes.len(),
    ensures
        se_doc(sizes.subrange(0, i), muc) <= se_doc(sizes, muc),
    decreases sizes.len() - i,
{
    if i < sizes.len() {
        lemma_se_doc_mono(sizes, muc, i + 1);
        assert(sizes.subrange(0, i + 1).drop_last() =~= sizes.subrange(0, i));
    } else {
        assert(sizes.subrange(0, i) =~= sizes);
    }
}

/// How many bytes a comparison will read, from the sizes of the files it
/// could open: an upper bound, since a group that splits early stops
/// reading.
pub fn tong_theo_co(sizes: &[u64], muc: Muc) -> (r: u64)
    requires
        se_doc(sizes@, muc) <= u64::MAX,
    ensures
        r == se_doc(sizes@, muc),
{
    let mut tong: u64 = 0;
    let mut i: usize = 0;
    while i < sizes.len()
        invariant
            i <= sizes@.len(),
            se_doc(sizes@, muc) <= u64::MAX,
            tong == se_doc(sizes@.subrange(0, i as int), muc),
        decreases sizes@.len() - i,
    {
        proof {
            lemma_se_doc_mono(sizes@, muc, i + 1);
            assert(sizes@.subrange(0, i + 1).drop_last() =~= sizes@.subrange(0, i as int));
        }
        let kh = ke_hoach_doc(sizes[i], muc);
        let mut mot: u64 = 0;
        let mut k: usize = 0;
        while k < kh.len()
            invariant
                k <= kh@.len(),
                kh@ == ke_hoach(sizes@[i as int], muc),
                tong + plan_bytes(kh@) <= u64::MAX,
                mot == plan_bytes(kh@.subrange(0, k as int)),
            decreases kh@.len() - k,
        {
            proof {
                lemma_plan_mono(kh@, k + 1);
                assert(kh@.subrange(0, k + 1).drop_last() =~= kh@.subrange(0, k as int));
            }
            mot = mot + kh[k].1;
            k += 1;
        }
        assert(kh@.subrange(0, kh@.len() as int) =~= kh@);
        tong = tong + mot;
        i += 1;
    }
    assert(sizes@.subrange(0, sizes@.len() as int) =~= sizes@);
    tong
}

proof fn lemma_plan_mono(p: Seq<(u64, u64)>, i: int)
    requires
        0 <= i <= p.len(),
    ensures
        plan_bytes(p.subrange(0, i)) <= plan_bytes(p),
    decreases p.len() - i,
{
    if i < p.len() {
        lemma_plan_mono(p, i + 1);
        assert(p.subrange(0, i + 1).drop_last() =~= p.subrange(0, i));
    } else {
        assert(p.subrange(0, i) =~= p);
    }
}

/// The first cluster in `keys` with content `b`.
pub open spec fn find_key(keys: Seq<Seq<u8>>, b: Seq<u8>) -> Option<int>
    decreases keys.len(),
{
    if keys.len() == 0 {
        None
    } else {
        match find_key(keys.drop_last(), b) {
            Some(g) => Some(g),
            None => if keys.last() == b {
                Some(keys.len() - 1)
            } else {
                None
            },
        }
    }
}

/// The first `n` files of cluster `c`, grouped by what was read from each
/// (`bufs[i]` for file `i`): groups in the order their content first
/// appeared, each keeping the order of its files.
pub open spec fn split_by(c: Seq<usize>, bufs: Seq<Seq<u8>>, n: int) -> (Seq<Seq<u8>>, Seq<Seq<usize>>)
    decreases n,
{
    if n <= 0 {
        (Seq::empty(), Seq::empty())
    } else {
        let (keys, groups) = split_by(c, bufs, n - 1);
        let x = c[n - 1];
        match find_key(keys, bufs[x as int]) {
            Some(g) => (keys, groups.update(g, groups[g].push(x))),
            None => (keys.push(bufs[x as int]), groups.push(seq![x])),
        }
    }
}

/// Clusters after one stretch is read: a cluster already down to one file is
/// left alone (there is nobody left to compare it with); every other one
/// splits by content.
pub open spec fn split_all(cs: Seq<Seq<usize>>, bufs: Seq<Seq<u8>>) -> Seq<Seq<usize>>
    decreases cs.len(),
{
    if cs.len() == 0 {
        Seq::empty()
    } else {
        let c = cs.last();
        split_all(cs.drop_last(), bufs) + if c.len() < 2 {
            seq![c]
        } else {
            split_by(c, bufs, c.len() as int).1
        }
    }
}

fn find_buf(keys: &Vec<Vec<u8>>, b: &Vec<u8>) -> (r: Option<usize>)
    ensures
        match find_key(keys@.map_values(|k: Vec<u8>| k@), b@) {
            Some(g) => r == Some(g as usize),
            None => r is None,
        },
        r matches Some(g) ==> g < keys@.len() && find_key(keys@.map_values(|k: Vec<u8>| k@), b@) == Some(g as int),
{
    let ghost kv = keys@.map_values(|k: Vec<u8>| k@);
    let mut g: usize = 0;
    while g < keys.len()
        invariant
            g <= keys@.len(),
            kv == keys@.map_values(|k: Vec<u8>| k@),
            find_key(kv.subrange(0, g as int), b@) is None,
        decreases keys@.len() - g,
    {
        assert(kv.subrange(0, g + 1).drop_last() =~= kv.subrange(0, g as int));
        if bytes_eq(keys[g].as_slice(), b.as_slice()) {
            proof {
                lemma_find_key_prefix(kv, b@, g as int);
            }
            return Some(g);
        }
        proof {
            i_step(kv, b@, g as int);
        }
        g += 1;
    }
    assert(kv.subrange(0, keys@.len() as int) =~= kv);
    None
}

proof fn i_step(kv: Seq<Seq<u8>>, b: Seq<u8>, g: int)
    requires
        0 <= g < kv.len(),
        find_key(kv.subrange(0, g), b) is None,
        kv[g] != b,
    ensures
        find_key(kv.subrange(0, g + 1), b) is None,
{
    assert(kv.subrange(0, g + 1).drop_last() =~= kv.subrange(0, g));
}

proof fn lemma_find_key_prefix(kv: Seq<Seq<u8>>, b: Seq<u8>, g: int)
    requires
        0 <= g < kv.len(),
        find_key(kv.subrange(0, g), b) is None,
        kv[g] == b,
    ensures
        find_key(kv, b) == Some(g),
    decreases kv.len() - g,
{
    if g + 1 == kv.len() {
        assert(kv.drop_last() =~= kv.subrange(0, g));
    } else {
        assert(kv.drop_last().subrange(0, g) =~= kv.subrange(0, g));
        lemma_find_key_prefix(kv.drop_last(), b, g);
    }
}

/// Split every cluster by the content just read from its files.
pub fn tach_cum(cum: &Vec<Vec<usize>>, bufs: &Vec<Vec<u8>>) -> (r: Vec<Vec<usize>>)
    requires
        forall|c: int, k: int|
            0 <= c < cum@.len() && 0 <= k < cum@[c]@.len() ==> (#[trigger] cum@[c]@[k] as int) < bufs@.len(),
    ensures
        r@.map_values(|v: Vec<usize>| v@) == split_all(
            cum@.map_values(|v: Vec<usize>| v@),
            bufs@.map_values(|v: Vec<u8>| v@),
        ),
{
    let ghost cs = cum@.map_values(|v: Vec<usize>| v@);
    let ghost bs = bufs@.map_values(|v: Vec<u8>| v@);
    let mut out: Vec<Vec<usize>> = Vec::new();
    let mut ci: usize = 0;
    while ci < cum.len()
        invariant
            ci <= cum@.len(),
            cs == cum@.map_values(|v: Vec<usize>| v@),
            bs == bufs@.map_values(|v: Vec<u8>| v@),
            forall|c: int, k: int|
                0 <= c < cum@.len() && 0 <= k < cum@[c]@.len() ==> (#[trigger] cum@[c]@[k] as int) < bufs@.len(),
            out@.map_values(|v: Vec<usize>| v@) == split_all(cs.subrange(0, ci as int), bs),
        decreases cum@.len() - ci,
    {
        let c = &cum[ci];
        let ghost before = out@.map_values(|v: Vec<usize>| v@);
        assert(cs.subrange(0, ci + 1).drop_last() =~= cs.subrange(0, ci as int));
        assert(cs.subrange(0, ci + 1).last() == c@);
        if c.len() < 2 {
            out.push(crate::parse::copy_range(c.as_slice(), 0, c.len()));
            assert(c@.subrange(0, c@.len() as int) =~= c@);
            assert(out@.map_values(|v: Vec<usize>| v@) =~= before + seq![c@]);
        } else {
            let mut keys: Vec<Vec<u8>> = Vec::new();
            let mut groups: Vec<Vec<usize>> = Vec::new();
            let mut k: usize = 0;
            while k < c.len()
                invariant
                    k <= c@.len(),
                    ci < cs.len(),
                    cs == cum@.map_values(|v: Vec<usize>| v@),
                    c@ == cs[ci as int],
                    bs == bufs@.map_values(|v: Vec<u8>| v@),
                    forall|q: int| 0 <= q < c@.len() ==> (#[trigger] c@[q] as int) < bufs@.len(),
                    keys@.len() == groups@.len(),
                    (keys@.map_values(|v: Vec<u8>| v@), groups@.map_values(|v: Vec<usize>| v@)) == split_by(
                        c@,
                        bs,
                        k as int,
                    ),
                decreases c@.len() - k,
            {
                let x = c[k];
                let ghost kv = keys@.map_values(|v: Vec<u8>| v@);
                let ghost gv = groups@.map_values(|v: Vec<usize>| v@);
                assert(split_by(c@, bs, k as int) == (kv, gv));
                assert(x == c@[k as int]);
                assert(bs[x as int] == bufs@[x as int]@);
                match find_buf(&keys, &bufs[x]) {
                    Some(g) => {
                        let mut members: Vec<usize> = Vec::new();
                        groups.set_and_swap(g, &mut members);
                        let ghost old_members = members@;
                        assert(old_members == gv[g as int]);
                        members.push(x);
                        groups.set_and_swap(g, &mut members);
                        assert(keys@.map_values(|v: Vec<u8>| v@) =~= kv);
                        assert(groups@.map_values(|v: Vec<usize>| v@) =~= gv.update(g as int, gv[g as int].push(x)));
                        assert(find_key(kv, bs[x as int]) == Some(g as int));
                        assert(split_by(c@, bs, k + 1) == (kv, gv.update(g as int, gv[g as int].push(x))));
                    },
                    None => {
                        keys.push(crate::parse::copy_range(bufs[x].as_slice(), 0, bufs[x].len()));
                        let mut one: Vec<usize> = Vec::new();
                        one.push(x);
                        groups.push(one);
                        assert(bufs@[x as int]@.subrange(0, bufs@[x as int]@.len() as int) =~= bufs@[x as int]@);
                        assert(keys@.map_values(|v: Vec<u8>| v@) =~= kv.push(bs[x as int]));
                        assert(groups@.map_values(|v: Vec<usize>| v@) =~= gv.push(seq![x]));
                        assert(find_key(kv, bs[x as int]) is None);
                        assert(split_by(c@, bs, k + 1) == (kv.push(bs[x as int]), gv.push(seq![x])));
                    },
                }
                k += 1;
            }
            let mut gi: usize = 0;
            let ghost gv = groups@.map_values(|v: Vec<usize>| v@);
            while gi < groups.len()
                invariant
                    gi <= groups@.len(),
                    gv == groups@.map_values(|v: Vec<usize>| v@),
                    out@.map_values(|v: Vec<usize>| v@) == before + gv.subrange(0, gi as int),
                decreases groups@.len() - gi,
            {
                let g = crate::parse::copy_range(groups[gi].as_slice(), 0, groups[gi].len());
                assert(groups@[gi as int]@.subrange(0, groups@[gi as int]@.len() as int) =~= groups@[gi as int]@);
                let ghost o = out@.map_values(|v: Vec<usize>| v@);
                out.push(g);
                assert(gv.subrange(0, gi + 1) =~= gv.subrange(0, gi as int).push(gv[gi as int]));
                assert(out@.map_values(|v: Vec<usize>| v@) =~= o.push(gv[gi as int]));
                gi += 1;
            }
            assert(gv.subrange(0, gv.len() as int) =~= gv);
            assert(c@.len() == cs[ci as int].len());
        }
        ci += 1;
    }
    assert(cs.subrange(0, cum@.len() as int) =~= cs);
    out
}


// ---------------------------------------------------------------------------
// Comparing a group block by block
// ---------------------------------------------------------------------------

/// Bytes read from each file at a time: 8 MiB, since over SMB every read is
/// a network round trip.
pub const DEM: u64 = 8 * 1024 * 1024;

/// The group among `gs` whose files have size `sz`: the first one whose
/// first file has it.
pub open spec fn group_of_size(gs: Seq<Seq<usize>>, o: Seq<Option<u64>>, sz: u64) -> Option<int>
    decreases gs.len(),
{
    if gs.len() == 0 {
        None
    } else {
        match group_of_size(gs.drop_last(), o, sz) {
            Some(g) => Some(g),
            None => if o[gs.last()[0] as int] == Some(sz) {
                Some(gs.len() - 1)
            } else {
                None
            },
        }
    }
}

/// The files among the first `n` that could be opened, grouped by size:
/// files of different sizes already differ. Groups in the order their size
/// first appears, each keeping the order of its files.
pub open spec fn size_groups_upto(o: Seq<Option<u64>>, n: int) -> Seq<Seq<usize>>
    decreases n,
{
    if n <= 0 {
        Seq::empty()
    } else {
        let gs = size_groups_upto(o, n - 1);
        match o[n - 1] {
            None => gs,
            Some(sz) => match group_of_size(gs, o, sz) {
                Some(g) => gs.update(g, gs[g].push((n - 1) as usize)),
                None => gs.push(seq![(n - 1) as usize]),
            },
        }
    }
}

pub open spec fn size_groups(o: Seq<Option<u64>>) -> Seq<Seq<usize>> {
    size_groups_upto(o, o.len() as int)
}

/// The largest size among the files that could be opened (0 if none): the
/// plan reaches every byte of every file.
pub open spec fn largest(o: Seq<Option<u64>>) -> u64
    decreases o.len(),
{
    if o.len() == 0 {
        0
    } else {
        let a = largest(o.drop_last());
        match o.last() {
            Some(b) => if b > a { b } else { a },
            None => a,
        }
    }
}

/// Every cluster holds files of one size, every file named is one of `sizes`.
pub open spec fn sized(cs: Seq<Seq<usize>>, sizes: Seq<Option<u64>>) -> bool {
    &&& forall|c: int, k: int| 0 <= c < cs.len() && 0 <= k < cs[c].len() ==> (#[trigger] cs[c][k] as int) < sizes.len()
    &&& forall|c: int, k1: int, k2: int|
        0 <= c < cs.len() && 0 <= k1 < cs[c].len() && 0 <= k2 < cs[c].len() ==> sizes[#[trigger] cs[c][k1] as int]
            == sizes[#[trigger] cs[c][k2] as int]
}

/// Where reading stands: skip the stretches already read to the end.
pub open spec fn settled(plan: Seq<(u64, u64)>, step: int, da: u64) -> (int, u64)
    decreases plan.len() - step,
{
    if step < 0 || step >= plan.len() {
        (step, da)
    } else if da < plan[step].1 {
        (step, da)
    } else {
        settled(plan, step + 1, 0)
    }
}

/// The bytes read from the files of cluster `c`.
pub open spec fn lens(c: Seq<usize>, bufs: Seq<Seq<u8>>) -> nat
    decreases c.len(),
{
    if c.len() == 0 {
        0
    } else {
        lens(c.drop_last(), bufs) + bufs[c.last() as int].len()
    }
}

/// The bytes one round reads: those of every file still being compared, that
/// is, in a cluster of two or more.
pub open spec fn round_bytes(cs: Seq<Seq<usize>>, bufs: Seq<Seq<u8>>) -> nat
    decreases cs.len(),
{
    if cs.len() == 0 {
        0
    } else {
        round_bytes(cs.drop_last(), bufs) + if cs.last().len() >= 2 {
            lens(cs.last(), bufs)
        } else {
            0
        }
    }
}

/// Every cluster is down to one file: nothing is left to compare.
pub open spec fn all_single(cs: Seq<Seq<usize>>) -> bool {
    forall|c: int| 0 <= c < cs.len() ==> (#[trigger] cs[c]).len() < 2
}

/// `a + b`, stopping at the largest `u64`.
pub open spec fn sat_add(a: u64, b: nat) -> u64 {
    if a + b > u64::MAX { u64::MAX } else { (a + b) as u64 }
}

/// A block-by-block comparison in progress.
///
/// The caller opens the files, reads what [`doc_tiep`] asks from each file
/// still being compared, and hands the blocks to [`sau_khi_doc`]; the
/// decisions (what to read next, how the clusters split, when to stop) are
/// made here.
pub struct DoiChieu {
    pub muc: Muc,
    /// Each file's size, or `None` where it could not be opened.
    pub sizes: Vec<Option<u64>>,
    /// The stretches to read, planned from the largest file.
    pub plan: Vec<(u64, u64)>,
    /// The stretch being read, and how far into it.
    pub step: usize,
    pub da: u64,
    /// The clusters so far: positions among the files given to [`bat_dau`].
    pub cum: Vec<Vec<usize>>,
    pub bytes_read: u64,
    pub cancelled: bool,
    /// Nothing more will be read.
    pub done: bool,
}

impl DoiChieu {
    /// Reading stands inside a stretch, no stretch runs past `u64`, and every
    /// cluster holds files of one size.
    pub open spec fn wf(&self) -> bool {
        &&& sized(self.cum_view(), self.sizes@)
        &&& self.step <= self.plan@.len()
        &&& self.step < self.plan@.len() ==> self.da < self.plan@[self.step as int].1
        &&& forall|k: int| 0 <= k < self.plan@.len() ==> #[trigger] self.plan@[k].0 + self.plan@[k].1 <= u64::MAX
    }

    pub open spec fn cum_view(&self) -> Seq<Seq<usize>> {
        self.cum@.map_values(|v: Vec<usize>| v@)
    }

    /// Something is still to be read.
    pub open spec fn reading(&self) -> bool {
        !self.done && self.step < self.plan@.len()
    }
}

fn settle(plan: &Vec<(u64, u64)>, step: usize, da: u64) -> (r: (usize, u64))
    requires
        step <= plan@.len(),
    ensures
        (r.0 as int, r.1) == settled(plan@, step as int, da),
        r.0 <= plan@.len(),
        r.0 < plan@.len() ==> r.1 < plan@[r.0 as int].1,
    decreases plan@.len() - step,
{
    if step >= plan.len() || da < plan[step].1 {
        (step, da)
    } else {
        settle(plan, step + 1, 0)
    }
}

/// Start comparing a group: `opened[i]` is the size of file `i`, or `None`
/// when it could not be opened. Files of different sizes already differ, so
/// the clusters start as the open files grouped by size; the stretches are
/// planned from the largest size, and where no two files share a size there
/// is nothing to read.
pub fn bat_dau(opened: &[Option<u64>], muc: Muc) -> (r: DoiChieu)
    ensures
        r.wf(),
        r.muc == muc,
        r.sizes@ == opened@,
        r.bytes_read == 0,
        !r.cancelled,
        r.cum_view() == size_groups(opened@),
        r.done == all_single(r.cum_view()),
        r.plan@ == ke_hoach(largest(opened@), muc),
        (r.step as int, r.da) == settled(r.plan@, 0, 0),
{
    let ghost o = opened@;
    let mut cum: Vec<Vec<usize>> = Vec::new();
    let mut big: u64 = 0;
    let mut i: usize = 0;
    while i < opened.len()
        invariant
            i <= o.len(),
            o == opened@,
            cum@.map_values(|v: Vec<usize>| v@) == size_groups_upto(o, i as int),
            big == largest(o.take(i as int)),
            forall|g: int| 0 <= g < cum@.len() ==> (#[trigger] cum@[g])@.len() > 0,
            forall|g: int, k: int| 0 <= g < cum@.len() && 0 <= k < cum@[g]@.len() ==> (#[trigger] cum@[g]@[k] as int) < i,
            forall|g: int, k: int|
                0 <= g < cum@.len() && 0 <= k < cum@[g]@.len() ==> o[#[trigger] cum@[g]@[k] as int] == o[cum@[g]@[0] as int],
            forall|g: int| 0 <= g < cum@.len() ==> (#[trigger] o[cum@[g]@[0] as int]) is Some,
        decreases o.len() - i,
    {
        let ghost cv = cum@.map_values(|v: Vec<usize>| v@);
        assert(o.take(i + 1).drop_last() =~= o.take(i as int));
        match opened[i] {
            Some(sz) => {
                if sz > big {
                    big = sz;
                }
                // The first group whose files have this size.
                let mut g: usize = 0;
                while g < cum.len() && opened[cum[g][0]] != Some(sz)
                    invariant
                        g <= cum@.len(),
                        forall|h: int| 0 <= h < cum@.len() ==> (#[trigger] cum@[h])@.len() > 0,
                        forall|h: int, k: int| 0 <= h < cum@.len() && 0 <= k < cum@[h]@.len() ==> (#[trigger] cum@[h]@[k] as int) < i,
                        i < o.len(),
                        o == opened@,
                        forall|h: int| 0 <= h < g ==> o[(#[trigger] cum@[h])@[0] as int] != Some(sz),
                    decreases cum@.len() - g,
                {
                    g += 1;
                }
                proof {
                    lemma_group_of_size(cv, o, sz, g as int);
                }
                if g < cum.len() {
                    let mut v: Vec<usize> = Vec::new();
                    std::mem::swap(&mut v, &mut cum[g]);
                    let ghost c0 = cum@;
                    v.push(i);
                    cum.set(g, v);
                    proof {
                        let cv2 = cum@.map_values(|v: Vec<usize>| v@);
                        assert(cv2 =~= cv.update(g as int, cv[g as int].push(i)));
                        assert forall|h: int| 0 <= h < cum@.len() implies (#[trigger] cum@[h])@.len() > 0 by {
                            if h != g {
                                assert(cum@[h] == c0[h]);
                            }
                        }
                    }
                } else {
                    let mut one: Vec<usize> = Vec::new();
                    one.push(i);
                    assert(one@ =~= seq![i]);
                    cum.push(one);
                    proof {
                        assert(cum@.map_values(|v: Vec<usize>| v@) =~= cv.push(seq![i]));
                    }
                }
            },
            None => {},
        }
        i += 1;
    }
    assert(o.take(o.len() as int) =~= o);
    let plan = ke_hoach_doc(big, muc);
    let (step, da) = settle(&plan, 0, 0);
    // Nothing to read where no two files share a size.
    let mut single = true;
    let mut g: usize = 0;
    while g < cum.len()
        invariant
            g <= cum@.len(),
            single == (forall|q: int| 0 <= q < g ==> (#[trigger] cum@[q])@.len() < 2),
        decreases cum@.len() - g,
    {
        if cum[g].len() >= 2 {
            single = false;
        }
        g += 1;
    }
    let sizes = copy_sizes(opened);
    let ghost cvf = cum@.map_values(|v: Vec<usize>| v@);
    proof {
        assert(single == all_single(cvf)) by {
            if single {
                assert forall|q: int| 0 <= q < cvf.len() implies (#[trigger] cvf[q]).len() < 2 by {
                    assert(cvf[q] == cum@[q]@);
                }
            } else {
                let q = choose|q: int| 0 <= q < g && !((#[trigger] cum@[q])@.len() < 2);
                assert(cvf[q] == cum@[q]@);
            }
        }
        assert forall|c: int, k: int| 0 <= c < cvf.len() && 0 <= k < cvf[c].len() implies (#[trigger] cvf[c][k] as int)
            < o.len() by {
            assert(cvf[c] == cum@[c]@);
        }
        assert forall|c: int, k1: int, k2: int|
            0 <= c < cvf.len() && 0 <= k1 < cvf[c].len() && 0 <= k2 < cvf[c].len() implies o[#[trigger] cvf[c][k1] as int]
            == o[#[trigger] cvf[c][k2] as int] by {
            assert(cvf[c] == cum@[c]@);
            assert(o[cum@[c]@[k1] as int] == o[cum@[c]@[0] as int]);
            assert(o[cum@[c]@[k2] as int] == o[cum@[c]@[0] as int]);
        }
    }
    DoiChieu { muc, sizes, plan, step, da, cum, bytes_read: 0, cancelled: false, done: single }
}

fn copy_sizes(o: &[Option<u64>]) -> (r: Vec<Option<u64>>)
    ensures
        r@ == o@,
{
    let mut r: Vec<Option<u64>> = Vec::new();
    let mut i: usize = 0;
    while i < o.len()
        invariant
            i <= o@.len(),
            r@ == o@.take(i as int),
        decreases o@.len() - i,
    {
        r.push(o[i]);
        assert(o@.take(i + 1) =~= o@.take(i as int).push(o@[i as int]));
        i += 1;
    }
    assert(o@.take(o@.len() as int) =~= o@);
    r
}

proof fn lemma_group_of_size(gs: Seq<Seq<usize>>, o: Seq<Option<u64>>, sz: u64, g: int)
    requires
        0 <= g <= gs.len(),
        forall|h: int| 0 <= h < g ==> o[(#[trigger] gs[h])[0] as int] != Some(sz),
        g < gs.len() ==> o[gs[g][0] as int] == Some(sz),
    ensures
        g < gs.len() ==> group_of_size(gs, o, sz) == Some(g),
        g == gs.len() ==> group_of_size(gs, o, sz) is None,
    decreases gs.len(),
{
    if gs.len() > 0 {
        if g < gs.len() - 1 {
            lemma_group_of_size(gs.drop_last(), o, sz, g);
        } else {
            lemma_group_of_size(gs.drop_last(), o, sz, gs.len() - 1);
        }
    }
}

/// The next stretch to read from every file still being compared, as
/// `(offset, length)`: the rest of the current stretch, at most [`DEM`]
/// bytes; `None` once nothing more will be read.
pub fn doc_tiep(st: &DoiChieu) -> (r: Option<(u64, usize)>)
    requires
        st.wf(),
    ensures
        !st.reading() ==> r is None,
        st.reading() ==> {
            let (off, len) = st.plan@[st.step as int];
            r == Some(((off + st.da) as u64, (if len - st.da < DEM { len - st.da } else { DEM as int }) as usize))
        },
{
    if st.done || st.step >= st.plan.len() {
        return None;
    }
    let (off, len) = st.plan[st.step];
    let rest = len - st.da;
    let lay: u64 = if rest < DEM { rest } else { DEM };
    Some((off + st.da, lay as usize))
}

fn cluster_bytes(c: &Vec<usize>, bufs: &Vec<Vec<u8>>, acc: u64) -> (r: u64)
    requires
        forall|k: int| 0 <= k < c@.len() ==> (#[trigger] c@[k] as int) < bufs@.len(),
    ensures
        r == sat_add(acc, lens(c@, bufs@.map_values(|v: Vec<u8>| v@))),
{
    let ghost bs = bufs@.map_values(|v: Vec<u8>| v@);
    let mut t = acc;
    let mut k: usize = 0;
    while k < c.len()
        invariant
            k <= c@.len(),
            bs == bufs@.map_values(|v: Vec<u8>| v@),
            forall|q: int| 0 <= q < c@.len() ==> (#[trigger] c@[q] as int) < bufs@.len(),
            t == sat_add(acc, lens(c@.take(k as int), bs)),
        decreases c@.len() - k,
    {
        assert(c@.take(k + 1).drop_last() =~= c@.take(k as int));
        let n = bufs[c[k]].len();
        assert(bs[c@[k as int] as int].len() == n);
        t = t.saturating_add(n as u64);
        k += 1;
    }
    assert(c@.take(c@.len() as int) =~= c@);
    t
}

/// After a round: `bufs[i]` is what was read from file `i` (empty where the
/// read failed), or the user asked to stop (`dung`) before anything was read.
/// A stop ends the comparison and says so; otherwise every cluster of two or
/// more splits by what its files hold, the bytes are counted, and reading
/// stops once every file stands alone or the plan is done.
pub fn sau_khi_doc(st: DoiChieu, bufs: &Vec<Vec<u8>>, dung: bool) -> (r: DoiChieu)
    requires
        st.wf(),
        st.reading() && !dung ==> forall|c: int, k: int|
            0 <= c < st.cum@.len() && 0 <= k < st.cum@[c]@.len() ==> (#[trigger] st.cum@[c]@[k] as int) < bufs@.len(),
    ensures
        r.wf(),
        r.muc == st.muc,
        r.plan@ == st.plan@,
        !st.reading() ==> r.cum_view() == st.cum_view() && r.bytes_read == st.bytes_read && r.cancelled
            == st.cancelled && r.done == st.done && r.step == st.step && r.da == st.da,
        st.reading() && dung ==> r.cum_view() == st.cum_view() && r.bytes_read == st.bytes_read && r.cancelled
            && r.done,
        st.reading() && !dung ==> {
            let (off, len) = st.plan@[st.step as int];
            let lay = if len - st.da < DEM { len - st.da } else { DEM as int };
            &&& r.cum_view() == split_all(st.cum_view(), bufs@.map_values(|v: Vec<u8>| v@))
            &&& r.bytes_read == sat_add(st.bytes_read, round_bytes(st.cum_view(), bufs@.map_values(|v: Vec<u8>| v@)))
            &&& r.cancelled == st.cancelled
            &&& r.done == all_single(r.cum_view())
            &&& (r.step as int, r.da) == settled(st.plan@, st.step as int, (st.da + lay) as u64)
        },
{
    if st.done || st.step >= st.plan.len() {
        return st;
    }
    if dung {
        return DoiChieu { cancelled: true, done: true, ..st };
    }
    let ghost bs = bufs@.map_values(|v: Vec<u8>| v@);
    let ghost cs = st.cum_view();
    // Count what was read from the files still being compared.
    let mut total = st.bytes_read;
    let mut c: usize = 0;
    while c < st.cum.len()
        invariant
            c <= st.cum@.len(),
            cs == st.cum@.map_values(|v: Vec<usize>| v@),
            bs == bufs@.map_values(|v: Vec<u8>| v@),
            forall|c2: int, k: int|
                0 <= c2 < st.cum@.len() && 0 <= k < st.cum@[c2]@.len() ==> (#[trigger] st.cum@[c2]@[k] as int) < bufs@.len(),
            total == sat_add(st.bytes_read, round_bytes(cs.take(c as int), bs)),
        decreases st.cum@.len() - c,
    {
        assert(cs.take(c + 1).drop_last() =~= cs.take(c as int));
        assert(cs.take(c + 1).last() == st.cum@[c as int]@);
        if st.cum[c].len() >= 2 {
            let ghost before = total;
            total = cluster_bytes(&st.cum[c], bufs, total);
        }
        c += 1;
    }
    assert(cs.take(st.cum@.len() as int) =~= cs);
    let cum = tach_cum(&st.cum, bufs);
    // Does anyone still have someone to compare with?
    let mut single = true;
    let mut g: usize = 0;
    while g < cum.len()
        invariant
            g <= cum@.len(),
            single == (forall|q: int| 0 <= q < g ==> (#[trigger] cum@[q])@.len() < 2),
        decreases cum@.len() - g,
    {
        if cum[g].len() >= 2 {
            single = false;
        }
        g += 1;
    }
    let (off, len) = st.plan[st.step];
    let rest = len - st.da;
    let lay: u64 = if rest < DEM { rest } else { DEM };
    let (step, da) = settle(&st.plan, st.step, st.da + lay);
    let ghost rcv = cum@.map_values(|v: Vec<usize>| v@);
    assert(rcv == split_all(cs, bs));
    assert(single == all_single(rcv)) by {
        assert(rcv.len() == cum@.len());
        if single {
            assert forall|q: int| 0 <= q < rcv.len() implies (#[trigger] rcv[q]).len() < 2 by {
                assert(rcv[q] == cum@[q]@);
                assert(cum@[q]@.len() < 2);
            }
        } else {
            let q = choose|q: int| 0 <= q < g && !((#[trigger] cum@[q])@.len() < 2);
            assert(rcv[q] == cum@[q]@);
        }
    }
    assert(total == sat_add(st.bytes_read, round_bytes(cs, bs)));
    proof {
        lemma_split_all_sized(cs, bs, st.sizes@);
    }
    DoiChieu {
        muc: st.muc,
        sizes: st.sizes,
        plan: st.plan,
        step,
        da,
        cum,
        bytes_read: total,
        cancelled: st.cancelled,
        done: single,
    }
}

/// The paths of a cluster's files.
pub open spec fn named(paths: Seq<String>, c: Seq<usize>) -> Seq<Seq<char>> {
    c.map_values(|i: usize| paths[i as int]@)
}

/// `g` is the paths of one of the clusters `cs`.
pub open spec fn names_a_cluster(paths: Seq<String>, cs: Seq<Seq<usize>>, g: Seq<Seq<char>>) -> bool {
    exists|c: int| 0 <= c < cs.len() && g == named(paths, cs[c])
}

/// `g` is the paths of one of the clusters `cs`, and its files are all of
/// one size.
pub open spec fn names_a_sized_cluster(
    paths: Seq<String>,
    cs: Seq<Seq<usize>>,
    sizes: Seq<Option<u64>>,
    g: Seq<Seq<char>>,
) -> bool {
    exists|c: int|
        0 <= c < cs.len() && g == named(paths, cs[c]) && forall|k1: int, k2: int|
            0 <= k1 < cs[c].len() && 0 <= k2 < cs[c].len() ==> sizes[#[trigger] cs[c][k1] as int] == sizes[
            #[trigger] cs[c][k2] as int]
}

/// What the comparison found: each cluster by its paths, largest first,
/// then in path order; the files that could not be opened; whether the user
/// stopped it; the level; the bytes read.
pub fn ket_qua(paths: &[String], st: &DoiChieu, unreadable: Vec<String>) -> (r: KetQua)
    requires
        forall|c: int, k: int|
            0 <= c < st.cum@.len() && 0 <= k < st.cum@[c]@.len() ==> (#[trigger] st.cum@[c]@[k] as int) < paths@.len(),
    ensures
        st.wf() ==> forall|p: int|
            0 <= p < r.groups@.len() ==> names_a_sized_cluster(paths@, st.cum_view(), st.sizes@, texts(#[trigger] r.groups@[p]@)),
        r.unreadable@ == unreadable@,
        r.cancelled == st.cancelled,
        r.muc == st.muc,
        r.bytes_read == st.bytes_read,
        r.groups@.len() == st.cum@.len(),
        forall|p: int|
            0 <= p < r.groups@.len() ==> names_a_cluster(paths@, st.cum_view(), texts(#[trigger] r.groups@[p]@)),
        forall|c: int| 0 <= c < st.cum@.len() ==> listed(r.groups@, named(paths@, #[trigger] st.cum_view()[c])),
        forall|p: int, q: int|
            0 <= p < q < r.groups@.len() ==> !cluster_before(texts(#[trigger] r.groups@[q]@), texts(#[trigger] r.groups@[p]@)),
{
    let ghost cs = st.cum_view();
    let mut named_cs: Vec<Vec<String>> = Vec::new();
    let mut c: usize = 0;
    while c < st.cum.len()
        invariant
            c <= st.cum@.len(),
            cs == st.cum_view(),
            named_cs@.len() == c,
            forall|c2: int, k: int|
                0 <= c2 < st.cum@.len() && 0 <= k < st.cum@[c2]@.len() ==> (#[trigger] st.cum@[c2]@[k] as int) < paths@.len(),
            forall|e: int| 0 <= e < c ==> texts((#[trigger] named_cs@[e])@) == named(paths@, cs[e]),
        decreases st.cum@.len() - c,
    {
        let cl = &st.cum[c];
        let mut v: Vec<String> = Vec::new();
        let mut k: usize = 0;
        while k < cl.len()
            invariant
                k <= cl@.len(),
                c < st.cum@.len(),
                cl@ == cs[c as int],
                cs == st.cum_view(),
                forall|q: int| 0 <= q < cl@.len() ==> (#[trigger] cl@[q] as int) < paths@.len(),
                texts(v@) == named(paths@, cl@.take(k as int)),
            decreases cl@.len() - k,
        {
            assert(st.cum@[c as int]@ == cl@);
            let ghost v0 = v@;
            v.push(paths[cl[k]].clone());
            assert(texts(v@) =~= texts(v0).push(paths@[cl@[k as int] as int]@));
            assert(named(paths@, cl@.take(k + 1)) =~= named(paths@, cl@.take(k as int)).push(paths@[cl@[k as int] as int]@));
            assert(texts(v@) =~= named(paths@, cl@.take(k + 1)));
            k += 1;
        }
        assert(cl@.take(cl@.len() as int) =~= cl@);
        let ghost n0 = named_cs@;
        named_cs.push(v);
        proof {
            assert forall|e: int| 0 <= e < c + 1 implies texts((#[trigger] named_cs@[e])@) == named(paths@, cs[e]) by {
                if e < c {
                    assert(named_cs@[e] == n0[e]);
                }
            }
        }
        c += 1;
    }
    let ghost ncs = named_cs@;
    let (groups, Ghost(ids)) = order_clusters(named_cs);
    proof {
        assert forall|p: int| 0 <= p < groups@.len() implies names_a_cluster(
            paths@,
            cs,
            texts(#[trigger] groups@[p]@),
        ) by {
            let g = ids[p];
            assert(groups@[p] == ncs[g]);
            assert(texts(ncs[g]@) == named(paths@, cs[g]));
        }
        if st.wf() {
            assert forall|p: int| 0 <= p < groups@.len() implies names_a_sized_cluster(
                paths@,
                cs,
                st.sizes@,
                texts(#[trigger] groups@[p]@),
            ) by {
                let g = ids[p];
                assert(groups@[p] == ncs[g]);
                assert(texts(ncs[g]@) == named(paths@, cs[g]));
            }
        }
        assert forall|c2: int| 0 <= c2 < st.cum@.len() implies listed(groups@, named(paths@, #[trigger] cs[c2])) by {
            assert(covers(ids, c2));
            let p = choose|q: int| 0 <= q < ids.len() && ids[q] == c2;
            assert(groups@[p] == ncs[c2]);
            assert(texts(ncs[c2]@) == named(paths@, cs[c2]));
        }
    }
    KetQua { groups, unreadable, cancelled: st.cancelled, muc: st.muc, bytes_read: st.bytes_read }
}


proof fn lemma_find_key_range(keys: Seq<Seq<u8>>, b: Seq<u8>)
    ensures
        find_key(keys, b) matches Some(g) ==> 0 <= g < keys.len(),
    decreases keys.len(),
{
    if keys.len() > 0 {
        lemma_find_key_range(keys.drop_last(), b);
    }
}

/// Splitting a cluster only regroups its own files.
proof fn lemma_split_by_members(c: Seq<usize>, bufs: Seq<Seq<u8>>, n: int)
    requires
        0 <= n <= c.len(),
    ensures
        split_by(c, bufs, n).0.len() == split_by(c, bufs, n).1.len(),
        forall|g: int, k: int|
            0 <= g < split_by(c, bufs, n).1.len() && 0 <= k < split_by(c, bufs, n).1[g].len() ==> c.contains(
                #[trigger] split_by(c, bufs, n).1[g][k],
            ),
    decreases n,
{
    if n > 0 {
        lemma_split_by_members(c, bufs, n - 1);
        let (keys, groups) = split_by(c, bufs, n - 1);
        let x = c[n - 1];
        lemma_find_key_range(keys, bufs[x as int]);
        let gs = split_by(c, bufs, n).1;
        assert forall|g: int, k: int| 0 <= g < gs.len() && 0 <= k < gs[g].len() implies c.contains(#[trigger] gs[g][k]) by {
            match find_key(keys, bufs[x as int]) {
                Some(g0) => {
                    if g == g0 && k == groups[g].len() {
                        assert(gs[g][k] == c[n - 1]);
                    } else {
                        assert(gs[g][k] == groups[g][k]);
                    }
                },
                None => {
                    if g == groups.len() {
                        assert(gs[g][k] == c[n - 1]);
                    } else {
                        assert(gs[g][k] == groups[g][k]);
                    }
                },
            }
        }
    }
}

/// Splitting keeps every cluster to files of one size.
proof fn lemma_split_all_sized(cs: Seq<Seq<usize>>, bufs: Seq<Seq<u8>>, sizes: Seq<Option<u64>>)
    requires
        sized(cs, sizes),
    ensures
        sized(split_all(cs, bufs), sizes),
    decreases cs.len(),
{
    if cs.len() > 0 {
        let c = cs.last();
        assert(sized(cs.drop_last(), sizes)) by {
            assert forall|c2: int, k: int| 0 <= c2 < cs.drop_last().len() && 0 <= k < cs.drop_last()[c2].len() implies (
            #[trigger] cs.drop_last()[c2][k] as int) < sizes.len() by {
                assert(cs.drop_last()[c2] == cs[c2]);
            }
            assert forall|c2: int, k1: int, k2: int|
                0 <= c2 < cs.drop_last().len() && 0 <= k1 < cs.drop_last()[c2].len() && 0 <= k2 < cs.drop_last()[c2].len() implies sizes[
            #[trigger] cs.drop_last()[c2][k1] as int] == sizes[#[trigger] cs.drop_last()[c2][k2] as int] by {
                assert(cs.drop_last()[c2] == cs[c2]);
            }
        }
        lemma_split_all_sized(cs.drop_last(), bufs, sizes);
        let front = split_all(cs.drop_last(), bufs);
        let tail = if c.len() < 2 {
            seq![c]
        } else {
            split_by(c, bufs, c.len() as int).1
        };
        let all = split_all(cs, bufs);
        assert(all == front + tail);
        let last = cs.len() - 1;
        if c.len() >= 2 {
            lemma_split_by_members(c, bufs, c.len() as int);
        }
        assert forall|g: int, k: int| 0 <= g < all.len() && 0 <= k < all[g].len() implies (#[trigger] all[g][k] as int)
            < sizes.len() by {
            if g >= front.len() {
                let t = g - front.len();
                assert(all[g] == tail[t]);
                if c.len() < 2 {
                    assert(all[g][k] == cs[last][k]);
                } else {
                    assert(c.contains(tail[t][k]));
                    let q = choose|q: int| 0 <= q < c.len() && c[q] == tail[t][k];
                    assert(cs[last][q] == all[g][k]);
                }
            } else {
                assert(all[g] == front[g]);
            }
        }
        assert forall|g: int, k1: int, k2: int|
            0 <= g < all.len() && 0 <= k1 < all[g].len() && 0 <= k2 < all[g].len() implies sizes[#[trigger] all[g][k1] as int]
            == sizes[#[trigger] all[g][k2] as int] by {
            if g >= front.len() {
                let t = g - front.len();
                assert(all[g] == tail[t]);
                if c.len() < 2 {
                    assert(all[g][k1] == cs[last][k1]);
                    assert(all[g][k2] == cs[last][k2]);
                } else {
                    assert(c.contains(tail[t][k1]));
                    assert(c.contains(tail[t][k2]));
                    let q1 = choose|q: int| 0 <= q < c.len() && c[q] == tail[t][k1];
                    let q2 = choose|q: int| 0 <= q < c.len() && c[q] == tail[t][k2];
                    assert(sizes[cs[last][q1] as int] == sizes[cs[last][q2] as int]);
                }
            } else {
                assert(all[g] == front[g]);
            }
        }
    }
}

} // verus!
