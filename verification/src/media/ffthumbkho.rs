//! Thumbnails made by ffmpeg, kept on disk, and never read off a network
//! drive on a guess.
//!
//! One file per thumbnail, named by a hash of what identifies the source at
//! this moment: path (case folded), size, modification time, thumbnail size,
//! and a version that retires every old thumbnail when the way frames are
//! picked changes. The store is capped; past the cap, the thumbnails nobody
//! looked at for longest go first, down to three quarters of it.
//!
//! On a network drive, a thumbnail asked for on a guess (the interface
//! prefetching rows the user may scroll to) is not made: that would pull the
//! file over the shared network for a cell nobody may see. The answer is
//! "busy", so the cell asks again once it is really on screen.

use vstd::prelude::*;
use vstd::string::StringSliceAdditionalSpecFns;
use vstd::utf8::encode_utf8;

use crate::digest::{blake3_digest, blake3_of, hex_lower, hex_prefix};
use crate::media::ffstream::{co_the_can_chuyen_ma, transcode_candidate};
use crate::order::{sort_triples, triples_sorted};
use crate::text::{
    decimal, lowercase_of, push_decimal, push_str_chars, str_chars, str_lowercase, string_from_chars,
};

verus! {

/// Changed when the way thumbnails are made changes, so old ones are dropped:
/// "ffthumb-v1".
pub const PHIEN_BAN: [u8; 10] = [0x66, 0x66, 0x74, 0x68, 0x75, 0x6d, 0x62, 0x2d, 0x76, 0x31];

/// Cap on the whole store, in bytes: 256 MiB, some ten thousand thumbnails.
pub const TRAN_BYTE: u64 = 268435456;

/// What a clean-up brings the store down to: three quarters of the cap, so the
/// next write does not clean up again.
pub const DON_CON: u64 = 201326592;

/// The cap is checked once every this many writes: checking lists the whole
/// directory.
pub const KIEM_TRAN_MOI: u32 = 64;

/// A thumbnail looked at whose time is older than this (a day, in
/// milliseconds) gets its time refreshed: the time is "last looked at" for the
/// clean-up, and a day is fine enough.
pub const LAM_MOI_SAU_MS: u64 = 86_400_000;

/// A temporary file left older than this (an hour, in seconds) by a process
/// killed mid-write is removed.
pub const TAM_CU_SECS: u64 = 3600;

/// The first bytes of a PNG file; a stored file without them is damaged.
pub const DAU_PNG: [u8; 8] = [0x89, 0x50, 0x4e, 0x47, 0x0d, 0x0a, 0x1a, 0x0a];

/// `path` is a UNC path (`\\server\share\...`): on the network whatever any
/// drive table says, and known without asking anyone.
pub open spec fn is_unc(path: Seq<char>) -> bool {
    path.len() >= 2 && path[0] == '\\' && path[1] == '\\'
}

/// `path` is on a network drive: a UNC path, or a drive letter the system
/// reports as a network drive (`drive_is_network`).
pub fn la_o_mang(path: &str, drive_is_network: bool) -> (r: bool)
    ensures
        r == (is_unc(path@) || drive_is_network),
{
    let c = str_chars(path);
    (c.len() >= 2 && c[0] == '\\' && c[1] == '\\') || drive_is_network
}

/// Asked on a guess, for a file on a network drive: do not read it.
pub fn khong_doc_de_doan(path: &str, du_doan: bool, drive_is_network: bool) -> (r: bool)
    ensures
        r == (du_doan && (is_unc(path@) || drive_is_network)),
{
    du_doan && la_o_mang(path, drive_is_network)
}

/// Ask ffmpeg before Windows: for a file on a network drive, of a kind that
/// often holds an editing codec (the list previews use), when ffmpeg is there.
/// Windows' own attempt there means reading the file over the network, often
/// only to fail.
pub fn ffmpeg_truoc(path: &str, drive_is_network: bool, co_ffmpeg: bool) -> (r: bool)
    ensures
        r == (transcode_candidate(path@) && (is_unc(path@) || drive_is_network)
            && co_ffmpeg),
{
    co_the_can_chuyen_ma(path) && la_o_mang(path, drive_is_network) && co_ffmpeg
}

/// The little-endian bytes of `x`, `n` of them.
pub open spec fn le_bytes(x: nat, n: nat) -> Seq<u8>
    decreases n,
{
    if n == 0 {
        Seq::empty()
    } else {
        seq![(x % 256) as u8] + le_bytes(x / 256, (n - 1) as nat)
    }
}

fn push_le(out: &mut Vec<u8>, x: u128, n: usize)
    requires
        n <= 16,
    ensures
        final(out)@ == old(out)@ + le_bytes(x as nat, n as nat),
    decreases n,
{
    if n > 0 {
        out.push((x % 256) as u8);
        let ghost mid = out@;
        push_le(out, x / 256, n - 1);
        assert(final(out)@ =~= old(out)@ + le_bytes(x as nat, n as nat));
    }
}

/// What is hashed to name a thumbnail: the version, a zero, the lowercase path,
/// a zero, the size (8 bytes), the modification time in nanoseconds (16 bytes)
/// and the thumbnail size (4 bytes), all little-endian.
pub open spec fn name_message(path: Seq<char>, size: u64, mtime_nanos: u128, co: u32) -> Seq<u8> {
    PHIEN_BAN@ + seq![0u8] + encode_utf8(str_lowercase(path)) + seq![0u8] + le_bytes(size as nat, 8) + le_bytes(
        mtime_nanos as nat,
        16,
    ) + le_bytes(co as nat, 4)
}

/// The file name of a thumbnail in the store: the first 128 bits of the hash
/// in hexadecimal (plenty to keep names apart, and short names list faster),
/// then `.png`.
pub fn ten_trong_kho(path: &str, size: u64, mtime_nanos: u128, co: u32) -> (r: String)
    ensures
        r@ == hex_lower(blake3_digest(name_message(path@, size, mtime_nanos, co)).subrange(0, 16)) + ".png"@,
{
    let mut msg: Vec<u8> = Vec::new();
    let mut i: usize = 0;
    while i < 10
        invariant
            i <= 10,
            msg@ == PHIEN_BAN@.subrange(0, i as int),
        decreases 10 - i,
    {
        msg.push(PHIEN_BAN[i]);
        assert(msg@ =~= PHIEN_BAN@.subrange(0, i + 1));
        i += 1;
    }
    assert(PHIEN_BAN@.subrange(0, 10) =~= PHIEN_BAN@);
    msg.push(0);
    let low = lowercase_of(path);
    let b = low.as_str().as_bytes();
    let ghost start = msg@;
    let mut j: usize = 0;
    while j < b.len()
        invariant
            j <= b@.len(),
            msg@ == start + b@.subrange(0, j as int),
        decreases b@.len() - j,
    {
        msg.push(b[j]);
        assert(msg@ =~= start + b@.subrange(0, j + 1));
        j += 1;
    }
    assert(b@.subrange(0, b@.len() as int) =~= b@);
    msg.push(0);
    push_le(&mut msg, size as u128, 8);
    push_le(&mut msg, mtime_nanos, 16);
    push_le(&mut msg, co as u128, 4);
    assert(msg@ =~= name_message(path@, size, mtime_nanos, co));
    let h = blake3_of(msg.as_slice());
    let mut name = hex_prefix(h.as_slice(), 16);
    push_str_chars(&mut name, ".png");
    string_from_chars(name.as_slice())
}

/// Whether stored bytes are a PNG; anything else is damaged and removed.
pub fn la_png(b: &[u8]) -> (r: bool)
    ensures
        r == (b@.len() >= 8 && b@.subrange(0, 8) == DAU_PNG@),
{
    if b.len() < 8 {
        return false;
    }
    let mut i: usize = 0;
    while i < 8
        invariant
            i <= 8,
            b@.len() >= 8,
            b@.subrange(0, i as int) == DAU_PNG@.subrange(0, i as int),
        decreases 8 - i,
    {
        if b[i] != DAU_PNG[i] {
            assert(b@.subrange(0, 8)[i as int] != DAU_PNG@[i as int]);
            return false;
        }
        assert(b@.subrange(0, i + 1) =~= DAU_PNG@.subrange(0, i + 1));
        i += 1;
    }
    assert(DAU_PNG@.subrange(0, 8) =~= DAU_PNG@);
    true
}

/// Whether a thumbnail just looked at should have its time refreshed: its time
/// is more than a day old (`tuoi_ms`, when the age could be read).
pub fn can_lam_moi(tuoi_ms: Option<u64>) -> (r: bool)
    ensures
        r == match tuoi_ms {
            Some(t) => t > LAM_MOI_SAU_MS,
            None => false,
        },
{
    match tuoi_ms {
        Some(t) => t > LAM_MOI_SAU_MS,
        None => false,
    }
}

/// The temporary name a write goes through: the final name, the process id
/// and the write count, so two threads writing the same thumbnail never
/// publish a mixed file.
pub fn ten_tam(ten: &str, pid: u32, lan: u32) -> (r: String)
    ensures
        r@ == ten@ + "."@ + decimal(pid as nat) + "."@ + decimal(lan as nat) + ".tmp"@,
{
    let mut v: Vec<char> = Vec::new();
    push_str_chars(&mut v, ten);
    push_str_chars(&mut v, ".");
    push_decimal(&mut v, pid as u64);
    push_str_chars(&mut v, ".");
    push_decimal(&mut v, lan as u64);
    push_str_chars(&mut v, ".tmp");
    string_from_chars(v.as_slice())
}

/// Whether write number `lan` checks the cap.
pub fn den_luot_kiem_tran(lan: u32) -> (r: bool)
    ensures
        r == (lan % KIEM_TRAN_MOI == 0),
{
    lan % KIEM_TRAN_MOI == 0
}

/// A temporary file `tuoi_secs` old (when known) was left by a killed write.
pub fn la_tam_bo_do(tuoi_secs: Option<u64>) -> (r: bool)
    ensures
        r == match tuoi_secs {
            Some(t) => t > TAM_CU_SECS,
            None => false,
        },
{
    match tuoi_secs {
        Some(t) => t > TAM_CU_SECS,
        None => false,
    }
}

/// The wrapped total of some sizes, as a 64-bit sum wraps.
pub open spec fn total(sizes: Seq<u64>) -> u64
    decreases sizes.len(),
{
    if sizes.len() == 0 {
        0
    } else {
        total(sizes.drop_last()).wrapping_add(sizes.last())
    }
}

/// A clean-up under way: the thumbnails in the order they go (longest unseen
/// first, ties in listing order), how far it got, the bytes still held.
pub struct LuotDon {
    thu_tu: Vec<(u64, u64, u64)>,
    vi_tri: usize,
    tong: u64,
    con: u64,
}

impl LuotDon {
    /// The thumbnails in the order they go: `(time, size, position)`.
    pub closed spec fn order(&self) -> Seq<(u64, u64, u64)> {
        self.thu_tu@
    }

    pub closed spec fn next_at(&self) -> nat {
        self.vi_tri as nat
    }

    pub closed spec fn held(&self) -> u64 {
        self.tong
    }

    pub closed spec fn target(&self) -> u64 {
        self.con
    }

    /// Plan a clean-up of the thumbnails `anh` (time last looked at, size):
    /// none when they hold no more than `tran` bytes; else the order they go in,
    /// down to `con`.
    pub fn bat_dau(anh: &[(u64, u64)], tran: u64, con: u64) -> (r: Option<LuotDon>)
        ensures
            match r {
                None => total(anh@.map_values(|a: (u64, u64)| a.1)) <= tran,
                Some(l) => {
                    &&& total(anh@.map_values(|a: (u64, u64)| a.1)) > tran
                    &&& l.held() == total(anh@.map_values(|a: (u64, u64)| a.1))
                    &&& l.target() == con
                    &&& l.next_at() == 0
                    &&& triples_sorted(l.order())
                    &&& l.order().to_multiset() == Seq::new(
                        anh@.len(),
                        |i: int| (anh@[i].0, anh@[i].1, i as u64),
                    ).to_multiset()
                },
            },
    {
        let ghost sizes = anh@.map_values(|a: (u64, u64)| a.1);
        let mut tong: u64 = 0;
        let mut keys: Vec<(u64, u64, u64)> = Vec::new();
        let mut i: usize = 0;
        while i < anh.len()
            invariant
                i <= anh@.len(),
                sizes == anh@.map_values(|a: (u64, u64)| a.1),
                tong == total(sizes.subrange(0, i as int)),
                keys@ == Seq::new(i as nat, |k: int| (anh@[k].0, anh@[k].1, k as u64)),
            decreases anh@.len() - i,
        {
            assert(sizes.subrange(0, i + 1).drop_last() =~= sizes.subrange(0, i as int));
            tong = tong.wrapping_add(anh[i].1);
            keys.push((anh[i].0, anh[i].1, i as u64));
            assert(keys@ =~= Seq::new((i + 1) as nat, |k: int| (anh@[k].0, anh@[k].1, k as u64)));
            i += 1;
        }
        assert(sizes.subrange(0, anh@.len() as int) =~= sizes);
        if tong <= tran {
            return None;
        }
        sort_triples(&mut keys);
        Some(LuotDon { thu_tu: keys, vi_tri: 0, tong, con })
    }

    /// The next thumbnail to remove (its position in the listing and its
    /// size), or none once the store holds no more than the target or the
    /// list is done.
    pub fn tiep(&mut self) -> (r: Option<(usize, u64)>)
        ensures
            final(self).order() == old(self).order(),
            final(self).held() == old(self).held(),
            final(self).target() == old(self).target(),
            if old(self).held() <= old(self).target() || old(self).next_at() >= old(self).order().len() {
                r is None && final(self).next_at() == old(self).next_at()
            } else {
                let k = old(self).order()[old(self).next_at() as int];
                r == Some((k.2 as usize, k.1)) && final(self).next_at() == old(self).next_at() + 1
            },
    {
        if self.tong <= self.con || self.vi_tri >= self.thu_tu.len() {
            return None;
        }
        let k = self.thu_tu[self.vi_tri];
        self.vi_tri += 1;
        Some((k.2 as usize, k.1))
    }

    /// A thumbnail of `n` bytes was removed (one whose removal failed is not
    /// reported, and still counts).
    pub fn da_xoa(&mut self, n: u64)
        ensures
            final(self).order() == old(self).order(),
            final(self).next_at() == old(self).next_at(),
            final(self).target() == old(self).target(),
            final(self).held() == old(self).held().wrapping_sub(n),
    {
        self.tong = self.tong.wrapping_sub(n);
    }
}

} // verus!
