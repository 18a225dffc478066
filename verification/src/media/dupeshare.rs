//! Sharing network-drive fingerprints between the studio's machines.
//!
//! Network drives hold the same content on every machine, so the first
//! machine to fingerprint them leaves the result on the share and the others
//! read one file instead of tens of thousands of media files.
//!
//! Keys are full UNC paths in lowercase, never drive letters: a share that is
//! `Y:` on one machine may be `W:` on another. Each machine writes a file of
//! its own, so nobody contends for a lock over SMB.
//!
//! Only servers on [`DUOC_GHI`] are written to. It is an allow list: a new
//! share in the studio is not written to until someone decides it should be.
//! `\\192.168.1.214` is somebody's workstation, not the NAS; it sits on
//! [`CAM_GHI`] to record why, and the two lists are proved never to meet.

use std::collections::BTreeMap;

use vstd::prelude::*;

use crate::parse::{find_char, find_char_from, sub_vec};
use crate::text::{
    chars_eq_ci, chars_eq_ignore_case, lower_chars, lower_vec, str_chars, string_from_chars, to_upper_char,
    upper_char,
};

verus! {

/// Servers fingerprints may be written to.
pub const DUOC_GHI: [&'static str; 1] = ["\\\\192.168.1.213"];

/// Servers fingerprints must never be written to: `\\192.168.1.214` shares
/// drives `F:` and `H:` but is a workstation someone is working at.
pub const CAM_GHI: [&'static str; 1] = ["\\\\192.168.1.214"];

/// The folder holding the shared fingerprints, at the root of the share.
pub const THU_MUC: &'static str = ".mediafinder";

/// At most this many fingerprint files are read per share: forty machines
/// are forty files of several megabytes, and the newest few cover nearly all
/// of it.
pub const TOI_DA_TEP: usize = 8;

/// Reading is allowed from any server: reading writes nothing, so nothing
/// can be damaged.
pub fn duoc_doc(_may_chu: &str) -> (r: bool)
    ensures
        r,
{
    true
}

/// Server `m` may be written to: it is on the allow list and not on the deny
/// list, case aside.
pub open spec fn writable(m: Seq<char>) -> bool {
    &&& exists|i: int| 0 <= i < DUOC_GHI@.len() && chars_eq_ignore_case(#[trigger] DUOC_GHI@[i]@, m)
    &&& !exists|i: int| 0 <= i < CAM_GHI@.len() && chars_eq_ignore_case(#[trigger] CAM_GHI@[i]@, m)
}

fn listed(list: &[&'static str], m: &Vec<char>) -> (r: bool)
    ensures
        r == exists|i: int| 0 <= i < list@.len() && chars_eq_ignore_case(#[trigger] list@[i]@, m@),
{
    let mut i: usize = 0;
    while i < list.len()
        invariant
            i <= list@.len(),
            forall|q: int| 0 <= q < i ==> !chars_eq_ignore_case(#[trigger] list@[q]@, m@),
        decreases list@.len() - i,
    {
        let x = str_chars(list[i]);
        if chars_eq_ci(x.as_slice(), m.as_slice()) {
            return true;
        }
        i += 1;
    }
    false
}

/// Whether fingerprints may be written to this server.
pub fn duoc_ghi(may_chu: &str) -> (r: bool)
    ensures
        r == writable(may_chu@),
{
    let m = str_chars(may_chu);
    let allow = DUOC_GHI;
    let deny = CAM_GHI;
    listed(&allow, &m) && !listed(&deny, &m)
}

/// No server is on both lists.
pub proof fn lemma_lists_disjoint()
    ensures
        forall|i: int, j: int|
            0 <= i < DUOC_GHI@.len() && 0 <= j < CAM_GHI@.len() ==> !chars_eq_ignore_case(
                #[trigger] DUOC_GHI@[i]@,
                #[trigger] CAM_GHI@[j]@,
            ),
{
    reveal_strlit("\\\\192.168.1.213");
    reveal_strlit("\\\\192.168.1.214");
    let a = DUOC_GHI@[0]@;
    let b = CAM_GHI@[0]@;
    assert(lower_chars(a)[14] != lower_chars(b)[14]);
}

/// `s` without its leading backslashes.
pub open spec fn strip_bs(s: Seq<char>) -> Seq<char>
    decreases s.len(),
{
    if s.len() > 0 && s[0] == '\\' {
        strip_bs(s.drop_first())
    } else {
        s
    }
}

proof fn lemma_strip_bs_from(s: Seq<char>, i: int)
    requires
        0 <= i < s.len(),
        s[i] == '\\',
    ensures
        strip_bs(s.subrange(i, s.len() as int)) == strip_bs(s.subrange(i + 1, s.len() as int)),
{
    assert(s.subrange(i, s.len() as int).drop_first() =~= s.subrange(i + 1, s.len() as int));
}

/// The server a UNC path names, as `\\host` in lowercase:
/// `\\192.168.1.213\padoma 8` gives `\\192.168.1.213`.
pub open spec fn host_of(unc: Seq<char>) -> Option<Seq<char>> {
    let t = strip_bs(unc);
    let h = match find_char(t, '\\') {
        Some(k) => t.subrange(0, k),
        None => t,
    };
    if h.len() == 0 {
        None
    } else {
        Some(seq!['\\', '\\'] + lower_chars(h))
    }
}

/// The server of a UNC path.
pub fn may_chu(unc: &str) -> (r: Option<String>)
    ensures
        match host_of(unc@) {
            Some(h) => r matches Some(s) && s@ == h,
            None => r is None,
        },
{
    let cs = str_chars(unc);
    let n = cs.len();
    let mut i: usize = 0;
    assert(cs@.subrange(0, n as int) =~= cs@);
    while i < n && cs[i] == '\\'
        invariant
            n == cs@.len(),
            i <= n,
            strip_bs(cs@) == strip_bs(cs@.subrange(i as int, n as int)),
        decreases n - i,
    {
        proof {
            lemma_strip_bs_from(cs@, i as int);
        }
        i += 1;
    }
    let t = sub_vec(&cs, i, n);
    proof {
        if t@.len() > 0 {
            assert(t@[0] == cs@[i as int]);
        }
        assert(strip_bs(t@) == t@);
        crate::parse::lemma_find_char(t@, '\\');
    }
    assert(t@.subrange(0, t@.len() as int) =~= t@);
    let end = match find_char_from(&t, '\\', 0) {
        Some(k) => k,
        None => t.len(),
    };
    let h = sub_vec(&t, 0, end);
    if h.len() == 0 {
        return None;
    }
    let low = lower_vec(h.as_slice());
    let mut out: Vec<char> = Vec::new();
    out.push('\\');
    out.push('\\');
    let mut k: usize = 0;
    while k < low.len()
        invariant
            k <= low@.len(),
            out@ == seq!['\\', '\\'] + low@.subrange(0, k as int),
        decreases low@.len() - k,
    {
        out.push(low[k]);
        assert(low@.subrange(0, k + 1) =~= low@.subrange(0, k as int).push(low@[k as int]));
        k += 1;
    }
    assert(low@.subrange(0, low@.len() as int) =~= low@);
    Some(string_from_chars(out.as_slice()))
}

/// `BTreeMap::get` on the drive-letter map: the share a letter is mapped to.
#[verifier::external_body]
fn share_for(m: &BTreeMap<char, String>, k: char) -> (r: Option<&String>)
    ensures
        match r {
            Some(v) => m@.contains_key(k) && m@[k] == *v,
            None => !m@.contains_key(k),
        },
{
    m.get(&k)
}

/// `s` without its trailing backslashes.
pub open spec fn trim_end_bs(s: Seq<char>) -> Seq<char>
    decreases s.len(),
{
    if s.len() > 0 && s.last() == '\\' {
        trim_end_bs(s.drop_last())
    } else {
        s
    }
}

/// The full UNC path of a file on a known network drive, in lowercase:
/// `Y:\a\b.mp4` with `Y:` mapped to `\\192.168.1.213\padoma 8` gives
/// `\\192.168.1.213\padoma 8\a\b.mp4`. `None` for anything not on a known
/// network drive: a local path means nothing on another machine.
pub open spec fn unc_of(path: Seq<char>, shares: Map<char, String>) -> Option<Seq<char>> {
    if path.len() < 2 || path[1] != ':' {
        None
    } else {
        let o = upper_char(path[0]);
        if !shares.contains_key(o) {
            None
        } else {
            Some(lower_chars(trim_end_bs(shares[o]@) + path.subrange(2, path.len() as int)))
        }
    }
}

/// The shared key of a local path on a network drive.
pub fn duong_unc(duong_may: &str, unc_theo_o: &BTreeMap<char, String>) -> (r: Option<String>)
    ensures
        match unc_of(duong_may@, unc_theo_o@) {
            Some(k) => r matches Some(s) && s@ == k,
            None => r is None,
        },
{
    let cs = str_chars(duong_may);
    if cs.len() < 2 || cs[1] != ':' {
        return None;
    }
    let o = to_upper_char(cs[0]);
    let goc = match share_for(unc_theo_o, o) {
        Some(g) => str_chars(g.as_str()),
        None => return None,
    };
    let mut e = goc.len();
    assert(goc@.subrange(0, e as int) =~= goc@);
    while e > 0 && goc[e - 1] == '\\'
        invariant
            e <= goc@.len(),
            trim_end_bs(goc@) == trim_end_bs(goc@.subrange(0, e as int)),
        decreases e,
    {
        assert(goc@.subrange(0, e as int).drop_last() =~= goc@.subrange(0, e - 1));
        e -= 1;
    }
    let mut joined = sub_vec(&goc, 0, e);
    proof {
        if e > 0 {
            assert(goc@.subrange(0, e as int).last() == goc@[e - 1]);
        }
        assert(trim_end_bs(goc@.subrange(0, e as int)) == goc@.subrange(0, e as int));
    }
    let mut k: usize = 2;
    while k < cs.len()
        invariant
            2 <= k <= cs@.len(),
            joined@ == trim_end_bs(goc@) + cs@.subrange(2, k as int),
        decreases cs@.len() - k,
    {
        joined.push(cs[k]);
        assert(cs@.subrange(2, k + 1) =~= cs@.subrange(2, k as int).push(cs@[k as int]));
        k += 1;
    }
    let low = lower_vec(joined.as_slice());
    Some(string_from_chars(low.as_slice()))
}

/// The name of this machine's fingerprint file, from the computer's name:
/// only letters, digits, `-` and `_` are kept, so a strange name cannot turn
/// into a path leading out of the folder; lowercase, with `.bin`.
pub open spec fn file_name_for(computer: Seq<char>) -> Seq<char> {
    let kept = name_chars(computer);
    if kept.len() == 0 {
        seq!['m', 'a', 'y', '-', 'k', 'h', 'o', 'n', 'g', '-', 't', 'e', 'n', '.', 'b', 'i', 'n']
    } else {
        lower_chars(kept) + seq!['.', 'b', 'i', 'n']
    }
}

/// The characters of `s` a fingerprint file name may carry, in order.
pub open spec fn name_chars(s: Seq<char>) -> Seq<char>
    decreases s.len(),
{
    if s.len() == 0 {
        Seq::empty()
    } else if is_name_char(s.last()) {
        name_chars(s.drop_last()).push(s.last())
    } else {
        name_chars(s.drop_last())
    }
}

/// A character a fingerprint file name may carry.
pub open spec fn is_name_char(c: char) -> bool {
    ('a' <= c <= 'z') || ('A' <= c <= 'Z') || ('0' <= c <= '9') || c == '-' || c == '_'
}

/// The fingerprint file name for a computer name.
pub fn ten_tep_cho(ten_may: &str) -> (r: String)
    ensures
        r@ == file_name_for(ten_may@),
{
    let cs = str_chars(ten_may);
    let mut kept: Vec<char> = Vec::new();
    let mut i: usize = 0;
    while i < cs.len()
        invariant
            i <= cs@.len(),
            kept@ == name_chars(cs@.subrange(0, i as int)),
        decreases cs@.len() - i,
    {
        let c = cs[i];
        let ok = ('a' <= c && c <= 'z') || ('A' <= c && c <= 'Z') || ('0' <= c && c <= '9') || c == '-' || c == '_';
        if ok {
            kept.push(c);
        }
        assert(cs@.subrange(0, i + 1).drop_last() =~= cs@.subrange(0, i as int));
        i += 1;
    }
    assert(cs@.subrange(0, cs@.len() as int) =~= cs@);
    if kept.len() == 0 {
        let fallback = "may-khong-ten.bin";
        proof {
            reveal_strlit("may-khong-ten.bin");
        }
        return string_from_chars(str_chars(fallback).as_slice());
    }
    let mut out = lower_vec(kept.as_slice());
    out.push('.');
    out.push('b');
    out.push('i');
    out.push('n');
    assert(out@ =~= lower_chars(kept@) + seq!['.', 'b', 'i', 'n']);
    string_from_chars(out.as_slice())
}

/// The shared fingerprint folder of a share: `<share>\.mediafinder`.
pub fn thu_muc_cua(share_unc: &str) -> (r: String)
    ensures
        r@ == trim_end_bs(share_unc@) + seq!['\\'] + THU_MUC@,
{
    let cs = str_chars(share_unc);
    let mut e = cs.len();
    assert(cs@.subrange(0, e as int) =~= cs@);
    while e > 0 && cs[e - 1] == '\\'
        invariant
            e <= cs@.len(),
            trim_end_bs(cs@) == trim_end_bs(cs@.subrange(0, e as int)),
        decreases e,
    {
        assert(cs@.subrange(0, e as int).drop_last() =~= cs@.subrange(0, e - 1));
        e -= 1;
    }
    let mut out = sub_vec(&cs, 0, e);
    proof {
        if e > 0 {
            assert(cs@.subrange(0, e as int).last() == cs@[e - 1]);
        }
        assert(trim_end_bs(cs@.subrange(0, e as int)) == cs@.subrange(0, e as int));
    }
    out.push('\\');
    let tail = str_chars(THU_MUC);
    let mut k: usize = 0;
    while k < tail.len()
        invariant
            k <= tail@.len(),
            tail@ == THU_MUC@,
            out@ == trim_end_bs(cs@) + seq!['\\'] + tail@.subrange(0, k as int),
        decreases tail@.len() - k,
    {
        out.push(tail[k]);
        assert(tail@.subrange(0, k + 1) =~= tail@.subrange(0, k as int).push(tail@[k as int]));
        k += 1;
    }
    assert(tail@.subrange(0, tail@.len() as int) =~= tail@);
    string_from_chars(out.as_slice())
}

/// The shares among `s`, in order, that lie on a server fingerprints may be
/// written to.
pub open spec fn writable_shares(s: Seq<Seq<char>>) -> Seq<Seq<char>>
    decreases s.len(),
{
    if s.len() == 0 {
        Seq::empty()
    } else {
        let r = writable_shares(s.drop_last());
        match host_of(s.last()) {
            Some(h) => if writable(h) {
                r.push(s.last())
            } else {
                r
            },
            None => r,
        }
    }
}

/// Keep the shares that lie on a server fingerprints may be written to.
///
/// A function of its own so that the filter is applied before anything
/// touches a file system: the writer never holds a path it must not write.
pub fn loc_share_duoc_ghi(shares: &[String]) -> (r: Vec<String>)
    ensures
        r@.map_values(|s: String| s@) == writable_shares(shares@.map_values(|s: String| s@)),
{
    let ghost all = shares@.map_values(|s: String| s@);
    let mut out: Vec<String> = Vec::new();
    let mut i: usize = 0;
    while i < shares.len()
        invariant
            i <= shares@.len(),
            all == shares@.map_values(|s: String| s@),
            out@.map_values(|s: String| s@) == writable_shares(all.subrange(0, i as int)),
        decreases shares@.len() - i,
    {
        let s = &shares[i];
        let keep = match may_chu(s.as_str()) {
            Some(mc) => duoc_ghi(mc.as_str()),
            None => false,
        };
        let ghost before = out@;
        assert(all.subrange(0, i + 1).drop_last() =~= all.subrange(0, i as int));
        assert(all.subrange(0, i + 1).last() == s@);
        if keep {
            out.push(s.clone());
            assert(out@.map_values(|s: String| s@) =~= before.map_values(|s: String| s@).push(s@));
        }
        i += 1;
    }
    assert(all.subrange(0, shares@.len() as int) =~= all);
    out
}

} // verus!
