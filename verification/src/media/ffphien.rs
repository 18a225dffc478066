//! Transcoded preview sessions: what a read hands back, and the content type
//! read out of the stream's own header.
//!
//! The player needs the exact codec string before it accepts a fragmented
//! MP4 over a media source, and that string is written in the `moov` box the
//! transcoder emits first.

use vstd::prelude::*;

verus! {

/// What reading a session gives.
#[derive(Debug, Clone, PartialEq, Eq)]
pub enum KetQuaDoc {
    /// Data (possibly none yet), and more to come.
    Tiep(Vec<u8>),
    /// The last piece: nothing follows it.
    Het(Vec<u8>),
    /// The session is gone: closed, reclaimed, or the transcoder failed.
    MatPhien,
}

/// A big-endian 32-bit number at `o`.
pub open spec fn be32(b: Seq<u8>, o: int) -> int {
    b[o] * 0x100_0000 + b[o + 1] * 0x1_0000 + b[o + 2] * 0x100 + b[o + 3]
}

/// `moov` in ASCII.
pub open spec fn tag_moov() -> Seq<u8> {
    seq![109u8, 111, 111, 118]
}

/// The `moov` box among the top-level boxes from `o` on, as (offset, size).
/// `None` when a box is malformed (smaller than its own header), when a box
/// has not fully arrived, or when the boxes end first.
pub open spec fn find_moov(b: Seq<u8>, o: int) -> Option<(int, int)>
    decreases b.len() - o,
{
    if o < 0 || o + 8 > b.len() {
        None
    } else {
        let co = be32(b, o);
        if co < 8 || o + co > b.len() {
            None
        } else if b.subrange(o + 4, o + 8) == tag_moov() {
            Some((o, co))
        } else {
            find_moov(b, o + co)
        }
    }
}

/// The first position of four-byte tag `t` at or after `from`.
pub open spec fn find_tag(b: Seq<u8>, t: Seq<u8>, from: int) -> Option<int>
    decreases b.len() - from,
{
    if from < 0 || from + 4 > b.len() {
        None
    } else if b.subrange(from, from + 4) == t {
        Some(from)
    } else {
        find_tag(b, t, from + 1)
    }
}

/// Uppercase hexadecimal digit.
pub open spec fn hex_digit(d: int) -> char {
    if d < 10 {
        ((48 + d) as u32) as char
    } else {
        ((55 + d) as u32) as char
    }
}

pub open spec fn hex2(x: u8) -> Seq<char> {
    seq![hex_digit(x as int / 16), hex_digit(x as int % 16)]
}

/// The content type a `moov` box announces: H.264 with its profile,
/// compatibility and level bytes from `avcC`, and AAC-LC when an `mp4a`
/// track is there.
pub open spec fn mime_of_moov(m: Seq<u8>) -> Option<Seq<char>> {
    match find_tag(m, seq![97u8, 118, 99, 67], 0) {
        None => None,
        Some(avc) => if avc + 8 > m.len() {
            None
        } else {
            let audio = if find_tag(m, seq![109u8, 112, 52, 97], 0) is Some {
                ", mp4a.40.2"@
            } else {
                seq![]
            };
            Some(
                "video/mp4; codecs=\"avc1."@ + hex2(m[avc + 5]) + hex2(m[avc + 6]) + hex2(m[avc + 7]) + audio
                    + "\""@,
            )
        },
    }
}

/// The content type the start of a fragmented MP4 announces, once its
/// `moov` box has fully arrived.
pub open spec fn stream_mime(b: Seq<u8>) -> Option<Seq<char>> {
    match find_moov(b, 0) {
        None => None,
        Some((o, co)) => mime_of_moov(b.subrange(o, o + co)),
    }
}

fn find_tag_in(b: &[u8], t: &[u8; 4]) -> (r: Option<usize>)
    ensures
        match find_tag(b@, t@, 0) {
            Some(p) => r == Some(p as usize),
            None => r is None,
        },
        r matches Some(p) ==> find_tag(b@, t@, 0) == Some(p as int) && p + 4 <= b@.len(),
{
    let n = b.len();
    let mut p: usize = 0;
    while p <= n && 4 <= n - p
        invariant
            p <= n,
            n == b@.len(),
            find_tag(b@, t@, 0) == find_tag(b@, t@, p as int),
        decreases n - p,
    {
        if b[p] == t[0] && b[p + 1] == t[1] && b[p + 2] == t[2] && b[p + 3] == t[3] {
            assert(b@.subrange(p as int, p + 4) =~= t@);
            return Some(p);
        }
        assert(b@.subrange(p as int, p + 4) != t@) by {
            if b@.subrange(p as int, p + 4) == t@ {
                assert(b@.subrange(p as int, p + 4)[0] == t@[0]);
                assert(b@.subrange(p as int, p + 4)[1] == t@[1]);
                assert(b@.subrange(p as int, p + 4)[2] == t@[2]);
                assert(b@.subrange(p as int, p + 4)[3] == t@[3]);
            }
        }
        p += 1;
    }
    None
}

fn push_hex2(out: &mut Vec<char>, x: u8)
    ensures
        final(out)@ == old(out)@ + hex2(x),
{
    let hi = x / 16;
    let lo = x % 16;
    let a: u8 = if hi < 10 { 48 + hi } else { 55 + hi };
    let b: u8 = if lo < 10 { 48 + lo } else { 55 + lo };
    out.push(a as char);
    out.push(b as char);
    assert(final(out)@ =~= old(out)@ + hex2(x));
}

fn push_lit(out: &mut Vec<char>, s: &str)
    ensures
        final(out)@ == old(out)@ + s@,
{
    let w = crate::text::str_chars(s);
    let ghost start = out@;
    let mut k: usize = 0;
    while k < w.len()
        invariant
            k <= w@.len(),
            out@ == start + w@.subrange(0, k as int),
        decreases w@.len() - k,
    {
        out.push(w[k]);
        assert(w@.subrange(0, k + 1) =~= w@.subrange(0, k as int).push(w@[k as int]));
        k += 1;
    }
    assert(w@.subrange(0, w@.len() as int) =~= w@);
}

/// Read the codec string out of the start of a transcoded stream.
pub fn doc_mime(b: &[u8]) -> (r: Option<String>)
    ensures
        match stream_mime(b@) {
            Some(m) => r matches Some(s) && s@ == m,
            None => r is None,
        },
{
    let n = b.len();
    let mut o: usize = 0;
    while o <= n && 8 <= n - o
        invariant
            n == b@.len(),
            o <= n,
            find_moov(b@, 0) == find_moov(b@, o as int),
        decreases n - o,
    {
        let co: usize = ((b[o] as u32) * 0x100_0000 + (b[o + 1] as u32) * 0x1_0000 + (b[o + 2] as u32) * 0x100
            + (b[o + 3] as u32)) as usize;
        assert(co as int == be32(b@, o as int));
        if co < 8 {
            return None;
        }
        if co > n - o {
            return None;
        }
        if b[o + 4] == 109 && b[o + 5] == 111 && b[o + 6] == 111 && b[o + 7] == 118 {
            assert(b@.subrange(o + 4, o + 8) =~= tag_moov());
            let moov = crate::parse::copy_range(b, o, o + co);
            let ghost m = b@.subrange(o as int, o + co);
            assert(find_moov(b@, o as int) == Some((o as int, co as int)));
            assert(moov@ == m);
            assert(stream_mime(b@) == mime_of_moov(m));
            let tag_avc: [u8; 4] = [97, 118, 99, 67];
            let tag_mp4a: [u8; 4] = [109, 112, 52, 97];
            assert(tag_avc@ =~= seq![97u8, 118, 99, 67]);
            assert(tag_mp4a@ =~= seq![109u8, 112, 52, 97]);
            let avc = match find_tag_in(moov.as_slice(), &tag_avc) {
                Some(p) => p,
                None => {
                    assert(find_tag(m, seq![97u8, 118, 99, 67], 0) is None);
                    assert(mime_of_moov(m) is None);
                    return None;
                },
            };
            if avc > moov.len() || 8 > moov.len() - avc {
                return None;
            }
            let mut out: Vec<char> = Vec::new();
            push_lit(&mut out, "video/mp4; codecs=\"avc1.");
            push_hex2(&mut out, moov[avc + 5]);
            push_hex2(&mut out, moov[avc + 6]);
            push_hex2(&mut out, moov[avc + 7]);
            let audio = find_tag_in(moov.as_slice(), &tag_mp4a);
            if audio.is_some() {
                push_lit(&mut out, ", mp4a.40.2");
            }
            push_lit(&mut out, "\"");
            proof {
                if audio.is_some() {
                    assert(out@ =~= "video/mp4; codecs=\"avc1."@ + hex2(m[avc + 5]) + hex2(m[avc + 6]) + hex2(m[avc + 7])
                        + ", mp4a.40.2"@ + "\""@);
                } else {
                    assert(out@ =~= "video/mp4; codecs=\"avc1."@ + hex2(m[avc + 5]) + hex2(m[avc + 6]) + hex2(m[avc + 7])
                        + seq![] + "\""@);
                }
            }
            return Some(crate::text::string_from_chars(out.as_slice()));
        }
        assert(b@.subrange(o + 4, o + 8) != tag_moov()) by {
            if b@.subrange(o + 4, o + 8) == tag_moov() {
                assert(b@.subrange(o + 4, o + 8)[0] == 109u8);
                assert(b@.subrange(o + 4, o + 8)[1] == 111u8);
                assert(b@.subrange(o + 4, o + 8)[2] == 111u8);
                assert(b@.subrange(o + 4, o + 8)[3] == 118u8);
            }
        }
        o = o + co;
    }
    None
}

} // verus!
