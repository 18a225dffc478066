//! Whether a video can be handed to the player as it is, or has to be
//! transcoded first.
//!
//! Asking ffprobe costs a process launch, so only extensions that may hold a
//! codec the webview cannot play are asked about: `.mp4` and `.webm`, nearly
//! the whole library, always play straight.

use vstd::prelude::*;

use crate::text::{chars_equal, file_ext_lower, lower_bytes, str_chars, ext_of};
use vstd::string::StringSliceAdditionalSpecFns;
use vstd::utf8::encode_utf8;

verus! {

/// Extensions (lowercase ASCII) that may hold a codec the webview cannot
/// play: `mov mkv avi mts m2ts ts wmv asf flv mpg mpeg`.
pub open spec fn may_need_transcode(e: Seq<u8>) -> bool {
    e == seq![109u8, 111, 118] || e == seq![109u8, 107, 118] || e == seq![97u8, 118, 105] || e == seq![
        109u8,
        116,
        115,
    ] || e == seq![109u8, 50, 116, 115] || e == seq![116u8, 115] || e == seq![119u8, 109, 118] || e == seq![
        97u8,
        115,
        102,
    ] || e == seq![102u8, 108, 118] || e == seq![109u8, 112, 103] || e == seq![109u8, 112, 101, 103]
}

/// A path worth asking ffprobe about: its extension, lowercased, may hold a
/// codec the webview cannot play.
pub open spec fn transcode_candidate(path: Seq<char>) -> bool {
    match ext_of(encode_utf8(path)) {
        Some(e) => may_need_transcode(lower_bytes(e)),
        None => may_need_transcode(seq![]),
    }
}

fn bytes_are(v: &Vec<u8>, lit: &[u8]) -> (r: bool)
    ensures
        r == (v@ == lit@),
{
    crate::text::bytes_eq(v.as_slice(), lit)
}

/// Whether the file at `path` is worth one question to ffprobe, by its
/// extension, case aside.
pub fn co_the_can_chuyen_ma(path: &str) -> (r: bool)
    ensures
        r == match ext_of(path.spec_bytes()) {
            Some(e) => may_need_transcode(lower_bytes(e)),
            None => may_need_transcode(seq![]),
        },
{
    let e = match file_ext_lower(path) {
        Some(e) => e,
        None => Vec::new(),
    };
    let a: [u8; 3] = [109, 111, 118];
    let b: [u8; 3] = [109, 107, 118];
    let c: [u8; 3] = [97, 118, 105];
    let d: [u8; 3] = [109, 116, 115];
    let f: [u8; 4] = [109, 50, 116, 115];
    let g: [u8; 2] = [116, 115];
    let h: [u8; 3] = [119, 109, 118];
    let i: [u8; 3] = [97, 115, 102];
    let j: [u8; 3] = [102, 108, 118];
    let k: [u8; 3] = [109, 112, 103];
    let l: [u8; 4] = [109, 112, 101, 103];
    assert(a@ =~= seq![109u8, 111, 118]);
    assert(b@ =~= seq![109u8, 107, 118]);
    assert(c@ =~= seq![97u8, 118, 105]);
    assert(d@ =~= seq![109u8, 116, 115]);
    assert(f@ =~= seq![109u8, 50, 116, 115]);
    assert(g@ =~= seq![116u8, 115]);
    assert(h@ =~= seq![119u8, 109, 118]);
    assert(i@ =~= seq![97u8, 115, 102]);
    assert(j@ =~= seq![102u8, 108, 118]);
    assert(k@ =~= seq![109u8, 112, 103]);
    assert(l@ =~= seq![109u8, 112, 101, 103]);
    proof {
        if ext_of(path.spec_bytes()) is None {
            assert(e@ =~= seq![]);
        }
    }
    bytes_are(&e, &a) || bytes_are(&e, &b) || bytes_are(&e, &c) || bytes_are(&e, &d) || bytes_are(&e, &f)
        || bytes_are(&e, &g) || bytes_are(&e, &h) || bytes_are(&e, &i) || bytes_are(&e, &j) || bytes_are(&e, &k)
        || bytes_are(&e, &l)
}

/// Video codecs the webview plays as they are. An allow list: an unknown
/// codec is transcoded, slower but certain to show a picture.
pub const PHAT_THANG_DUOC: [&'static str; 4] = ["h264", "vp8", "vp9", "av1"];

/// Whether codec `c` plays straight.
pub open spec fn plays_straight(c: Seq<char>) -> bool {
    exists|i: int| 0 <= i < PHAT_THANG_DUOC@.len() && #[trigger] PHAT_THANG_DUOC@[i]@ == c
}

fn plays(codec: &str) -> (r: bool)
    ensures
        r == plays_straight(codec@),
{
    let cs = str_chars(codec);
    let list = PHAT_THANG_DUOC;
    let mut i: usize = 0;
    while i < 4
        invariant
            i <= 4,
            list@ == PHAT_THANG_DUOC@,
            cs@ == codec@,
            forall|q: int| 0 <= q < i ==> #[trigger] PHAT_THANG_DUOC@[q]@ != codec@,
        decreases 4 - i,
    {
        if chars_equal(str_chars(list[i]).as_slice(), cs.as_slice()) {
            return true;
        }
        i += 1;
    }
    false
}

/// Whether to transcode `path`, given what ffprobe said of its first video
/// stream's codec (`None` when it could not be asked or could not read the
/// file) and whether the player already failed on it (`bat_buoc`).
///
/// An extension that always plays is not asked about unless the player
/// failed; a file ffprobe cannot read plays straight, since ffmpeg could not
/// transcode it either.
pub open spec fn transcode(path: Seq<u8>, bat_buoc: bool, codec: Option<Seq<char>>) -> bool {
    let asked = bat_buoc || match ext_of(path) {
        Some(e) => may_need_transcode(lower_bytes(e)),
        None => may_need_transcode(seq![]),
    };
    asked && match codec {
        None => false,
        Some(c) => bat_buoc || !plays_straight(c),
    }
}

/// Decide how to play `path`, once the probe (if any was needed) answered.
pub fn nen_chuyen_ma(path: &str, bat_buoc: bool, codec: Option<&str>) -> (r: bool)
    ensures
        r == transcode(
            path.spec_bytes(),
            bat_buoc,
            match codec {
                Some(c) => Some(c@),
                None => None,
            },
        ),
{
    if !bat_buoc && !co_the_can_chuyen_ma(path) {
        return false;
    }
    match codec {
        None => false,
        Some(c) => bat_buoc || !plays(c),
    }
}

} // verus!
