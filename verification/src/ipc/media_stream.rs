//! The `media://` protocol: full-resolution files for the preview pane,
//! served in byte ranges so a film is never read whole into memory.

use vstd::prelude::*;
use vstd::string::StringSliceAdditionalSpecFns;

use crate::parse::{
    find_char, find_char_from, has_at, parse_u64_chars, parse_unsigned, starts_with_at, sub_vec, trim,
    trim_chars,
};
use crate::text::{ext_of, file_ext_lower, file_name_of, lower_bytes, rfind_byte, rfind_sep, str_chars};
use crate::index::model::{audio_extensions, ext_kind, image_extensions, lemma_rfind_skips, MediaKind};

verus! {

/// The URI scheme this handler is registered under.
pub const SCHEME: &'static str = "media";

/// Largest slice of a file one response carries.
pub const MAX_CHUNK: u64 = 8 * 1024 * 1024;

/// Largest file sent whole when the player asks for no range.
pub const MAX_WHOLE: u64 = 256 * 1024 * 1024;

/// The byte range a `Range` header asks for, clamped to the file and capped at
/// [`MAX_CHUNK`]; `None` for anything not understood, rather than guess.
///
/// `bytes=a-b`, `bytes=a-` and the suffix form `bytes=-n` are accepted; a list
/// of ranges is not.
pub open spec fn range_for(h: Seq<char>, len: u64) -> Option<(u64, u64)> {
    let t = trim(h);
    if !has_at(t, 0, "bytes="@) {
        None
    } else {
        let sp = t.subrange("bytes="@.len() as int, t.len() as int);
        if find_char(sp, ',') is Some {
            None
        } else {
            match find_char(sp, '-') {
                None => None,
                Some(k) => {
                    let from = sp.subrange(0, k);
                    let to = sp.subrange(k + 1, sp.len() as int);
                    let se: Option<(int, int)> = if from.len() == 0 {
                        match parse_unsigned(trim(to), u64::MAX as nat) {
                            None => None,
                            Some(n) => if n == 0 {
                                None
                            } else {
                                Some((if n >= len { 0 } else { len - n }, len - 1))
                            },
                        }
                    } else {
                        match parse_unsigned(trim(from), u64::MAX as nat) {
                            None => None,
                            Some(start) => if trim(to).len() == 0 {
                                Some((start as int, len - 1))
                            } else {
                                match parse_unsigned(trim(to), u64::MAX as nat) {
                                    None => None,
                                    Some(e) => Some((start as int, if e < len - 1 { e as int } else { len - 1 })),
                                }
                            },
                        }
                    };
                    match se {
                        None => None,
                        Some((start, end)) => if start > end || start >= len {
                            None
                        } else {
                            Some((start as u64, (if end - start >= MAX_CHUNK { start + MAX_CHUNK - 1 } else { end }) as u64))
                        },
                    }
                },
            }
        }
    }
}

/// Parse a `Range` header for a file of `len` bytes.
pub fn parse_range(header: &str, len: u64) -> (r: Option<(u64, u64)>)
    ensures
        r == range_for(header@, len),
{
    if len == 0 {
        // Every range starts at or after the end of an empty file.
        return None;
    }
    let cs = str_chars(header);
    let t = trim_chars(&cs);
    if !starts_with_at(&t, 0, "bytes=") {
        return None;
    }
    let plen = str_chars("bytes=").len();
    let sp = sub_vec(&t, plen, t.len());
    if find_char_from(&sp, ',', 0).is_some() {
        assert(sp@.subrange(0, sp@.len() as int) =~= sp@);
        return None;
    }
    assert(sp@.subrange(0, sp@.len() as int) =~= sp@);
    let k = match find_char_from(&sp, '-', 0) {
        Some(k) => k,
        None => return None,
    };
    proof {
        crate::parse::lemma_find_char(sp@, '-');
    }
    let from = sub_vec(&sp, 0, k);
    let to = sub_vec(&sp, k + 1, sp.len());
    let tt = trim_chars(&to);
    assert(tt@.subrange(0, tt@.len() as int) =~= tt@);
    let (start, end): (u64, u64) = if from.len() == 0 {
        let n = match parse_u64_chars(&tt, 0, u64::MAX) {
            Some(n) => n,
            None => return None,
        };
        if n == 0 {
            return None;
        }
        (if n >= len { 0 } else { len - n }, len - 1)
    } else {
        let tf = trim_chars(&from);
        assert(tf@.subrange(0, tf@.len() as int) =~= tf@);
        let start = match parse_u64_chars(&tf, 0, u64::MAX) {
            Some(s) => s,
            None => return None,
        };
        let end = if tt.len() == 0 {
            len - 1
        } else {
            match parse_u64_chars(&tt, 0, u64::MAX) {
                Some(e) => if e < len - 1 { e } else { len - 1 },
                None => return None,
            }
        };
        (start, end)
    };
    if start > end || start >= len {
        return None;
    }
    Some((start, if end - start >= MAX_CHUNK { start + MAX_CHUNK - 1 } else { end }))
}

/// The content type for a lowercase extension.
pub open spec fn mime_of_ext(e: Seq<u8>) -> Seq<char> {
    if e.len() == 2 {
        match (e[0], e[1]) {
            (116, 115) // ts
            => "video/mp2t"@,
            (114, 109) // rm
            => "video/vnd.rn-realvideo"@,
            _ => "application/octet-stream"@,
        }
    } else if e.len() == 3 {
        match (e[0], e[1], e[2]) {
            (109, 112, 52) // mp4
            | (109, 52, 118) // m4v
            | (109, 111, 118) // mov
            | (102, 52, 118) // f4v
            => "video/mp4"@,
            (109, 107, 118) // mkv
            => "video/x-matroska"@,
            (97, 118, 105) // avi
            => "video/x-msvideo"@,
            (109, 116, 115) // mts
            => "video/mp2t"@,
            (109, 112, 103) // mpg
            | (109, 50, 118) // m2v
            | (109, 112, 118) // mpv
            | (118, 111, 98) // vob
            => "video/mpeg"@,
            (51, 103, 112) // 3gp
            => "video/3gpp"@,
            (111, 103, 118) // ogv
            => "video/ogg"@,
            (102, 108, 118) // flv
            => "video/x-flv"@,
            (119, 109, 118) // wmv
            | (97, 115, 102) // asf
            => "video/x-ms-wmv"@,
            (106, 112, 103) // jpg
            => "image/jpeg"@,
            (112, 110, 103) // png
            => "image/png"@,
            (103, 105, 102) // gif
            => "image/gif"@,
            (98, 109, 112) // bmp
            => "image/bmp"@,
            (105, 99, 111) // ico
            => "image/x-icon"@,
            (115, 118, 103) // svg
            => "image/svg+xml"@,
            (116, 105, 102) // tif
            => "image/tiff"@,
            (109, 112, 51) // mp3
            => "audio/mpeg"@,
            (109, 52, 97) // m4a
            | (109, 52, 98) // m4b
            | (97, 97, 99) // aac
            => "audio/mp4"@,
            (119, 97, 118) // wav
            => "audio/wav"@,
            (111, 103, 103) // ogg
            | (111, 103, 97) // oga
            => "audio/ogg"@,
            (97, 105, 102) // aif
            => "audio/aiff"@,
            (119, 109, 97) // wma
            => "audio/x-ms-wma"@,
            (109, 105, 100) // mid
            => "audio/midi"@,
            _ => "application/octet-stream"@,
        }
    } else if e.len() == 4 {
        match (e[0], e[1], e[2], e[3]) {
            (119, 101, 98, 109) // webm
            => "video/webm"@,
            (109, 50, 116, 115) // m2ts
            => "video/mp2t"@,
            (109, 112, 101, 103) // mpeg
            => "video/mpeg"@,
            (114, 109, 118, 98) // rmvb
            => "video/vnd.rn-realvideo"@,
            (100, 105, 118, 120) // divx
            => "video/x-msvideo"@,
            (106, 112, 101, 103) // jpeg
            | (106, 102, 105, 102) // jfif
            => "image/jpeg"@,
            (119, 101, 98, 112) // webp
            => "image/webp"@,
            (97, 118, 105, 102) // avif
            => "image/avif"@,
            (104, 101, 105, 99) // heic
            | (104, 101, 105, 102) // heif
            => "image/heic"@,
            (116, 105, 102, 102) // tiff
            => "image/tiff"@,
            (111, 112, 117, 115) // opus
            => "audio/ogg"@,
            (102, 108, 97, 99) // flac
            => "audio/flac"@,
            (119, 101, 98, 97) // weba
            => "audio/webm"@,
            (97, 105, 102, 102) // aiff
            => "audio/aiff"@,
            (109, 105, 100, 105) // midi
            => "audio/midi"@,
            _ => "application/octet-stream"@,
        }
    } else {
        "application/octet-stream"@
    }
}

fn mime_of(e: &Vec<u8>) -> (r: &'static str)
    ensures
        r@ == mime_of_ext(e@),
{
    if e.len() == 2 {
        match (e[0], e[1]) {
            (116, 115) // ts
            => "video/mp2t",
            (114, 109) // rm
            => "video/vnd.rn-realvideo",
            _ => "application/octet-stream",
        }
    } else if e.len() == 3 {
        match (e[0], e[1], e[2]) {
            (109, 112, 52) // mp4
            | (109, 52, 118) // m4v
            | (109, 111, 118) // mov
            | (102, 52, 118) // f4v
            => "video/mp4",
            (109, 107, 118) // mkv
            => "video/x-matroska",
            (97, 118, 105) // avi
            => "video/x-msvideo",
            (109, 116, 115) // mts
            => "video/mp2t",
            (109, 112, 103) // mpg
            | (109, 50, 118) // m2v
            | (109, 112, 118) // mpv
            | (118, 111, 98) // vob
            => "video/mpeg",
            (51, 103, 112) // 3gp
            => "video/3gpp",
            (111, 103, 118) // ogv
            => "video/ogg",
            (102, 108, 118) // flv
            => "video/x-flv",
            (119, 109, 118) // wmv
            | (97, 115, 102) // asf
            => "video/x-ms-wmv",
            (106, 112, 103) // jpg
            => "image/jpeg",
            (112, 110, 103) // png
            => "image/png",
            (103, 105, 102) // gif
            => "image/gif",
            (98, 109, 112) // bmp
            => "image/bmp",
            (105, 99, 111) // ico
            => "image/x-icon",
            (115, 118, 103) // svg
            => "image/svg+xml",
            (116, 105, 102) // tif
            => "image/tiff",
            (109, 112, 51) // mp3
            => "audio/mpeg",
            (109, 52, 97) // m4a
            | (109, 52, 98) // m4b
            | (97, 97, 99) // aac
            => "audio/mp4",
            (119, 97, 118) // wav
            => "audio/wav",
            (111, 103, 103) // ogg
            | (111, 103, 97) // oga
            => "audio/ogg",
            (97, 105, 102) // aif
            => "audio/aiff",
            (119, 109, 97) // wma
            => "audio/x-ms-wma",
            (109, 105, 100) // mid
            => "audio/midi",
            _ => "application/octet-stream",
        }
    } else if e.len() == 4 {
        match (e[0], e[1], e[2], e[3]) {
            (119, 101, 98, 109) // webm
            => "video/webm",
            (109, 50, 116, 115) // m2ts
            => "video/mp2t",
            (109, 112, 101, 103) // mpeg
            => "video/mpeg",
            (114, 109, 118, 98) // rmvb
            => "video/vnd.rn-realvideo",
            (100, 105, 118, 120) // divx
            => "video/x-msvideo",
            (106, 112, 101, 103) // jpeg
            | (106, 102, 105, 102) // jfif
            => "image/jpeg",
            (119, 101, 98, 112) // webp
            => "image/webp",
            (97, 118, 105, 102) // avif
            => "image/avif",
            (104, 101, 105, 99) // heic
            | (104, 101, 105, 102) // heif
            => "image/heic",
            (116, 105, 102, 102) // tiff
            => "image/tiff",
            (111, 112, 117, 115) // opus
            => "audio/ogg",
            (102, 108, 97, 99) // flac
            => "audio/flac",
            (119, 101, 98, 97) // weba
            => "audio/webm",
            (97, 105, 102, 102) // aiff
            => "audio/aiff",
            (109, 105, 100, 105) // midi
            => "audio/midi",
            _ => "application/octet-stream",
        }
    } else {
        "application/octet-stream"
    }
}

/// The content type a browser needs to play or show the file at `path`,
/// chosen by its extension, case aside. QuickTime is announced as MP4, which
/// the webview plays; anything unknown is left unclaimed.
pub fn mime_for(path: &str) -> (r: &'static str)
    ensures
        r@ == match ext_of(path.spec_bytes()) {
            Some(e) => mime_of_ext(lower_bytes(e)),
            None => mime_of_ext(seq![]),
        },
{
    match file_ext_lower(path) {
        Some(e) => mime_of(&e),
        None => mime_of(&Vec::new()),
    }
}

proof fn lemma_rfind_sep_skips(a: Seq<u8>, e: Seq<u8>)
    requires
        forall|j: int| 0 <= j < e.len() ==> e[j] != 92 && e[j] != 47,
    ensures
        rfind_sep(a + e) == rfind_sep(a),
    decreases e.len(),
{
    if e.len() == 0 {
        assert(a + e =~= a);
    } else {
        assert((a + e).drop_last() =~= a + e.drop_last());
        assert((a + e).last() == e.last());
        lemma_rfind_sep_skips(a, e.drop_last());
    }
}

/// A file is served by the extension after the last dot of its own name,
/// whatever folders it sits in: `d:\music.v2\song.wav` by `wav`, and
/// `take.1.wav` by `wav` too.
pub proof fn a_file_is_served_by_its_last_extension(dir: Seq<u8>, stem: Seq<u8>, e: Seq<u8>)
    requires
        stem.len() >= 1,
        e.len() >= 1,
        forall|j: int| 0 <= j < stem.len() ==> stem[j] != 92 && stem[j] != 47,
        forall|j: int| 0 <= j < e.len() ==> e[j] != 92 && e[j] != 47 && e[j] != 46,
    ensures
        ext_of(dir + seq![92u8] + stem + seq![46u8] + e) == Some(e),
{
    let a = dir + seq![92u8];
    let name = stem + seq![46u8] + e;
    let path = dir + seq![92u8] + stem + seq![46u8] + e;
    assert(path =~= a + name);
    assert forall|j: int| 0 <= j < name.len() implies name[j] != 92 && name[j] != 47 by {
        if j < stem.len() {
            assert(name[j] == stem[j]);
        } else if j > stem.len() {
            assert(name[j] == e[j - stem.len() - 1]);
        }
    }
    lemma_rfind_sep_skips(a, name);
    assert(a.last() == 92);
    assert(rfind_sep(a) == Some(dir.len() as int));
    assert(path.subrange(dir.len() as int + 1, path.len() as int) =~= name);
    assert(file_name_of(path) == name);
    let b = stem + seq![46u8];
    assert(name =~= b + e);
    lemma_rfind_skips(b, e, 46);
    assert(b.last() == 46);
    assert(rfind_byte(name, 46) == Some(stem.len() as int));
    assert(name.subrange(stem.len() as int + 1, name.len() as int) =~= e);
    assert(!(name =~= seq![46u8, 46u8]));
}

/// Audio formats the webview does not play: served unclaimed, for the
/// browser to decide.
pub open spec fn audio_left_unclaimed() -> Set<Seq<u8>> {
    set![
        seq![97u8, 112, 101] /* ape */,
        seq![97u8, 108, 97, 99] /* alac */,
        seq![97u8, 99, 51] /* ac3 */,
        seq![100u8, 116, 115] /* dts */,
        seq![100u8, 115, 102] /* dsf */,
        seq![100u8, 102, 102] /* dff */,
        seq![109u8, 107, 97] /* mka */,
        seq![97u8, 109, 114] /* amr */,
        seq![119u8, 118] /* wv */,
        seq![116u8, 116, 97] /* tta */,
    ]
}

/// Image formats the webview does not show (layered and camera raw files):
/// served unclaimed.
pub open spec fn image_left_unclaimed() -> Set<Seq<u8>> {
    set![
        seq![112u8, 115, 100] /* psd */,
        seq![114u8, 97, 119] /* raw */,
        seq![99u8, 114, 50] /* cr2 */,
        seq![99u8, 114, 51] /* cr3 */,
        seq![110u8, 101, 102] /* nef */,
        seq![97u8, 114, 119] /* arw */,
        seq![100u8, 110, 103] /* dng */,
        seq![111u8, 114, 102] /* orf */,
        seq![114u8, 119, 50] /* rw2 */,
        seq![114u8, 97, 102] /* raf */,
        seq![115u8, 114, 50] /* sr2 */,
    ]
}

/// Content type `m` names a type of family `family`, such as `audio/`.
pub open spec fn claims(m: Seq<char>, family: Seq<char>) -> bool {
    m.len() >= family.len() && m.subrange(0, family.len() as int) == family
}

/// Every audio file the index holds is served with an `audio/` type, except
/// the formats the webview cannot play, which are served unclaimed: a `.wav`
/// leaves as `audio/wav`, never as `application/octet-stream`.
pub proof fn every_playable_audio_is_claimed_as_audio(e: Seq<u8>)
    requires
        audio_extensions().contains(e),
    ensures
        claims(mime_of_ext(e), "audio/"@) <==> !audio_left_unclaimed().contains(e),
        audio_left_unclaimed().contains(e) ==> mime_of_ext(e) == "application/octet-stream"@,
{
    reveal_strlit("audio/");
    reveal_strlit("application/octet-stream");
    reveal_strlit("audio/mpeg");
    reveal_strlit("audio/mp4");
    reveal_strlit("audio/wav");
    reveal_strlit("audio/ogg");
    reveal_strlit("audio/flac");
    reveal_strlit("audio/aiff");
    reveal_strlit("audio/x-ms-wma");
    reveal_strlit("audio/midi");
    if e.len() == 2 {
        assert(e =~= seq![e[0], e[1]]);
    } else if e.len() == 3 {
        assert(e =~= seq![e[0], e[1], e[2]]);
    } else if e.len() == 4 {
        assert(e =~= seq![e[0], e[1], e[2], e[3]]);
    }
    if audio_left_unclaimed().contains(e) {
        assert(mime_of_ext(e) == "application/octet-stream"@);
        assert(mime_of_ext(e).subrange(0, 6)[1] != "audio/"@[1]);
    } else {
        assert(mime_of_ext(e).subrange(0, 6) =~= "audio/"@);
    }
}

/// Every image file the index holds is served with an `image/` type, except
/// layered and camera raw files, which are served unclaimed.
pub proof fn every_viewable_image_is_claimed_as_image(e: Seq<u8>)
    requires
        image_extensions().contains(e),
    ensures
        claims(mime_of_ext(e), "image/"@) <==> !image_left_unclaimed().contains(e),
        image_left_unclaimed().contains(e) ==> mime_of_ext(e) == "application/octet-stream"@,
{
    reveal_strlit("image/");
    reveal_strlit("application/octet-stream");
    reveal_strlit("image/jpeg");
    reveal_strlit("image/png");
    reveal_strlit("image/gif");
    reveal_strlit("image/bmp");
    reveal_strlit("image/x-icon");
    reveal_strlit("image/svg+xml");
    reveal_strlit("image/tiff");
    reveal_strlit("image/webp");
    reveal_strlit("image/avif");
    reveal_strlit("image/heic");
    if e.len() == 3 {
        assert(e =~= seq![e[0], e[1], e[2]]);
    } else if e.len() == 4 {
        assert(e =~= seq![e[0], e[1], e[2], e[3]]);
    }
    if image_left_unclaimed().contains(e) {
        assert(mime_of_ext(e) == "application/octet-stream"@);
        assert(mime_of_ext(e).subrange(0, 6)[0] != "image/"@[0]);
    } else {
        assert(mime_of_ext(e).subrange(0, 6) =~= "image/"@);
    }
}

/// Every extension the index classifies as video is served with a `video/`
/// type: a video never leaves as `application/octet-stream`, which the
/// webview refuses to play.
pub proof fn every_video_is_claimed_as_video(e: Seq<u8>)
    requires
        ext_kind(e) == Some(MediaKind::Video),
    ensures
        mime_of_ext(e).len() >= 6,
        mime_of_ext(e).subrange(0, 6) == "video/"@,
{
    reveal_strlit("video/");
    reveal_strlit("video/mp2t");
    reveal_strlit("video/vnd.rn-realvideo");
    reveal_strlit("video/mp4");
    reveal_strlit("video/x-matroska");
    reveal_strlit("video/x-msvideo");
    reveal_strlit("video/mpeg");
    reveal_strlit("video/3gpp");
    reveal_strlit("video/ogg");
    reveal_strlit("video/x-flv");
    reveal_strlit("video/x-ms-wmv");
    reveal_strlit("video/webm");
    assert(mime_of_ext(e).subrange(0, 6) =~= "video/"@);
}

} // verus!
