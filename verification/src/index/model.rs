//! The in-memory database: `MediaKind`, the extension table, and `Index`.

use vstd::prelude::*;
use vstd::string::StringSliceAdditionalSpecFns;

use vstd::utf8::{decode_utf8, encode_utf8, valid_utf8};

use crate::index::fold::{fold_chars, fold_into};
use crate::text::{
    lower_byte, lower_bytes, rfind, rfind_byte, str_from_utf8, string_clear, string_push, string_push_str, to_lower_byte,
    to_upper_byte, upper_byte,
};

verus! {

/// What sort of media a file is.
#[derive(Debug, Clone, Copy, PartialEq, Eq, Hash, Structural)]
pub enum MediaKind {
    Video,
    Image,
    Audio,
}

/// The label the interface shows for each kind.
pub open spec fn kind_label(k: MediaKind) -> Seq<char> {
    match k {
        MediaKind::Video => seq!['v', 'i', 'd', 'e', 'o'],
        MediaKind::Image => seq!['i', 'm', 'a', 'g', 'e'],
        MediaKind::Audio => seq!['a', 'u', 'd', 'i', 'o'],
    }
}

impl MediaKind {
    pub fn as_str(self) -> (s: &'static str)
        ensures
            s@ == kind_label(self),
    {
        proof {
            reveal_strlit("video");
            reveal_strlit("image");
            reveal_strlit("audio");
        }
        match self {
            MediaKind::Video => "video",
            MediaKind::Image => "image",
            MediaKind::Audio => "audio",
        }
    }
}

/// The extension table: a lowercase ASCII extension, without its dot, and the
/// kind of media it names.
///
/// `ts` is deliberately absent: on a machine with source code on it TypeScript
/// outnumbers transport streams by orders of magnitude. Camcorder and Blu-ray
/// footage is covered by `m2ts` and `mts`.
pub open spec fn ext_kind(e: Seq<u8>) -> Option<MediaKind> {
    if e.len() == 2 {
        match (e[0], e[1]) {
            (114, 109) // rm
            => Some(MediaKind::Video),
            (119, 118) // wv
            => Some(MediaKind::Audio),
            _ => None,
        }
    } else if e.len() == 3 {
        match (e[0], e[1], e[2]) {
            (109, 112, 52) // mp4
            | (109, 107, 118) // mkv
            | (97, 118, 105) // avi
            | (109, 111, 118) // mov
            | (119, 109, 118) // wmv
            | (102, 108, 118) // flv
            | (109, 52, 118) // m4v
            | (109, 112, 103) // mpg
            | (109, 116, 115) // mts
            | (51, 103, 112) // 3gp
            | (118, 111, 98) // vob
            | (111, 103, 118) // ogv
            | (97, 115, 102) // asf
            | (102, 52, 118) // f4v
            | (109, 50, 118) // m2v
            | (109, 112, 118) // mpv
            => Some(MediaKind::Video),
            (106, 112, 103) // jpg
            | (112, 110, 103) // png
            | (103, 105, 102) // gif
            | (98, 109, 112) // bmp
            | (116, 105, 102) // tif
            | (105, 99, 111) // ico
            | (115, 118, 103) // svg
            | (112, 115, 100) // psd
            | (114, 97, 119) // raw
            | (99, 114, 50) // cr2
            | (99, 114, 51) // cr3
            | (110, 101, 102) // nef
            | (97, 114, 119) // arw
            | (100, 110, 103) // dng
            | (111, 114, 102) // orf
            | (114, 119, 50) // rw2
            | (114, 97, 102) // raf
            | (115, 114, 50) // sr2
            => Some(MediaKind::Image),
            (109, 112, 51) // mp3
            | (119, 97, 118) // wav
            | (97, 97, 99) // aac
            | (111, 103, 103) // ogg
            | (111, 103, 97) // oga
            | (109, 52, 97) // m4a
            | (109, 52, 98) // m4b
            | (119, 109, 97) // wma
            | (97, 105, 102) // aif
            | (97, 112, 101) // ape
            | (97, 99, 51) // ac3
            | (100, 116, 115) // dts
            | (100, 115, 102) // dsf
            | (100, 102, 102) // dff
            | (109, 107, 97) // mka
            | (97, 109, 114) // amr
            | (109, 105, 100) // mid
            | (116, 116, 97) // tta
            => Some(MediaKind::Audio),
            _ => None,
        }
    } else if e.len() == 4 {
        match (e[0], e[1], e[2], e[3]) {
            (119, 101, 98, 109) // webm
            | (109, 112, 101, 103) // mpeg
            | (109, 50, 116, 115) // m2ts
            | (114, 109, 118, 98) // rmvb
            | (100, 105, 118, 120) // divx
            => Some(MediaKind::Video),
            (106, 112, 101, 103) // jpeg
            | (106, 102, 105, 102) // jfif
            | (119, 101, 98, 112) // webp
            | (116, 105, 102, 102) // tiff
            | (104, 101, 105, 99) // heic
            | (104, 101, 105, 102) // heif
            | (97, 118, 105, 102) // avif
            => Some(MediaKind::Image),
            (102, 108, 97, 99) // flac
            | (111, 112, 117, 115) // opus
            | (97, 105, 102, 102) // aiff
            | (97, 108, 97, 99) // alac
            | (109, 105, 100, 105) // midi
            => Some(MediaKind::Audio),
            _ => None,
        }
    } else {
        None
    }
}

/// Classify a lowercase ASCII extension (without the dot).
pub fn kind_from_ext(ext: &[u8]) -> (r: Option<MediaKind>)
    ensures
        r == ext_kind(ext@),
{
    if ext.len() == 2 {
        match (ext[0], ext[1]) {
            (114, 109) // rm
            => Some(MediaKind::Video),
            (119, 118) // wv
            => Some(MediaKind::Audio),
            _ => None,
        }
    } else if ext.len() == 3 {
        match (ext[0], ext[1], ext[2]) {
            (109, 112, 52) // mp4
            | (109, 107, 118) // mkv
            | (97, 118, 105) // avi
            | (109, 111, 118) // mov
            | (119, 109, 118) // wmv
            | (102, 108, 118) // flv
            | (109, 52, 118) // m4v
            | (109, 112, 103) // mpg
            | (109, 116, 115) // mts
            | (51, 103, 112) // 3gp
            | (118, 111, 98) // vob
            | (111, 103, 118) // ogv
            | (97, 115, 102) // asf
            | (102, 52, 118) // f4v
            | (109, 50, 118) // m2v
            | (109, 112, 118) // mpv
            => Some(MediaKind::Video),
            (106, 112, 103) // jpg
            | (112, 110, 103) // png
            | (103, 105, 102) // gif
            | (98, 109, 112) // bmp
            | (116, 105, 102) // tif
            | (105, 99, 111) // ico
            | (115, 118, 103) // svg
            | (112, 115, 100) // psd
            | (114, 97, 119) // raw
            | (99, 114, 50) // cr2
            | (99, 114, 51) // cr3
            | (110, 101, 102) // nef
            | (97, 114, 119) // arw
            | (100, 110, 103) // dng
            | (111, 114, 102) // orf
            | (114, 119, 50) // rw2
            | (114, 97, 102) // raf
            | (115, 114, 50) // sr2
            => Some(MediaKind::Image),
            (109, 112, 51) // mp3
            | (119, 97, 118) // wav
            | (97, 97, 99) // aac
            | (111, 103, 103) // ogg
            | (111, 103, 97) // oga
            | (109, 52, 97) // m4a
            | (109, 52, 98) // m4b
            | (119, 109, 97) // wma
            | (97, 105, 102) // aif
            | (97, 112, 101) // ape
            | (97, 99, 51) // ac3
            | (100, 116, 115) // dts
            | (100, 115, 102) // dsf
            | (100, 102, 102) // dff
            | (109, 107, 97) // mka
            | (97, 109, 114) // amr
            | (109, 105, 100) // mid
            | (116, 116, 97) // tta
            => Some(MediaKind::Audio),
            _ => None,
        }
    } else if ext.len() == 4 {
        match (ext[0], ext[1], ext[2], ext[3]) {
            (119, 101, 98, 109) // webm
            | (109, 112, 101, 103) // mpeg
            | (109, 50, 116, 115) // m2ts
            | (114, 109, 118, 98) // rmvb
            | (100, 105, 118, 120) // divx
            => Some(MediaKind::Video),
            (106, 112, 101, 103) // jpeg
            | (106, 102, 105, 102) // jfif
            | (119, 101, 98, 112) // webp
            | (116, 105, 102, 102) // tiff
            | (104, 101, 105, 99) // heic
            | (104, 101, 105, 102) // heif
            | (97, 118, 105, 102) // avif
            => Some(MediaKind::Image),
            (102, 108, 97, 99) // flac
            | (111, 112, 117, 115) // opus
            | (97, 105, 102, 102) // aiff
            | (97, 108, 97, 99) // alac
            | (109, 105, 100, 105) // midi
            => Some(MediaKind::Audio),
            _ => None,
        }
    } else {
        None
    }
}

/// The extensions of video files, lowercase and without the dot.
pub open spec fn video_extensions() -> Set<Seq<u8>> {
    set![
        seq![109u8, 112, 52] /* mp4 */,
        seq![109u8, 107, 118] /* mkv */,
        seq![97u8, 118, 105] /* avi */,
        seq![109u8, 111, 118] /* mov */,
        seq![119u8, 109, 118] /* wmv */,
        seq![102u8, 108, 118] /* flv */,
        seq![119u8, 101, 98, 109] /* webm */,
        seq![109u8, 52, 118] /* m4v */,
        seq![109u8, 112, 103] /* mpg */,
        seq![109u8, 112, 101, 103] /* mpeg */,
        seq![109u8, 50, 116, 115] /* m2ts */,
        seq![109u8, 116, 115] /* mts */,
        seq![51u8, 103, 112] /* 3gp */,
        seq![118u8, 111, 98] /* vob */,
        seq![114u8, 109, 118, 98] /* rmvb */,
        seq![114u8, 109] /* rm */,
        seq![111u8, 103, 118] /* ogv */,
        seq![100u8, 105, 118, 120] /* divx */,
        seq![97u8, 115, 102] /* asf */,
        seq![102u8, 52, 118] /* f4v */,
        seq![109u8, 50, 118] /* m2v */,
        seq![109u8, 112, 118] /* mpv */,
    ]
}

/// The extensions of image files, lowercase and without the dot.
pub open spec fn image_extensions() -> Set<Seq<u8>> {
    set![
        seq![106u8, 112, 103] /* jpg */,
        seq![106u8, 112, 101, 103] /* jpeg */,
        seq![106u8, 102, 105, 102] /* jfif */,
        seq![112u8, 110, 103] /* png */,
        seq![103u8, 105, 102] /* gif */,
        seq![98u8, 109, 112] /* bmp */,
        seq![119u8, 101, 98, 112] /* webp */,
        seq![116u8, 105, 102] /* tif */,
        seq![116u8, 105, 102, 102] /* tiff */,
        seq![104u8, 101, 105, 99] /* heic */,
        seq![104u8, 101, 105, 102] /* heif */,
        seq![97u8, 118, 105, 102] /* avif */,
        seq![105u8, 99, 111] /* ico */,
        seq![115u8, 118, 103] /* svg */,
        seq![112u8, 115, 100] /* psd */,
        seq![114u8, 97, 119] /* raw */,
        seq![99u8, 114, 50] /* cr2 */,
        seq![99u8, 114, 51] /* cr3 */,
        seq![110u8, 101, 102] /* nef */,
        seq![97u8, 114, 119] /* arw */,
        seq![100u8, 110, 103] /* dng */,
        seq![111u8, 114, 102] /* orf */,
        seq![114u8, 119, 50] /* rw2 */,
        seq![114u8, 97, 102] /* raf */,
        seq![115u8, 114, 50] /* sr2 */,
    ]
}

/// The extensions of audio files, lowercase and without the dot.
pub open spec fn audio_extensions() -> Set<Seq<u8>> {
    set![
        seq![109u8, 112, 51] /* mp3 */,
        seq![102u8, 108, 97, 99] /* flac */,
        seq![119u8, 97, 118] /* wav */,
        seq![97u8, 97, 99] /* aac */,
        seq![111u8, 103, 103] /* ogg */,
        seq![111u8, 103, 97] /* oga */,
        seq![109u8, 52, 97] /* m4a */,
        seq![109u8, 52, 98] /* m4b */,
        seq![119u8, 109, 97] /* wma */,
        seq![111u8, 112, 117, 115] /* opus */,
        seq![97u8, 105, 102, 102] /* aiff */,
        seq![97u8, 105, 102] /* aif */,
        seq![97u8, 112, 101] /* ape */,
        seq![97u8, 108, 97, 99] /* alac */,
        seq![97u8, 99, 51] /* ac3 */,
        seq![100u8, 116, 115] /* dts */,
        seq![100u8, 115, 102] /* dsf */,
        seq![100u8, 102, 102] /* dff */,
        seq![109u8, 107, 97] /* mka */,
        seq![97u8, 109, 114] /* amr */,
        seq![109u8, 105, 100] /* mid */,
        seq![109u8, 105, 100, 105] /* midi */,
        seq![119u8, 118] /* wv */,
        seq![116u8, 116, 97] /* tta */,
    ]
}

/// The extension table files exactly the listed video, image and audio
/// extensions under their kind, and nothing else: `wav` is audio, `ts` is not
/// media at all.
pub proof fn extension_table_is_the_three_lists(e: Seq<u8>)
    ensures
        ext_kind(e) == Some(MediaKind::Video) <==> video_extensions().contains(e),
        ext_kind(e) == Some(MediaKind::Image) <==> image_extensions().contains(e),
        ext_kind(e) == Some(MediaKind::Audio) <==> audio_extensions().contains(e),
{
    if e.len() == 2 {
        assert(e =~= seq![e[0], e[1]]);
    } else if e.len() == 3 {
        assert(e =~= seq![e[0], e[1], e[2]]);
    } else if e.len() == 4 {
        assert(e =~= seq![e[0], e[1], e[2], e[3]]);
    }
}

/// Longest extension in the table. A longer one cannot be media.
pub const MAX_EXT_LEN: usize = 5;

/// What a filename, given as its UTF-8 bytes, is classified as: the text after
/// its last dot, if that is one to five ASCII bytes, looked up without regard
/// to case.
pub open spec fn classify_bytes(b: Seq<u8>) -> Option<MediaKind> {
    match rfind_byte(b, 46) {
        None => None,
        Some(d) => {
            let ext = b.subrange(d + 1, b.len() as int);
            if ext.len() == 0 || ext.len() > MAX_EXT_LEN || exists|j: int|
                0 <= j < ext.len() && ext[j] > 0x7F {
                None
            } else {
                ext_kind(lower_bytes(ext))
            }
        },
    }
}

pub(crate) proof fn lemma_rfind_skips(a: Seq<u8>, e: Seq<u8>, c: u8)
    requires
        forall|j: int| 0 <= j < e.len() ==> e[j] != c,
    ensures
        rfind_byte(a + e, c) == rfind_byte(a, c),
    decreases e.len(),
{
    if e.len() == 0 {
        assert(a + e =~= a);
    } else {
        assert((a + e).drop_last() =~= a + e.drop_last());
        assert((a + e).last() == e.last());
        lemma_rfind_skips(a, e.drop_last(), c);
    }
}

/// A file is classified by the extension after its last dot, case aside:
/// `song.wav`, `Song.WAV` and `take.1.wav` are all audio, whatever comes
/// before the dot.
pub proof fn a_name_is_classified_by_its_last_extension(stem: Seq<u8>, e: Seq<u8>)
    requires
        1 <= e.len() <= 5,
        forall|j: int| 0 <= j < e.len() ==> e[j] != 46 && e[j] <= 0x7F,
    ensures
        classify_bytes(stem + seq![46u8] + e) == ext_kind(lower_bytes(e)),
        audio_extensions().contains(lower_bytes(e)) ==> classify_bytes(stem + seq![46u8] + e) == Some(
            MediaKind::Audio,
        ),
        video_extensions().contains(lower_bytes(e)) ==> classify_bytes(stem + seq![46u8] + e) == Some(
            MediaKind::Video,
        ),
        image_extensions().contains(lower_bytes(e)) ==> classify_bytes(stem + seq![46u8] + e) == Some(
            MediaKind::Image,
        ),
{
    let a = stem + seq![46u8];
    let name = a + e;
    lemma_rfind_skips(a, e, 46);
    assert(a.last() == 46);
    assert(rfind_byte(a, 46) == Some(stem.len() as int));
    assert(name.subrange(stem.len() as int + 1, name.len() as int) =~= e);
    extension_table_is_the_three_lists(lower_bytes(e));
}

/// Classify a filename that is already a `String`.
pub fn classify_name(name: &str) -> (r: Option<MediaKind>)
    ensures
        r == classify_bytes(name.spec_bytes()),
{
    let b = name.as_bytes();
    let dot = match rfind(b, 46) {
        Some(d) => d,
        None => return None,
    };
    let n = b.len() - (dot + 1);
    if n == 0 || n > MAX_EXT_LEN {
        return None;
    }
    let ghost ext = b@.subrange(dot + 1, b@.len() as int);
    let mut buf: Vec<u8> = Vec::new();
    let mut i: usize = dot + 1;
    while i < b.len()
        invariant
            dot < i <= b.len(),
            b@ == name.spec_bytes(),
            rfind_byte(b@, 46) == Some(dot as int),
            0 < ext.len() <= MAX_EXT_LEN,
            ext == b@.subrange(dot + 1, b@.len() as int),
            buf@ == lower_bytes(b@.subrange(dot + 1, i as int)),
            forall|j: int| dot + 1 <= j < i ==> b@[j] <= 0x7F,
        decreases b.len() - i,
    {
        let c = b[i];
        if c > 0x7F {
            assert(ext[i - (dot + 1)] > 0x7F);
            return None;
        }
        buf.push(to_lower_byte(c));
        assert(lower_bytes(b@.subrange(dot + 1, i + 1)) =~= lower_bytes(b@.subrange(dot + 1, i as int)).push(lower_byte(c)));
        i += 1;
    }
    assert(buf@ == lower_bytes(ext));
    assert(!exists|j: int| 0 <= j < ext.len() && ext[j] > 0x7F) by {
        assert forall|j: int| 0 <= j < ext.len() implies ext[j] <= 0x7F by {
            assert(ext[j] == b@[dot + 1 + j]);
        }
    }
    kind_from_ext(buf.as_slice())
}

// ---------------------------------------------------------------------------
// The in-memory index
// ---------------------------------------------------------------------------

/// A slice of the string arena.
///
/// Eight bytes, versus 24 plus a heap allocation for a `String`. With hundreds
/// of thousands of entries, each stored twice (display form and folded form),
/// that difference is the whole design.
#[derive(Debug, Clone, Copy, PartialEq, Eq, Structural)]
pub struct Span {
    pub off: u32,
    pub len: u32,
}

/// The bytes a span covers.
pub open spec fn span_bytes(arena: Seq<u8>, sp: Span) -> Seq<u8> {
    arena.subrange(sp.off as int, sp.off + sp.len)
}

/// A span lies inside the arena and covers valid UTF-8.
pub open spec fn text_ok(arena: Seq<u8>, sp: Span) -> bool {
    &&& sp.off + sp.len <= arena.len()
    &&& valid_utf8(span_bytes(arena, sp))
}

/// The text a span covers.
pub open spec fn text_at(arena: Seq<u8>, sp: Span) -> Seq<char> {
    decode_utf8(span_bytes(arena, sp))
}

/// `fsp` covers the folded form of the text under `tsp`.
pub open spec fn folded_ok(arena: Seq<u8>, tsp: Span, fsp: Span) -> bool {
    &&& fsp.off + fsp.len <= arena.len()
    &&& span_bytes(arena, fsp) == encode_utf8(fold_chars(text_at(arena, tsp)))
}

/// The folded form of a text, as the bytes the search matches against.
pub open spec fn folded_bytes(t: Seq<char>) -> Seq<u8> {
    encode_utf8(fold_chars(t))
}

/// Bytes of arena one stored text takes: its UTF-8 and its folded form.
pub open spec fn text_cost(t: Seq<char>) -> nat {
    encode_utf8(t).len() + folded_bytes(t).len()
}

/// Arena taken by a list of texts.
pub open spec fn seq_cost(s: Seq<Seq<char>>) -> nat
    decreases s.len(),
{
    if s.len() == 0 {
        0
    } else {
        seq_cost(s.drop_last()) + text_cost(s.last())
    }
}

/// Arena taken by every directory and name of an index.
pub open spec fn text_total(ix: IndexView) -> nat {
    seq_cost(ix.dirs) + seq_cost(ix.names)
}

/// The drive letter a path starts with, uppercased; 0 for an empty path.
pub open spec fn volume_of_text(t: Seq<char>) -> u8 {
    let b = encode_utf8(t);
    if b.len() == 0 { 0 } else { upper_byte(b[0]) }
}

/// The absolute path of a file from its directory and name.
pub open spec fn join_path(dir: Seq<char>, name: Seq<char>) -> Seq<char> {
    dir + seq!['\\'] + name
}

/// What an [`Index`] holds, entry by entry.
pub ghost struct IndexView {
    /// Each entry's filename.
    pub names: Seq<Seq<char>>,
    /// Each entry's directory, as an id into `dirs`.
    pub dir_of: Seq<u32>,
    pub kinds: Seq<MediaKind>,
    /// File Reference Number of each entry.
    pub frns: Seq<u64>,
    /// Absolute directory paths.
    pub dirs: Seq<Seq<char>>,
    /// File Reference Number of each directory.
    pub dir_frns: Seq<u64>,
    /// Sizes and modification times, as filled in after the build; possibly
    /// shorter than the entries (an index whose statistics were never set).
    pub sizes: Seq<u64>,
    pub mtimes: Seq<i64>,
}

impl IndexView {
    pub open spec fn len(self) -> nat {
        self.names.len()
    }

    /// The directory of entry `i`.
    pub open spec fn dir_text(self, i: int) -> Seq<char> {
        self.dirs[self.dir_of[i] as int]
    }

    /// Entry `i`'s absolute path.
    pub open spec fn path(self, i: int) -> Seq<char> {
        join_path(self.dir_text(i), self.names[i])
    }

    pub open spec fn size_of(self, i: int) -> u64 {
        if 0 <= i < self.sizes.len() { self.sizes[i] } else { 0 }
    }

    pub open spec fn mtime_of(self, i: int) -> i64 {
        if 0 <= i < self.mtimes.len() { self.mtimes[i] } else { 0 }
    }

    pub open spec fn frn_of(self, i: int) -> u64 {
        if 0 <= i < self.frns.len() { self.frns[i] } else { 0 }
    }

    /// The drive letter of entry `i`.
    pub open spec fn volume(self, i: int) -> u8 {
        volume_of_text(self.dir_text(i))
    }

    /// Every entry names a directory that exists.
    pub open spec fn consistent(self) -> bool {
        &&& self.names.len() < u32::MAX
        &&& self.dirs.len() < u32::MAX
        &&& self.dir_of.len() == self.names.len()
        &&& self.kinds.len() == self.names.len()
        &&& self.frns.len() == self.names.len()
        &&& self.dir_frns.len() == self.dirs.len()
        &&& forall|i: int| 0 <= i < self.names.len() ==> self.dir_of[i] < self.dirs.len()
    }
}

/// The whole searchable database, immutable once built.
///
/// * **Struct of arrays.** Search touches only `folded` and, for filtering,
///   `kind`, so those live in their own contiguous vectors.
/// * **One string arena.** Every piece of text lives in a single `Vec<u8>`,
///   referenced by [`Span`]. Directory paths are stored once and shared by
///   every file inside them.
pub struct Index {
    strings: Vec<u8>,
    dirs: Vec<Span>,
    dir_folded: Vec<Span>,
    name: Vec<Span>,
    folded: Vec<Span>,
    dir_id: Vec<u32>,
    kind: Vec<MediaKind>,
    frn: Vec<u64>,
    dir_frn: Vec<u64>,
    size: Vec<u64>,
    mtime: Vec<i64>,
}

/// The arena and its spans hold together: every name and directory is valid
/// text, each folded span holds the fold of its text, and every entry's
/// directory exists.
pub open spec fn arena_wf(
    strings: Seq<u8>,
    dirs: Seq<Span>,
    dir_folded: Seq<Span>,
    name: Seq<Span>,
    folded: Seq<Span>,
    dir_id: Seq<u32>,
    kind: Seq<MediaKind>,
    frn: Seq<u64>,
    dir_frn: Seq<u64>,
) -> bool {
    &&& strings.len() <= u32::MAX
    &&& name.len() < u32::MAX
    &&& dirs.len() < u32::MAX
    &&& folded.len() == name.len()
    &&& dir_id.len() == name.len()
    &&& kind.len() == name.len()
    &&& frn.len() == name.len()
    &&& dir_folded.len() == dirs.len()
    &&& dir_frn.len() == dirs.len()
    &&& forall|i: int| 0 <= i < name.len() ==> text_ok(strings, #[trigger] name[i])
    &&& forall|i: int| 0 <= i < name.len() ==> folded_ok(strings, name[i], #[trigger] folded[i])
    &&& forall|i: int| 0 <= i < name.len() ==> #[trigger] dir_id[i] < dirs.len()
    &&& forall|d: int| 0 <= d < dirs.len() ==> text_ok(strings, #[trigger] dirs[d])
    &&& forall|d: int| 0 <= d < dirs.len() ==> folded_ok(strings, dirs[d], #[trigger] dir_folded[d])
}

/// Growing the arena leaves every span inside the old part reading the same.
pub proof fn lemma_arena_grow(old: Seq<u8>, add: Seq<u8>, sp: Span)
    requires
        sp.off + sp.len <= old.len(),
    ensures
        span_bytes(old + add, sp) == span_bytes(old, sp),
{
    assert(span_bytes(old + add, sp) =~= span_bytes(old, sp));
}

impl Index {
    #[verifier::type_invariant]
    spec fn inv(self) -> bool {
        &&& arena_wf(
            self.strings@,
            self.dirs@,
            self.dir_folded@,
            self.name@,
            self.folded@,
            self.dir_id@,
            self.kind@,
            self.frn@,
            self.dir_frn@,
        )
        &&& text_total(self.view()) <= self.strings@.len()
    }

    /// Every directory and name, with its folded form, fits in the arena,
    /// which never holds more than `u32::MAX` bytes.
    pub fn text_fits(&self)
        ensures
            text_total(self.view()) <= u32::MAX,
            self.view().consistent(),
    {
        proof {
            use_type_invariant(self);
            assert forall|i: int| 0 <= i < self.view().names.len() implies self.view().dir_of[i] < self.view().dirs.len() by {
                assert(self.dir_id@[i] < self.dirs@.len());
            }
        }
    }

    /// The entries of the index, read out of the arena.
    pub closed spec fn view(&self) -> IndexView {
        IndexView {
            names: self.name@.map_values(|sp: Span| text_at(self.strings@, sp)),
            dir_of: self.dir_id@,
            kinds: self.kind@,
            frns: self.frn@,
            dirs: self.dirs@.map_values(|sp: Span| text_at(self.strings@, sp)),
            dir_frns: self.dir_frn@,
            sizes: self.size@,
            mtimes: self.mtime@,
        }
    }

    /// The number of entries; and every entry names a directory that exists.
    pub fn len(&self) -> (r: usize)
        ensures
            r == self.view().len(),
            self.view().consistent(),
    {
        proof {
            use_type_invariant(self);
        }
        assert forall|i: int| 0 <= i < self.view().len() implies self.view().dir_of[i] < self.view().dirs.len() by {
            assert(self.dir_id@[i] < self.dirs@.len());
        }
        self.name.len()
    }

    pub fn is_empty(&self) -> (r: bool)
        ensures
            r == (self.view().len() == 0),
    {
        self.name.len() == 0
    }

    pub fn dir_count(&self) -> (r: usize)
        ensures
            r == self.view().dirs.len(),
    {
        self.dirs.len()
    }

    fn str_at(&self, sp: Span) -> (r: &str)
        requires
            text_ok(self.strings@, sp),
        ensures
            r@ == text_at(self.strings@, sp),
    {
        broadcast use vstd::utf8::group_utf8_lib;

        proof {
            use_type_invariant(self);
        }
        let b = &self.strings.as_slice()[sp.off as usize..(sp.off as usize + sp.len as usize)];
        match str_from_utf8(b) {
            Some(s) => s,
            None => "",
        }
    }

    /// The filename as it appears on disk, for display.
    pub fn name(&self, i: usize) -> (r: &str)
        requires
            i < self.view().len(),
        ensures
            r@ == self.view().names[i as int],
    {
        proof {
            use_type_invariant(self);
        }
        self.str_at(self.name[i])
    }

    /// The folded filename, as raw bytes, for matching.
    pub fn folded(&self, i: usize) -> (r: &[u8])
        requires
            i < self.view().len(),
        ensures
            r@ == folded_bytes(self.view().names[i as int]),
    {
        proof {
            use_type_invariant(self);
        }
        let sp = self.folded[i];
        &self.strings.as_slice()[sp.off as usize..(sp.off as usize + sp.len as usize)]
    }

    /// The absolute path of the directory holding entry `i`.
    pub fn dir(&self, i: usize) -> (r: &str)
        requires
            i < self.view().len(),
        ensures
            r@ == self.view().dir_text(i as int),
    {
        proof {
            use_type_invariant(self);
        }
        self.str_at(self.dirs[self.dir_id[i] as usize])
    }

    pub fn kind(&self, i: usize) -> (r: MediaKind)
        requires
            i < self.view().len(),
        ensures
            r == self.view().kinds[i as int],
    {
        proof {
            use_type_invariant(self);
        }
        self.kind[i]
    }

    /// Bytes on disk of entry `i`, or 0 if not known.
    pub fn size(&self, i: usize) -> (r: u64)
        ensures
            r == self.view().size_of(i as int),
    {
        if i < self.size.len() { self.size[i] } else { 0 }
    }

    /// Last-write time of entry `i`, Unix seconds, or 0 if not known.
    pub fn mtime(&self, i: usize) -> (r: i64)
        ensures
            r == self.view().mtime_of(i as int),
    {
        if i < self.mtime.len() { self.mtime[i] } else { 0 }
    }

    /// File Reference Number of entry `i`, or 0 if this index predates them.
    pub fn frn(&self, i: usize) -> (r: u64)
        ensures
            r == self.view().frn_of(i as int),
    {
        if i < self.frn.len() { self.frn[i] } else { 0 }
    }

    /// File Reference Number of directory `dir_id`, or 0 if unknown.
    pub fn dir_frn(&self, dir_id: usize) -> (r: u64)
        ensures
            r == (if dir_id < self.view().dir_frns.len() { self.view().dir_frns[dir_id as int] } else { 0 }),
    {
        if dir_id < self.dir_frn.len() { self.dir_frn[dir_id] } else { 0 }
    }

    pub fn frns(&self) -> (r: &[u64])
        ensures
            r@ == self.view().frns,
    {
        self.frn.as_slice()
    }

    pub fn dir_frns(&self) -> (r: &[u64])
        ensures
            r@ == self.view().dir_frns,
    {
        self.dir_frn.as_slice()
    }

    fn volume_of_path(path: &str) -> (r: u8)
        ensures
            r == volume_of_text(path@),
    {
        let b = path.as_bytes();
        if b.len() == 0 { 0 } else { to_upper_byte(b[0]) }
    }

    /// The drive letter entry `i` lives on, uppercased.
    pub fn volume_of(&self, i: usize) -> (r: u8)
        requires
            i < self.view().len(),
        ensures
            r == self.view().volume(i as int),
    {
        Self::volume_of_path(self.dir(i))
    }

    /// The drive letter of directory `dir_id`, uppercased.
    pub fn volume_of_dir(&self, dir_id: usize) -> (r: u8)
        requires
            dir_id < self.view().dirs.len(),
        ensures
            r == volume_of_text(self.view().dirs[dir_id as int]),
    {
        Self::volume_of_path(self.dir_path(dir_id))
    }

    /// The absolute path of directory `dir_id`.
    pub fn dir_path(&self, dir_id: usize) -> (r: &str)
        requires
            dir_id < self.view().dirs.len(),
        ensures
            r@ == self.view().dirs[dir_id as int],
    {
        proof {
            use_type_invariant(self);
        }
        self.str_at(self.dirs[dir_id])
    }

    pub fn sizes(&self) -> (r: &[u64])
        ensures
            r@ == self.view().sizes,
    {
        self.size.as_slice()
    }

    /// Fill in sizes and modification times collected after the entries were
    /// added. Lengths must match; a mismatch is ignored and leaves the values
    /// as they were.
    pub fn set_file_stats(&mut self, sizes: Vec<u64>, mtimes: Vec<i64>)
        ensures
            (sizes.len() == old(self).view().len() && mtimes.len() == old(self).view().len()) ==> final(self).view() == (IndexView { sizes: sizes@, mtimes: mtimes@, ..old(self).view() }),
            !(sizes.len() == old(self).view().len() && mtimes.len() == old(self).view().len()) ==> final(self).view() == old(self).view(),
    {
        proof {
            use_type_invariant(&*self);
        }
        if sizes.len() == self.name.len() && mtimes.len() == self.name.len() {
            self.size = sizes;
            self.mtime = mtimes;
        }
    }

    /// The folded directory path for directory `dir_id`.
    pub fn dir_folded(&self, dir_id: usize) -> (r: &[u8])
        requires
            dir_id < self.view().dirs.len(),
        ensures
            r@ == folded_bytes(self.view().dirs[dir_id as int]),
    {
        proof {
            use_type_invariant(self);
        }
        let sp = self.dir_folded[dir_id];
        &self.strings.as_slice()[sp.off as usize..(sp.off as usize + sp.len as usize)]
    }

    /// The directory id of every entry.
    pub fn dir_ids(&self) -> (r: &[u32])
        ensures
            r@ == self.view().dir_of,
    {
        self.dir_id.as_slice()
    }

    /// All kinds, so the search loop can filter without bounds checks.
    pub fn kinds(&self) -> (r: &[MediaKind])
        ensures
            r@ == self.view().kinds,
    {
        self.kind.as_slice()
    }

    /// Join directory and filename into the absolute path.
    pub fn full_path(&self, i: usize) -> (r: String)
        requires
            i < self.view().len(),
        ensures
            r@ == self.view().path(i as int),
    {
        let dir = self.dir(i);
        let name = self.name(i);
        let mut s = String::new();
        string_push_str(&mut s, dir);
        string_push(&mut s, '\\');
        string_push_str(&mut s, name);
        s
    }

    /// How many bytes of text the arena holds.
    pub closed spec fn arena_len(&self) -> nat {
        self.strings@.len()
    }

    /// Approximate heap footprint, for reporting and for catching regressions:
    /// the arena, eight bytes per span and per 64-bit number, four per
    /// directory id and one per kind.
    pub fn memory_bytes(&self) -> (r: usize)
        ensures
            r == min_usize(
                self.arena_len() + 8 * (2 * self.view().dirs.len() + 2 * self.view().len()) + 4 * self.view().len()
                    + self.view().len() + 8 * self.view().sizes.len() + 8 * self.view().mtimes.len() + 8 * (
                self.view().len() + self.view().dirs.len()),
            ),
    {
        proof {
            use_type_invariant(self);
        }
        let spans = self.dirs.len() as u128 + self.dir_folded.len() as u128 + self.name.len() as u128
            + self.folded.len() as u128;
        let total: u128 = self.strings.len() as u128 + 8 * spans + 4 * self.dir_id.len() as u128
            + self.kind.len() as u128 + 8 * self.size.len() as u128 + 8 * self.mtime.len() as u128 + 8 * (
        self.frn.len() as u128 + self.dir_frn.len() as u128);
        if total > usize::MAX as u128 {
            usize::MAX
        } else {
            total as usize
        }
    }
}

/// `x`, or `usize::MAX` if it does not fit.
pub open spec fn min_usize(x: nat) -> nat {
    if x > usize::MAX { usize::MAX as nat } else { x }
}

/// Growing the arena keeps every well-formed table well formed.
proof fn lemma_wf_grow(
    strings: Seq<u8>,
    add: Seq<u8>,
    dirs: Seq<Span>,
    dir_folded: Seq<Span>,
    name: Seq<Span>,
    folded: Seq<Span>,
    dir_id: Seq<u32>,
    kind: Seq<MediaKind>,
    frn: Seq<u64>,
    dir_frn: Seq<u64>,
)
    requires
        arena_wf(strings, dirs, dir_folded, name, folded, dir_id, kind, frn, dir_frn),
        strings.len() + add.len() <= u32::MAX,
    ensures
        arena_wf(strings + add, dirs, dir_folded, name, folded, dir_id, kind, frn, dir_frn),
        forall|i: int| 0 <= i < name.len() ==> text_at(strings + add, #[trigger] name[i]) == text_at(strings, name[i]),
        forall|d: int| 0 <= d < dirs.len() ==> text_at(strings + add, #[trigger] dirs[d]) == text_at(strings, dirs[d]),
{
    let s2 = strings + add;
    assert forall|i: int| 0 <= i < name.len() implies text_ok(s2, #[trigger] name[i]) && text_at(s2, name[i]) == text_at(strings, name[i]) by {
        lemma_arena_grow(strings, add, name[i]);
    }
    assert forall|i: int| 0 <= i < name.len() implies folded_ok(s2, name[i], #[trigger] folded[i]) by {
        lemma_arena_grow(strings, add, name[i]);
        lemma_arena_grow(strings, add, folded[i]);
    }
    assert forall|d: int| 0 <= d < dirs.len() implies text_ok(s2, #[trigger] dirs[d]) && text_at(s2, dirs[d]) == text_at(strings, dirs[d]) by {
        lemma_arena_grow(strings, add, dirs[d]);
    }
    assert forall|d: int| 0 <= d < dirs.len() implies folded_ok(s2, dirs[d], #[trigger] dir_folded[d]) by {
        lemma_arena_grow(strings, add, dirs[d]);
        lemma_arena_grow(strings, add, dir_folded[d]);
    }
}

/// Accumulates an [`Index`] one volume at a time.
///
/// Volumes are added separately because each scan numbers its directories from
/// zero; the builder hands out global ids as it goes.
///
/// The arena addresses text with 32-bit offsets. A directory or file whose
/// text would carry the arena past that limit is not added: the builder
/// reports it (an add that leaves the index unchanged) rather than store an
/// offset that has wrapped.
pub struct IndexBuilder {
    strings: Vec<u8>,
    dirs: Vec<Span>,
    dir_folded: Vec<Span>,
    name: Vec<Span>,
    folded: Vec<Span>,
    dir_id: Vec<u32>,
    kind: Vec<MediaKind>,
    frn: Vec<u64>,
    dir_frn: Vec<u64>,
    /// Reused across every file so folding does not allocate per entry.
    fold_buf: String,
}

/// The id `add_dir` returns when the directory could not be added.
pub const NO_DIR: u32 = 0xFFFF_FFFF;

impl IndexBuilder {
    pub closed spec fn wf(&self) -> bool {
        &&& arena_wf(
            self.strings@,
            self.dirs@,
            self.dir_folded@,
            self.name@,
            self.folded@,
            self.dir_id@,
            self.kind@,
            self.frn@,
            self.dir_frn@,
        )
        &&& text_total(self.view()) <= self.strings@.len()
    }

    /// How many bytes of text the arena holds.
    pub closed spec fn arena_len(&self) -> nat {
        self.strings@.len()
    }

    /// What the index will hold once finished (no sizes or times yet).
    pub closed spec fn view(&self) -> IndexView {
        IndexView {
            names: self.name@.map_values(|sp: Span| text_at(self.strings@, sp)),
            dir_of: self.dir_id@,
            kinds: self.kind@,
            frns: self.frn@,
            dirs: self.dirs@.map_values(|sp: Span| text_at(self.strings@, sp)),
            dir_frns: self.dir_frn@,
            sizes: Seq::empty(),
            mtimes: Seq::empty(),
        }
    }

    /// What a well-formed builder holds is consistent: every entry names a
    /// directory the builder holds.
    pub proof fn lemma_view_consistent(&self)
        requires
            self.wf(),
        ensures
            self.view().consistent(),
    {
        assert forall|i: int| 0 <= i < self.view().names.len() implies self.view().dir_of[i] < self.view().dirs.len() by {
            assert(self.dir_id@[i] < self.dirs@.len());
        }
    }

    /// Whether text `t`, stored with its folded form, still fits in the arena.
    pub open spec fn fits(&self, t: Seq<char>) -> bool {
        self.arena_len() + encode_utf8(t).len() + folded_bytes(t).len() <= u32::MAX
    }

    pub fn new() -> (b: Self)
        ensures
            b.wf(),
            b.arena_len() == 0,
            b.view() == (IndexView {
                names: Seq::empty(),
                dir_of: Seq::empty(),
                kinds: Seq::empty(),
                frns: Seq::empty(),
                dirs: Seq::empty(),
                dir_frns: Seq::empty(),
                sizes: Seq::empty(),
                mtimes: Seq::empty(),
            }),
    {
        let b = IndexBuilder {
            strings: Vec::new(),
            dirs: Vec::new(),
            dir_folded: Vec::new(),
            name: Vec::new(),
            folded: Vec::new(),
            dir_id: Vec::new(),
            kind: Vec::new(),
            frn: Vec::new(),
            dir_frn: Vec::new(),
            fold_buf: String::new(),
        };
        assert(b.view().names =~= Seq::empty());
        assert(b.view().dirs =~= Seq::empty());
        b
    }

    /// Reserve room for a volume that is about to be added.
    pub fn reserve(&mut self, dirs: usize, files: usize)
        requires
            old(self).wf(),
        ensures
            final(self).wf(),
            final(self).view() == old(self).view(),
            final(self).arena_len() == old(self).arena_len(),
    {
        self.dirs.reserve(dirs);
        self.dir_folded.reserve(dirs);
        self.dir_frn.reserve(dirs);
        self.name.reserve(files);
        self.folded.reserve(files);
        self.dir_id.reserve(files);
        self.kind.reserve(files);
        self.frn.reserve(files);
    }

    /// Append the bytes of `s` to the arena.
    fn push_str(&mut self, s: &str) -> (sp: Span)
        requires
            old(self).strings@.len() + s.spec_bytes().len() <= u32::MAX,
        ensures
            final(self).strings@ == old(self).strings@ + s.spec_bytes(),
            sp.off == old(self).strings@.len(),
            sp.len == s.spec_bytes().len(),
            final(self).dirs == old(self).dirs,
            final(self).dir_folded == old(self).dir_folded,
            final(self).name == old(self).name,
            final(self).folded == old(self).folded,
            final(self).dir_id == old(self).dir_id,
            final(self).kind == old(self).kind,
            final(self).frn == old(self).frn,
            final(self).dir_frn == old(self).dir_frn,
            final(self).fold_buf == old(self).fold_buf,
    {
        let off = self.strings.len() as u32;
        let b = s.as_bytes();
        self.strings.extend_from_slice(b);
        Span { off, len: b.len() as u32 }
    }

    /// Fold `t` into the reusable buffer.
    fn fold_to_buf(&mut self, t: &str)
        ensures
            final(self).fold_buf@ == fold_chars(t@),
            final(self).strings == old(self).strings,
            final(self).dirs == old(self).dirs,
            final(self).dir_folded == old(self).dir_folded,
            final(self).name == old(self).name,
            final(self).folded == old(self).folded,
            final(self).dir_id == old(self).dir_id,
            final(self).kind == old(self).kind,
            final(self).frn == old(self).frn,
            final(self).dir_frn == old(self).dir_frn,
    {
        string_clear(&mut self.fold_buf);
        fold_into(t, &mut self.fold_buf);
    }

    /// Add a directory path, returning its global id.
    ///
    /// `frn` is the directory's File Reference Number, used later to apply
    /// journal updates; pass 0 when there is none to give. Returns [`NO_DIR`]
    /// and adds nothing when the arena or the id space is full.
    pub fn add_dir(&mut self, path: &str, frn: u64) -> (id: u32)
        requires
            old(self).wf(),
        ensures
            final(self).wf(),
            ({
                let ok = old(self).fits(path@) && old(self).view().dirs.len() + 1 < NO_DIR;
                &&& ok ==> id == old(self).view().dirs.len()
                    && final(self).view() == (IndexView {
                        dirs: old(self).view().dirs.push(path@),
                        dir_frns: old(self).view().dir_frns.push(frn),
                        ..old(self).view()
                    })
                    && final(self).arena_len() == old(self).arena_len() + encode_utf8(path@).len() + folded_bytes(path@).len()
                &&& !ok ==> id == NO_DIR && final(self).view() == old(self).view()
                    && final(self).arena_len() == old(self).arena_len()
            }),
    {
        broadcast use vstd::utf8::group_utf8_lib;

        let ghost old_view = self.view();
        self.fold_to_buf(path);
        assert(self.view() == old_view);
        let nb = path.as_bytes().len();
        let fb = self.fold_buf.as_str().as_bytes().len();
        if self.strings.len() as u128 + nb as u128 + fb as u128 > 0xFFFF_FFFFu128 || self.dirs.len() >= 0xFFFF_FFFE {
            return NO_DIR;
        }
        let ghost s0 = self.strings@;
        let ghost pb = path.spec_bytes();
        let ghost fbb = encode_utf8(fold_chars(path@));
        let span = self.push_str(path);
        let ghost s1 = self.strings@;
        let mut buf = String::new();
        std::mem::swap(&mut buf, &mut self.fold_buf);
        let folded_span = self.push_str(buf.as_str());
        self.fold_buf = buf;
        let ghost s2 = self.strings@;
        proof {
            lemma_wf_grow(s0, pb, self.dirs@, self.dir_folded@, self.name@, self.folded@, self.dir_id@, self.kind@, self.frn@, self.dir_frn@);
            lemma_wf_grow(s1, fbb, self.dirs@, self.dir_folded@, self.name@, self.folded@, self.dir_id@, self.kind@, self.frn@, self.dir_frn@);
            assert(s2 == s0 + pb + fbb);
            assert(span_bytes(s2, span) =~= pb);
            assert(span_bytes(s2, folded_span) =~= fbb);
        }
        let id = self.dirs.len() as u32;
        self.dirs.push(span);
        self.dir_folded.push(folded_span);
        self.dir_frn.push(frn);
        proof {
            let dirs = self.dirs@;
            let dfs = self.dir_folded@;
            assert forall|d: int| 0 <= d < dirs.len() implies text_ok(s2, #[trigger] dirs[d]) by {
                if d < dirs.len() - 1 {
                    assert(dirs[d] == dirs.drop_last()[d]);
                }
            }
            assert forall|d: int| 0 <= d < dirs.len() implies folded_ok(s2, dirs[d], #[trigger] dfs[d]) by {
                if d < dirs.len() - 1 {
                    assert(dirs[d] == dirs.drop_last()[d]);
                    assert(dfs[d] == dfs.drop_last()[d]);
                }
            }
            assert(self.view().dirs =~= old_view.dirs.push(path@));
            assert(self.view().names =~= old_view.names);
            assert(old_view.dirs.push(path@).drop_last() =~= old_view.dirs);
        }
        id
    }

    /// Add a file. `dir_id` must have come from [`IndexBuilder::add_dir`]; a
    /// file naming no known directory, or one whose text no longer fits in the
    /// arena, is not added.
    pub fn add_file(&mut self, name: &str, kind: MediaKind, dir_id: u32, frn: u64)
        requires
            old(self).wf(),
        ensures
            final(self).wf(),
            ({
                let ok = old(self).fits(name@) && dir_id < old(self).view().dirs.len() && old(self).view().len() + 1 < u32::MAX;
                &&& ok ==> final(self).view() == (IndexView {
                        names: old(self).view().names.push(name@),
                        dir_of: old(self).view().dir_of.push(dir_id),
                        kinds: old(self).view().kinds.push(kind),
                        frns: old(self).view().frns.push(frn),
                        ..old(self).view()
                    })
                    && final(self).arena_len() == old(self).arena_len() + encode_utf8(name@).len() + folded_bytes(name@).len()
                &&& !ok ==> final(self).view() == old(self).view()
                    && final(self).arena_len() == old(self).arena_len()
            }),
    {
        broadcast use vstd::utf8::group_utf8_lib;

        let ghost old_view = self.view();
        self.fold_to_buf(name);
        assert(self.view() == old_view);
        let nb = name.as_bytes().len();
        let fb = self.fold_buf.as_str().as_bytes().len();
        if self.strings.len() as u128 + nb as u128 + fb as u128 > 0xFFFF_FFFFu128 || dir_id as usize >= self.dirs.len() || self.name.len() >= 0xFFFF_FFFE {
            return;
        }
        let ghost s0 = self.strings@;
        let ghost pb = name.spec_bytes();
        let ghost fbb = encode_utf8(fold_chars(name@));
        let name_span = self.push_str(name);
        let ghost s1 = self.strings@;
        let mut buf = String::new();
        std::mem::swap(&mut buf, &mut self.fold_buf);
        let folded_span = self.push_str(buf.as_str());
        self.fold_buf = buf;
        let ghost s2 = self.strings@;
        proof {
            lemma_wf_grow(s0, pb, self.dirs@, self.dir_folded@, self.name@, self.folded@, self.dir_id@, self.kind@, self.frn@, self.dir_frn@);
            lemma_wf_grow(s1, fbb, self.dirs@, self.dir_folded@, self.name@, self.folded@, self.dir_id@, self.kind@, self.frn@, self.dir_frn@);
            assert(s2 == s0 + pb + fbb);
            assert(span_bytes(s2, name_span) =~= pb);
            assert(span_bytes(s2, folded_span) =~= fbb);
        }
        self.name.push(name_span);
        self.folded.push(folded_span);
        self.dir_id.push(dir_id);
        self.kind.push(kind);
        self.frn.push(frn);
        proof {
            let ns = self.name@;
            let fs = self.folded@;
            let ds = self.dir_id@;
            assert forall|i: int| 0 <= i < ns.len() implies text_ok(s2, #[trigger] ns[i]) by {
                if i < ns.len() - 1 {
                    assert(ns[i] == ns.drop_last()[i]);
                }
            }
            assert forall|i: int| 0 <= i < ns.len() implies folded_ok(s2, ns[i], #[trigger] fs[i]) by {
                if i < ns.len() - 1 {
                    assert(ns[i] == ns.drop_last()[i]);
                    assert(fs[i] == fs.drop_last()[i]);
                }
            }
            assert forall|i: int| 0 <= i < ns.len() implies #[trigger] ds[i] < self.dirs@.len() by {
                if i < ns.len() - 1 {
                    assert(ds[i] == ds.drop_last()[i]);
                }
            }
            assert(self.view().names =~= old_view.names.push(name@));
            assert(self.view().dirs =~= old_view.dirs);
            assert(old_view.names.push(name@).drop_last() =~= old_view.names);
        }
    }

    /// The finished index: everything added, with no sizes or times yet.
    pub fn finish(self) -> (ix: Index)
        requires
            self.wf(),
        ensures
            ix.view() == self.view(),
            ix.arena_len() == self.arena_len(),
            ix.view().sizes == Seq::<u64>::empty(),
            ix.view().mtimes == Seq::<i64>::empty(),
    {
        let ix = Index {
            strings: self.strings,
            dirs: self.dirs,
            dir_folded: self.dir_folded,
            name: self.name,
            folded: self.folded,
            dir_id: self.dir_id,
            kind: self.kind,
            frn: self.frn,
            dir_frn: self.dir_frn,
            size: Vec::new(),
            mtime: Vec::new(),
        };
        assert(ix.view().sizes =~= Seq::empty());
        assert(ix.view().mtimes =~= Seq::empty());
        ix
    }
}

} // verus!
