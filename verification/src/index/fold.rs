//! Case- and diacritic-insensitive folding for search.
//!
//! Every filename is folded once at index time and every query folded the same
//! way, so matching is a plain substring test on two strings that have already
//! been reduced to the same shape.
//!
//! The fold is: NFD decomposition, drop combining marks, map the letters that
//! refuse to decompose, lowercase, and compose again (NFC). Pure ASCII names,
//! which most are, skip the normalisation and are only lowercased.
//!
//! `đ` is the letter that gets missed: U+0111 has no decomposition at all, so
//! NFD leaves it untouched and it must be mapped by hand. Without that, `da
//! nang` fails to match `Đà Nẵng`.

use unicode_normalization::UnicodeNormalization;
use vstd::prelude::*;
use vstd::utf8::is_ascii_chars;

use crate::text::{lower_char, lower_chars, str_chars, string_push, string_push_str, to_lower_char};

verus! {

/// The canonical decomposition (NFD) of a character sequence, as
/// `unicode_normalization` computes it.
pub uninterp spec fn nfd_chars(s: Seq<char>) -> Seq<char>;

/// The canonical composition (NFC) of a character sequence, as
/// `unicode_normalization` computes it.
pub uninterp spec fn nfc_chars(s: Seq<char>) -> Seq<char>;

/// The characters `char::to_lowercase` yields for `c`.
pub uninterp spec fn char_lowercase(c: char) -> Seq<char>;

/// `UnicodeNormalization::nfd` on `s`, collected.
///
/// Claims only that the result is the NFD of `s`: the same input always gives
/// the same characters. What NFD is takes the Unicode tables to state and is
/// left to the crate.
#[verifier::external_body]
fn nfd_of(s: &str) -> (r: Vec<char>)
    ensures
        r@ == nfd_chars(s@),
{
    s.nfd().collect()
}

/// `UnicodeNormalization::nfc` on the characters `v`, collected into a string.
///
/// Claims only that the result is the NFC of `v`.
#[verifier::external_body]
fn nfc_of(v: &[char]) -> (r: String)
    ensures
        r@ == nfc_chars(v@),
{
    v.iter().copied().nfc().collect()
}

/// `char::to_lowercase`, collected.
///
/// Claims that the result is the lowercase mapping of `c`, and, as the
/// standard library documents for ASCII, that an ASCII character maps to its
/// ASCII lowercase alone.
#[verifier::external_body]
fn lowercase_of(c: char) -> (r: Vec<char>)
    ensures
        r@ == char_lowercase(c),
        (c as u32) < 0x80 ==> r@ == seq![lower_char(c)],
{
    c.to_lowercase().collect()
}

/// Combining marks, which NFD has just separated from their base letter.
pub open spec fn is_mark(c: char) -> bool {
    let u = c as u32;
    ||| 0x0300 <= u <= 0x036F  // Combining Diacritical Marks: all of Vietnamese
    ||| 0x1AB0 <= u <= 0x1AFF  // ... Extended
    ||| 0x1DC0 <= u <= 0x1DFF  // ... Supplement
    ||| 0x20D0 <= u <= 0x20FF  // ... for Symbols
    ||| 0xFE20 <= u <= 0xFE2F  // Combining Half Marks

}

/// Letters with no NFD decomposition, whose diacritic is part of the glyph,
/// and what each is spelt as once folded.
pub open spec fn spelled_as(c: char) -> Option<Seq<char>> {
    let u = c as u32;
    if u == 0x111 || u == 0x110 || u == 0xF0 || u == 0xD0 {
        Some(seq!['d'])  // đ Đ ð Ð

    } else if u == 0xF8 || u == 0xD8 {
        Some(seq!['o'])  // ø Ø

    } else if u == 0x142 || u == 0x141 {
        Some(seq!['l'])  // ł Ł

    } else if u == 0xE6 || u == 0xC6 {
        Some(seq!['a', 'e'])  // æ Æ

    } else if u == 0x153 || u == 0x152 {
        Some(seq!['o', 'e'])  // œ Œ

    } else if u == 0xDF {
        Some(seq!['s', 's'])  // ß

    } else if u == 0xFE || u == 0xDE {
        Some(seq!['t', 'h'])  // þ Þ

    } else {
        None
    }
}

/// What one decomposed character contributes to the fold.
pub open spec fn fold_piece(c: char) -> Seq<char> {
    if is_mark(c) {
        seq![]
    } else {
        match spelled_as(c) {
            Some(m) => m,
            None => char_lowercase(c),
        }
    }
}

/// Marks dropped, stubborn letters spelt out, everything else lowercased.
pub open spec fn fold_letters(s: Seq<char>) -> Seq<char>
    decreases s.len(),
{
    if s.len() == 0 {
        seq![]
    } else {
        fold_letters(s.drop_last()) + fold_piece(s.last())
    }
}

/// The fold of a string: ASCII is only lowercased; anything else is
/// decomposed, stripped of marks, mapped and lowercased, then composed again.
pub open spec fn fold_chars(s: Seq<char>) -> Seq<char> {
    if is_ascii_chars(s) {
        lower_chars(s)
    } else {
        nfc_chars(fold_letters(nfd_chars(s)))
    }
}

/// Is `c` a combining mark?
pub fn is_combining_mark(c: char) -> (r: bool)
    ensures
        r == is_mark(c),
{
    let u: u32 = c as u32;
    (0x0300 <= u && u <= 0x036F) || (0x1AB0 <= u && u <= 0x1AFF) || (0x1DC0 <= u && u <= 0x1DFF)
        || (0x20D0 <= u && u <= 0x20FF) || (0xFE20 <= u && u <= 0xFE2F)
}

/// The spelling of a letter that does not decompose, if `c` is one.
pub fn undecomposable(c: char) -> (r: Option<&'static str>)
    ensures
        match r {
            Some(m) => spelled_as(c) == Some(m@),
            None => spelled_as(c) is None,
        },
{
    proof {
        reveal_strlit("d");
        reveal_strlit("o");
        reveal_strlit("l");
        reveal_strlit("ae");
        reveal_strlit("oe");
        reveal_strlit("ss");
        reveal_strlit("th");
    }
    let u: u32 = c as u32;
    if u == 0x111 || u == 0x110 || u == 0xF0 || u == 0xD0 {
        Some("d")
    } else if u == 0xF8 || u == 0xD8 {
        Some("o")
    } else if u == 0x142 || u == 0x141 {
        Some("l")
    } else if u == 0xE6 || u == 0xC6 {
        Some("ae")
    } else if u == 0x153 || u == 0x152 {
        Some("oe")
    } else if u == 0xDF {
        Some("ss")
    } else if u == 0xFE || u == 0xDE {
        Some("th")
    } else {
        None
    }
}

/// Fold `s` for searching.
pub fn fold(s: &str) -> (r: String)
    ensures
        r@ == fold_chars(s@),
{
    let mut out = String::new();
    fold_into(s, &mut out);
    out
}

/// Fold `s`, appending to `out`.
///
/// Reusing one buffer across a whole index build avoids an allocation per file.
pub fn fold_into(s: &str, out: &mut String)
    ensures
        final(out)@ == old(out)@ + fold_chars(s@),
{
    let cs = str_chars(s);
    if s.is_ascii() {
        let mut i: usize = 0;
        while i < cs.len()
            invariant
                cs@ == s@,
                i <= cs.len(),
                out@ == old(out)@ + lower_chars(cs@.subrange(0, i as int)),
            decreases cs.len() - i,
        {
            string_push(out, to_lower_char(cs[i]));
            assert(lower_chars(cs@.subrange(0, i + 1)) =~= lower_chars(cs@.subrange(0, i as int)).push(
                lower_char(cs@[i as int]),
            ));
            i += 1;
        }
        assert(cs@.subrange(0, cs@.len() as int) =~= cs@);
        return;
    }
    let d = nfd_of(s);
    let mut stripped: Vec<char> = Vec::new();
    let mut i: usize = 0;
    while i < d.len()
        invariant
            i <= d.len(),
            stripped@ == fold_letters(d@.subrange(0, i as int)),
        decreases d.len() - i,
    {
        let c = d[i];
        let ghost before = stripped@;
        if !is_combining_mark(c) {
            match undecomposable(c) {
                Some(m) => {
                    let mc = str_chars(m);
                    let mut k: usize = 0;
                    while k < mc.len()
                        invariant
                            k <= mc.len(),
                            stripped@ == before + mc@.subrange(0, k as int),
                        decreases mc.len() - k,
                    {
                        stripped.push(mc[k]);
                        assert(mc@.subrange(0, k + 1) =~= mc@.subrange(0, k as int).push(mc@[k as int]));
                        k += 1;
                    }
                    assert(mc@.subrange(0, mc@.len() as int) =~= mc@);
                },
                None => {
                    let low = lowercase_of(c);
                    let mut k: usize = 0;
                    while k < low.len()
                        invariant
                            k <= low.len(),
                            stripped@ == before + low@.subrange(0, k as int),
                        decreases low.len() - k,
                    {
                        stripped.push(low[k]);
                        assert(low@.subrange(0, k + 1) =~= low@.subrange(0, k as int).push(low@[k as int]));
                        k += 1;
                    }
                    assert(low@.subrange(0, low@.len() as int) =~= low@);
                },
            }
        }
        assert(d@.subrange(0, i + 1).drop_last() =~= d@.subrange(0, i as int));
        assert(stripped@ =~= fold_letters(d@.subrange(0, i + 1)));
        i += 1;
    }
    assert(d@.subrange(0, d@.len() as int) =~= d@);
    let composed = nfc_of(stripped.as_slice());
    string_push_str(out, composed.as_str());
}

/// Folding an already-folded ASCII string changes nothing, so a query and a
/// filename folded on different occasions still agree.
pub proof fn fold_is_idempotent_on_ascii(s: Seq<char>)
    requires
        is_ascii_chars(s),
    ensures
        fold_chars(fold_chars(s)) == fold_chars(s),
        is_ascii_chars(fold_chars(s)),
{
    let f = lower_chars(s);
    assert(is_ascii_chars(f));
    assert(lower_chars(f) =~= f);
}

} // verus!
