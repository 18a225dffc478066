use mediafinder::index::fold::{fold, is_combining_mark, undecomposable};
use unicode_normalization::UnicodeNormalization;

#[test]
fn the_headline_case() {
    assert_eq!(fold("Tiếng Việt Đà Nẵng"), "tieng viet da nang");
}

#[test]
fn d_with_stroke_must_be_mapped_by_hand() {
    assert_eq!(fold("đ"), "d");
    assert_eq!(fold("Đ"), "d");
    assert_eq!(fold("Đường Đi Đẹp"), "duong di dep");
}

#[test]
fn horned_vowels_decompose() {
    assert_eq!(fold("ơ ư Ơ Ư"), "o u o u");
    assert_eq!(fold("Được"), "duoc");
    assert_eq!(fold("Tương Lai"), "tuong lai");
}

#[test]
fn stacked_marks_are_all_removed() {
    assert_eq!(fold("ế ề ể ễ ệ"), "e e e e e");
    assert_eq!(fold("ự ừ ứ ử ữ"), "u u u u u");
    assert_eq!(fold("ằ ắ ẳ ẵ ặ"), "a a a a a");
    assert_eq!(fold("ỗ ộ ố ồ ổ"), "o o o o o");
}

#[test]
fn every_vietnamese_letter_folds_to_ascii() {
    let alphabet = "aăâbcdđeêghiklmnoôơpqrstuưvxy";
    let folded = fold(alphabet);
    assert!(folded.is_ascii(), "folded alphabet still has non-ASCII: {folded:?}");
    assert_eq!(folded, "aaabcddeeghiklmnooopqrstuuvxy");
}

#[test]
fn all_tone_marks_on_a_single_vowel() {
    assert_eq!(fold("a à ả ã á ạ"), "a a a a a a");
}

#[test]
fn realistic_filenames() {
    assert_eq!(
        fold("Phim Tài Liệu - Vịnh Hạ Long (2024).mp4"),
        "phim tai lieu - vinh ha long (2024).mp4"
    );
    assert_eq!(
        fold("Bài 13_ UROLOGIST_ What Is The Normal Size.mp3"),
        "bai 13_ urologist_ what is the normal size.mp3"
    );
}

#[test]
fn ascii_fast_path_matches_the_general_path() {
    for s in ["Hello World.MP4", "S01E02-1080p.MKV", "", "12345", "A_b-c.d"] {
        let mut general = String::new();
        for c in s.nfd() {
            if !is_combining_mark(c) {
                general.extend(c.to_lowercase());
            }
        }
        assert_eq!(fold(s), general, "diverged on {s:?}");
    }
}

#[test]
fn leaves_scripts_without_case_or_marks_alone() {
    assert_eq!(fold("日本語.mp4"), "日本語.mp4");
    assert_eq!(fold("한국어"), "한국어");
}

#[test]
fn european_letters_that_do_not_decompose() {
    assert_eq!(fold("Straße"), "strasse");
    assert_eq!(fold("Bjørn"), "bjorn");
    assert_eq!(fold("Łódź"), "lodz");
}

#[test]
fn handles_empty_and_marks_only_input() {
    assert_eq!(fold(""), "");
    assert_eq!(fold("\u{0301}\u{0323}"), "", "bare marks fold away entirely");
}

#[test]
fn is_idempotent() {
    for s in ["Tiếng Việt", "Đà Nẵng", "Straße", "日本語", "Hello.MP4"] {
        let once = fold(s);
        assert_eq!(fold(&once), once, "not idempotent for {s:?}");
    }
}

#[test]
fn undecomposable_letters_are_spelt_out() {
    assert_eq!(undecomposable('Æ'), Some("ae"));
    assert_eq!(undecomposable('þ'), Some("th"));
    assert_eq!(undecomposable('a'), None);
}
