use std::sync::atomic::AtomicU64;

use mediafinder::index::model::{Index, IndexBuilder, MediaKind};
use mediafinder::index::search::{search, search_all, tokenize, SearchOptions, CHUNK};
fn build(names: &[&str]) -> Index {
    let mut b = IndexBuilder::new();
    let d = b.add_dir(r"D:\Media", 0);
    for n in names {
        b.add_file(n, MediaKind::Video, d, 0);
    }
    b.finish()
}

fn run(index: &Index, query: &str) -> Vec<String> {
    let cancel = AtomicU64::new(0);
    search(index, query, &SearchOptions::default(), &cancel, 0)
        .hits
        .into_iter()
        .map(|h| index.name(h.index as usize).to_string())
        .collect()
}

#[test]
fn finds_a_plain_substring() {
    let ix = build(&["holiday.mp4", "work.mp4", "beach holiday.mp4"]);
    let got = run(&ix, "holiday");
    assert_eq!(got.len(), 2);
    assert!(got.contains(&"holiday.mp4".to_string()));
}

#[test]
fn ranks_exact_above_prefix_above_embedded() {
    let ix = build(&[
        "my_avatar_backup_2019.mkv",
        "avatar_extended_edition.mkv",
        "avatar.mkv",
    ]);
    // The acceptance criterion from the plan.
    assert_eq!(
        run(&ix, "avatar"),
        vec![
            "avatar.mkv",
            "avatar_extended_edition.mkv",
            "my_avatar_backup_2019.mkv",
        ]
    );
}

#[test]
fn word_start_beats_mid_word() {
    let ix = build(&["xxcatxx.mp4", "my cat.mp4"]);
    assert_eq!(run(&ix, "cat"), vec!["my cat.mp4", "xxcatxx.mp4"]);
}

#[test]
fn shorter_names_win_a_tie() {
    let ix = build(&["cat and a very long descriptive title.mp4", "cat two.mp4"]);
    assert_eq!(run(&ix, "cat")[0], "cat two.mp4");
}

#[test]
fn multiple_tokens_are_anded() {
    let ix = build(&[
        "avatar 2009 1080p.mkv",
        "avatar 2022.mkv",
        "titanic 2009.mkv",
    ]);
    assert_eq!(run(&ix, "avatar 2009"), vec!["avatar 2009 1080p.mkv"]);
}

#[test]
fn tokens_may_appear_in_any_order() {
    let ix = build(&["2009 avatar remastered.mkv"]);
    assert_eq!(run(&ix, "avatar 2009").len(), 1);
}

#[test]
fn matches_vietnamese_typed_without_diacritics() {
    // The reason folding exists at all.
    let ix = build(&["Tiếng Việt.mp4", "English.mp4"]);
    assert_eq!(run(&ix, "tieng viet"), vec!["Tiếng Việt.mp4"]);
    assert_eq!(run(&ix, "TIENG"), vec!["Tiếng Việt.mp4"]);
}

#[test]
fn matches_vietnamese_typed_with_diacritics_too() {
    let ix = build(&["Đà Nẵng 2024.mkv"]);
    assert_eq!(run(&ix, "Đà Nẵng").len(), 1);
    assert_eq!(run(&ix, "da nang").len(), 1);
    assert_eq!(run(&ix, "DA NANG").len(), 1);
}

#[test]
fn finds_files_whose_meaning_lives_in_the_folder_path() {
    // Modelled on the real layout found on D: — descriptive Vietnamese
    // folder names, numeric filenames. Filename-only search returned
    // nothing at all for this library.
    let mut b = IndexBuilder::new();
    let d = b.add_dir(r"D:\Sounds Edit\HƯNG\DATA TẠO VID HƯNG\HAN QUOC\13", 0);
    b.add_file("154.mp3", MediaKind::Audio, d, 0);
    b.add_file("155.mp3", MediaKind::Audio, d, 0);
    let other = b.add_dir(r"D:\Misc", 0);
    b.add_file("999.mp3", MediaKind::Audio, other, 0);
    let ix = b.finish();

    assert_eq!(run(&ix, "han quoc").len(), 2);
    assert_eq!(run(&ix, "hung").len(), 2);
    // Folded, so no diacritics needed on the folder name either.
    assert_eq!(run(&ix, "tao vid").len(), 2);
}

#[test]
fn real_world_vietnamese_directory_names() {
    // Directory names taken verbatim from the scanned D: volume, with the
    // queries typed the way someone actually types them: no diacritics,
    // no matching case. Synthetic test data kept missing this class of
    // problem, so these are pinned to the real thing.
    let mut b = IndexBuilder::new();
    for (path, file) in [
        (r"D:\Sounds Edit\NHẠC GO", "01.mp3"),
        (r"D:\Sounds Edit\Nhạc nền", "02.mp3"),
        (r"D:\Sounds Edit\HƯNG\NHẠC NỀN\Nhạc\Năng Động", "03.mp3"),
        (r"D:\Sounds Edit\HƯNG\WISE\DATA TẠO VID HƯNG\HAN QUOC\13", "154.mp3"),
        (r"D:\Phim\Không dấu gì cả", "04.mp4"),
    ] {
        let d = b.add_dir(path, 0);
        b.add_file(file, MediaKind::Audio, d, 0);
    }
    let ix = b.finish();

    assert_eq!(run(&ix, "nhac").len(), 3, "NHẠC GO / Nhạc nền / NHẠC NỀN");
    assert_eq!(run(&ix, "nhac nen").len(), 2, "Nhạc nền / NHẠC NỀN");
    assert_eq!(run(&ix, "nang dong").len(), 1, "Năng Động");
    assert_eq!(run(&ix, "hung").len(), 2, "HƯNG appears in two paths");
    assert_eq!(run(&ix, "tao vid").len(), 1, "DATA TẠO VID HƯNG");
    assert_eq!(run(&ix, "han quoc").len(), 1);
    assert_eq!(run(&ix, "khong dau").len(), 1);

    // And nothing that is genuinely absent may be conjured up. An
    // independent filesystem check confirmed no `Tiếng Việt` folder
    // exists on that volume, so zero results there is correct behaviour.
    assert!(run(&ix, "tieng viet").is_empty());
}

#[test]
fn a_filename_match_always_outranks_a_folder_match() {
    let mut b = IndexBuilder::new();
    let in_folder = b.add_dir(r"D:\holiday videos", 0);
    b.add_file("00123.mp4", MediaKind::Video, in_folder, 0);
    let plain = b.add_dir(r"D:\Misc", 0);
    b.add_file("holiday.mp4", MediaKind::Video, plain, 0);
    let ix = b.finish();

    // The file actually named `holiday` must come first, however
    // suggestive the other one's folder is.
    assert_eq!(run(&ix, "holiday"), vec!["holiday.mp4", "00123.mp4"]);
}

#[test]
fn tokens_may_be_split_across_folder_and_filename() {
    let mut b = IndexBuilder::new();
    let d = b.add_dir(r"D:\Phim\2024", 0);
    b.add_file("avatar.mkv", MediaKind::Video, d, 0);
    let e = b.add_dir(r"D:\Phim\2019", 0);
    b.add_file("avatar.mkv", MediaKind::Video, e, 0);
    let ix = b.finish();

    // `2024` comes from the folder, `avatar` from the filename.
    let hits = run(&ix, "avatar 2024");
    assert_eq!(hits.len(), 1);
}

#[test]
fn a_token_in_neither_name_nor_folder_still_rejects() {
    let mut b = IndexBuilder::new();
    let d = b.add_dir(r"D:\Phim\2024", 0);
    b.add_file("avatar.mkv", MediaKind::Video, d, 0);
    let ix = b.finish();

    assert!(run(&ix, "avatar 1999").is_empty());
    assert!(run(&ix, "avatar nonexistent").is_empty());
}

/// The exact filename reported from the user's D: volume.
const ANGLERFISH: &str =
    "YTSave_YouTube_The-anglerfish-The-original-approach-to-_Media_VqPMP9X-89o_001_1080p.mp4";

#[test]
fn punctuation_never_swallows_a_word() {
    // `anglerfish:` used to stay glued to its colon and match nothing,
    // silently discarding the most distinctive word in the query.
    assert_eq!(
        tokenize("the anglerfish: the original approach"),
        vec!["the", "anglerfish", "the", "original", "approach"]
    );
    // A hyphenated pair becomes two tokens, so it matches `deep_sea`,
    // `deep sea` and `Deep-Sea` alike.
    assert_eq!(tokenize("deep-sea fishing"), vec!["deep", "sea", "fishing"]);
    assert_eq!(tokenize("s01e02 (1080p) [x265]"), vec!["s01e02", "1080p", "x265"]);
    assert!(tokenize("   ...   ").is_empty());
}

#[test]
fn tokenizer_keeps_non_latin_words_whole() {
    // `is_alphanumeric` is Unicode-aware, so scripts without spaces or
    // case are not shredded into single characters.
    assert_eq!(tokenize("日本語 の 動画"), vec!["日本語", "の", "動画"]);
    assert_eq!(tokenize("tieng viet"), vec!["tieng", "viet"]);
}

#[test]
fn a_pasted_title_finds_the_truncated_file() {
    // The reported failure, end to end. The downloader cut the title at
    // `to-`, so `deep`, `sea` and `fishing` are not in the filename at
    // all; demanding every token returns nothing while the file sits
    // right there.
    let ix = build(&[ANGLERFISH, "unrelated clip.mp4"]);
    let cancel = AtomicU64::new(0);
    let out = search(
        &ix,
        "The anglerfish: The original approach to deep-sea fishing",
        &SearchOptions::default(),
        &cancel,
        0,
    );

    assert_eq!(out.hits.len(), 1, "the file must be found");
    assert_eq!(ix.name(out.hits[0].index as usize), ANGLERFISH);

    let relaxed = out.relaxed.expect("results are partial and must say so");
    assert_eq!(relaxed.total_tokens, 9);
    assert_eq!(relaxed.best_matched, 6, "the, anglerfish, the, original, approach, to");
}

#[test]
fn relaxed_results_are_ranked_by_how_much_of_the_query_they_match() {
    let ix = build(&[
        "anglerfish only.mp4",                  // 1 of 5 tokens
        "the anglerfish original approach.mp4", // 4 of 5
        "the anglerfish original.mp4",          // 3 of 5
    ]);
    let cancel = AtomicU64::new(0);
    let out = search(
        &ix,
        "the anglerfish original approach missingword",
        &SearchOptions::default(),
        &cancel,
        0,
    );

    let names: Vec<&str> = out.hits.iter().map(|h| ix.name(h.index as usize)).collect();
    assert_eq!(
        names,
        vec!["the anglerfish original approach.mp4"],
        "only the closest match survives, not merely close ones"
    );
    assert_eq!(out.hits[0].matched, 4);
    assert_eq!(out.relaxed.unwrap().best_matched, 4);
}

#[test]
fn every_file_tied_for_the_best_match_is_kept() {
    let ix = build(&[
        "the anglerfish original A.mp4", // the/anglerfish/original = 3 of 5
        "the anglerfish original B.mp4", // 3 of 5
        "the anglerfish.mp4",            // 2 of 5 — below the floor, dropped
    ]);
    let cancel = AtomicU64::new(0);
    let out = search(
        &ix,
        "the anglerfish original approach missingword",
        &SearchOptions::default(),
        &cancel,
        0,
    );
    assert_eq!(out.hits.len(), 2, "ties at the best count are all kept");
    assert!(out.hits.iter().all(|h| h.matched == 3));
}

#[test]
fn relaxing_still_requires_half_the_query() {
    // Without a floor, a nine-word query would return every file that
    // happens to contain the word "the" — thousands of results, all
    // useless, burying the one good answer.
    let ix = build(&[
        "the.mp4",                              // 1 of 5 — must be dropped
        "the anglerfish original.mp4",          // 3 of 5 — must be kept
    ]);
    let cancel = AtomicU64::new(0);
    let out = search(
        &ix,
        "the anglerfish original approach missingword",
        &SearchOptions::default(),
        &cancel,
        0,
    );

    assert_eq!(out.hits.len(), 1, "the 1-of-5 match must not survive");
    assert_eq!(ix.name(out.hits[0].index as usize), "the anglerfish original.mp4");
}

#[test]
fn short_queries_are_never_relaxed() {
    // Two words is a deliberate query. Quietly widening it would answer a
    // question the user did not ask; an honest empty result is better.
    let ix = build(&["avatar 2024.mkv"]);
    let cancel = AtomicU64::new(0);
    for q in ["avatar 1999", "avatar nonexistent"] {
        let out = search(&ix, q, &SearchOptions::default(), &cancel, 0);
        assert!(out.hits.is_empty(), "{q:?} should return nothing");
        assert!(out.relaxed.is_none());
    }
}

#[test]
fn a_query_that_fully_matches_never_falls_back() {
    // The fallback must not loosen a query that already works — `avatar
    // 2009` should not start dragging in every file containing `2009`.
    let ix = build(&["avatar 2009.mkv", "titanic 2009.mkv", "avatar 2022.mkv"]);
    let cancel = AtomicU64::new(0);
    let out = search(&ix, "avatar 2009", &SearchOptions::default(), &cancel, 0);

    assert_eq!(out.hits.len(), 1);
    assert!(out.relaxed.is_none(), "strict results must not be marked partial");
}

#[test]
fn a_single_token_that_matches_nothing_stays_empty() {
    // With one token there is nothing to relax: reporting a partial match
    // would be meaningless.
    let ix = build(&["holiday.mp4"]);
    let cancel = AtomicU64::new(0);
    let out = search(&ix, "zzzznothing", &SearchOptions::default(), &cancel, 0);
    assert!(out.hits.is_empty());
    assert!(out.relaxed.is_none());
}

#[test]
fn relaxed_still_returns_nothing_when_no_token_matches_at_all() {
    let ix = build(&["holiday.mp4"]);
    let cancel = AtomicU64::new(0);
    let out = search(&ix, "zzzz qqqq wwww", &SearchOptions::default(), &cancel, 0);
    assert!(out.hits.is_empty());
    assert!(out.relaxed.is_none());
}

#[test]
fn matched_count_outranks_a_better_quality_match() {
    // An exact match on one token must still lose to a file containing two
    // of them, otherwise a lucky filename hijacks the top of the list.
    let ix = build(&["anglerfish.mp4", "the anglerfish deep clip.mp4"]);
    let cancel = AtomicU64::new(0);
    let out = search(
        &ix,
        "anglerfish deep missingword",
        &SearchOptions::default(),
        &cancel,
        0,
    );
    assert_eq!(
        ix.name(out.hits[0].index as usize),
        "the anglerfish deep clip.mp4"
    );
}

#[test]
fn empty_or_whitespace_query_returns_nothing() {
    let ix = build(&["a.mp4"]);
    assert!(run(&ix, "").is_empty());
    assert!(run(&ix, "   ").is_empty());
}

#[test]
fn respects_the_kind_filter() {
    let mut b = IndexBuilder::new();
    let d = b.add_dir(r"D:\M", 0);
    b.add_file("holiday.mp4", MediaKind::Video, d, 0);
    b.add_file("holiday.jpg", MediaKind::Image, d, 0);
    b.add_file("holiday.mp3", MediaKind::Audio, d, 0);
    let ix = b.finish();

    let cancel = AtomicU64::new(0);
    let opts = SearchOptions {
        kinds: vec![MediaKind::Image],
        ..Default::default()
    };
    let hits = search(&ix, "holiday", &opts, &cancel, 0).hits;
    assert_eq!(hits.len(), 1);
    assert_eq!(ix.name(hits[0].index as usize), "holiday.jpg");
}

#[test]
fn honours_the_limit() {
    let names: Vec<String> = (0..500).map(|i| format!("clip{i}.mp4")).collect();
    let refs: Vec<&str> = names.iter().map(|s| s.as_str()).collect();
    let ix = build(&refs);

    let cancel = AtomicU64::new(0);
    let opts = SearchOptions {
        limit: 10,
        ..Default::default()
    };
    assert_eq!(search(&ix, "clip", &opts, &cancel, 0).hits.len(), 10);
}

#[test]
fn a_superseded_search_bails_out() {
    let ix = build(&["a.mp4", "b.mp4"]);
    let cancel = AtomicU64::new(7); // a newer keystroke already arrived
    assert!(search(&ix, "mp4", &SearchOptions::default(), &cancel, 3).hits.is_empty());
}

#[test]
fn results_are_identical_across_runs() {
    // Guards the determinism bug: with unordered parallel selection the
    // same query returns a different list each time.
    let names: Vec<String> = (0..3000).map(|i| format!("clip {i} test.mp4")).collect();
    let refs: Vec<&str> = names.iter().map(|s| s.as_str()).collect();
    let ix = build(&refs);

    let cancel = AtomicU64::new(0);
    let opts = SearchOptions {
        limit: 50,
        ..Default::default()
    };
    let first = search(&ix, "clip", &opts, &cancel, 0).hits;
    for _ in 0..12 {
        assert_eq!(
            search(&ix, "clip", &opts, &cancel, 0).hits,
            first,
            "search is not deterministic"
        );
    }
}

#[test]
fn scores_never_descend_through_the_result_list() {
    let names: Vec<String> = (0..2000)
        .map(|i| {
            if i % 3 == 0 {
                format!("cat{i}.mp4")
            } else {
                format!("a_long_prefix_{i}_cat_suffix.mp4")
            }
        })
        .collect();
    let refs: Vec<&str> = names.iter().map(|s| s.as_str()).collect();
    let ix = build(&refs);

    let cancel = AtomicU64::new(0);
    let hits = search(&ix, "cat", &SearchOptions::default(), &cancel, 0).hits;
    assert!(hits.len() > 100);
    for w in hits.windows(2) {
        assert!(w[0].score >= w[1].score, "results are out of order");
    }
}

#[test]
fn spans_many_chunks_correctly() {
    // More entries than CHUNK, so the parallel merge is actually exercised
    // and nothing is dropped at a chunk boundary.
    let names: Vec<String> = (0..CHUNK * 2 + 7)
        .map(|i| format!("file{i}.mp4"))
        .collect();
    let refs: Vec<&str> = names.iter().map(|s| s.as_str()).collect();
    let ix = build(&refs);

    let cancel = AtomicU64::new(0);
    let opts = SearchOptions {
        limit: usize::MAX >> 1,
        ..Default::default()
    };
    // Exactly one entry is named `file9999.mp4`.
    let hits = search(&ix, "file9999.mp4", &opts, &cancel, 0).hits;
    assert_eq!(hits.len(), 1);
    assert_eq!(ix.name(hits[0].index as usize), "file9999.mp4");
}

#[test]
fn query_folding_matches_index_folding() {
    // Both sides must go through the same fold, or diacritics silently
    // stop matching.
    let ix = build(&["Đường Về Nhà.mp4"]);
    for q in ["duong ve nha", "Đường Về Nhà", "DUONG", "đường"] {
        assert_eq!(run(&ix, q).len(), 1, "query {q:?} failed to match");
    }
}

#[test]
fn search_all_matches_an_uncancelled_search() {
    let ix = build(&["holiday.mp4", "work.mp4", "beach holiday.mp4"]);
    let all = search_all(&ix, "holiday", &SearchOptions::default());
    let names: Vec<String> = all.hits.iter().map(|h| ix.name(h.index as usize).to_string()).collect();
    assert_eq!(names, run(&ix, "holiday"));
    assert_eq!(names.len(), 2);
    assert!(all.relaxed.is_none());
}

