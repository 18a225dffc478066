use mediafinder::index::model::{IndexBuilder, MediaKind};
use mediafinder::index::search::{Hit, Relaxed};
use mediafinder::ipc::commands::{cutoff_for, hit_view, hotkey_status, parse_kinds, relaxed_info, search_options, Filters};
use mediafinder::media::metadata::MediaProps;

#[test]
fn parses_known_kinds_and_ignores_junk() {
    let got = parse_kinds(&[
        "video".into(),
        "nonsense".into(),
        "audio".into(),
        String::new(),
    ]);
    assert_eq!(got, vec![MediaKind::Video, MediaKind::Audio]);
}

#[test]
fn no_kinds_means_no_filter() {
    assert!(parse_kinds(&[]).is_empty());
}

#[test]
fn labels_are_matched_exactly() {
    assert_eq!(parse_kinds(&["Video".into(), "images".into(), "image".into()]), vec![MediaKind::Image]);
}

#[test]
fn within_days_counts_back_from_now() {
    assert_eq!(cutoff_for(0, 1_700_000_000), 0);
    assert_eq!(cutoff_for(7, 1_700_000_000), 1_700_000_000 - 7 * 86_400);
    // A clock set before the window would otherwise make the filter match everything.
    assert_eq!(cutoff_for(7, 1_000), 0);
}

#[test]
fn the_limit_is_held_in_range() {
    assert_eq!(search_options(0, &[]).limit, 1);
    assert_eq!(search_options(50, &[]).limit, 50);
    assert_eq!(search_options(1_000_000, &[]).limit, 20_000);
    assert_eq!(search_options(10, &["image".into()]).kinds, vec![MediaKind::Image]);
}

#[test]
fn a_hit_reads_its_row_from_the_index() {
    let mut b = IndexBuilder::new();
    let d = b.add_dir(r"D:\Phim", 10);
    b.add_file("avatar.mkv", MediaKind::Video, d, 100);
    let mut ix = b.finish();
    ix.set_file_stats(vec![1234], vec![5]);
    let h = Hit { index: 0, score: 77, matched: 1 };
    let p = MediaProps { width: 1920, height: 1080, duration_ms: 60_000 };
    let row = hit_view(&ix, &h, p);
    assert_eq!(row.name, "avatar.mkv");
    assert_eq!(row.path, r"D:\Phim\avatar.mkv");
    assert_eq!(row.dir, r"D:\Phim");
    assert_eq!(row.kind, "video");
    assert_eq!(row.score, 77);
    assert_eq!(row.size, 1234);
    assert_eq!(row.height, 1080);
    let r = relaxed_info(Relaxed { total_tokens: 3, best_matched: 2 });
    assert_eq!((r.total_tokens, r.best_matched), (3, 2));
}

#[test]
fn the_hotkey_status_names_a_fallback() {
    let s = hotkey_status("Ctrl+Alt+F", true);
    assert!(s.fallback);
    assert_eq!(s.preferred, "Ctrl+Alt+Space");
    assert!(!hotkey_status("Ctrl+Alt+Space", true).fallback);
    assert!(!hotkey_status("", false).fallback);
    assert_eq!(Filters::default().within_days, 0);
}
