use std::sync::atomic::AtomicU64;

use mediafinder::index::search::{search, SearchOptions};
use mediafinder::index::model::{Index, IndexBuilder, MediaKind};
use mediafinder::index::update::{rebuild_with, Change, UpdateStats, ROOT_RECORD_NUMBER};


const ROOT: u64 = 0x0005_0000_0000_0005;

/// A small library: `D:\Phim` with two films, `D:\Nhạc` with one song.
fn library() -> Index {
    let mut b = IndexBuilder::new();
    let root = b.add_dir("D:", ROOT_RECORD_NUMBER);
    let phim = b.add_dir(r"D:\Phim", 10);
    let nhac = b.add_dir(r"D:\Nhạc", 11);
    b.add_file("root.mp4", MediaKind::Video, root, 99);
    b.add_file("avatar.mkv", MediaKind::Video, phim, 100);
    b.add_file("titanic.mkv", MediaKind::Video, phim, 101);
    b.add_file("bài hát.mp3", MediaKind::Audio, nhac, 102);
    let mut ix = b.finish();
    ix.set_file_stats(vec![10, 20, 30, 40], vec![1, 2, 3, 4]);
    ix
}

fn paths(ix: &Index) -> Vec<String> {
    (0..ix.len()).map(|i| ix.full_path(i)).collect()
}

fn present(frn: u64, parent: u64, name: &str, is_dir: bool) -> Change {
    Change::Present {
        volume: b'D',
        frn,
        parent_frn: parent,
        name: name.to_string(),
        is_dir,
    }
}

fn gone(frn: u64) -> Change {
    Change::Gone {
        volume: b'D',
        frn,
    }
}

#[test]
fn no_changes_reproduces_the_same_library() {
    let old = library();
    let (new, stats) = rebuild_with(&old, &[]);

    assert_eq!(paths(&new), paths(&old));
    assert_eq!(new.dir_count(), old.dir_count());
    assert_eq!(stats, UpdateStats::default());
    // Sizes and timestamps must survive, or every rebuild would throw away
    // the fast metadata pass.
    assert_eq!(new.sizes(), old.sizes());
}

#[test]
fn a_deleted_file_disappears_and_the_rest_stay() {
    let (new, stats) = rebuild_with(&library(), &[gone(100)]);

    assert!(!paths(&new).contains(&r"D:\Phim\avatar.mkv".to_string()));
    assert!(paths(&new).contains(&r"D:\Phim\titanic.mkv".to_string()));
    assert_eq!(new.len(), 3);
    assert_eq!(stats.files_removed, 1);
}

#[test]
fn a_renamed_file_is_findable_under_its_new_name_only() {
    let (new, stats) = rebuild_with(&library(), &[present(100, 10, "AVATAR 2009.mkv", false)]);

    let p = paths(&new);
    assert!(p.contains(&r"D:\Phim\AVATAR 2009.mkv".to_string()));
    assert!(!p.contains(&r"D:\Phim\avatar.mkv".to_string()));
    assert_eq!(new.len(), 4, "đổi tên không được làm số mục thay đổi");
    assert_eq!(stats.files_moved, 1);
    assert_eq!(stats.files_added, 0);
}

#[test]
fn a_moved_file_keeps_the_size_already_measured_for_it() {
    // Nothing about the bytes changed, so re-measuring would be wasted I/O
    // — and until it happened the file would show as 0 bytes.
    let (new, _) = rebuild_with(&library(), &[present(100, 11, "avatar.mkv", false)]);

    let i = (0..new.len())
        .find(|&i| new.full_path(i) == r"D:\Nhạc\avatar.mkv")
        .expect("tệp đã chuyển thư mục");
    assert_eq!(new.size(i), 20);
    assert_eq!(new.mtime(i), 2);
}

#[test]
fn a_new_file_lands_in_an_existing_directory() {
    let (new, stats) = rebuild_with(&library(), &[present(200, 10, "dune.mp4", false)]);

    assert!(paths(&new).contains(&r"D:\Phim\dune.mp4".to_string()));
    assert_eq!(stats.files_added, 1);
    // No size yet: a journal record does not carry one.
    let i = (0..new.len())
        .find(|&i| new.full_path(i) == r"D:\Phim\dune.mp4")
        .unwrap();
    assert_eq!(new.size(i), 0);
}

#[test]
fn a_file_in_the_root_of_a_drive_resolves_through_the_full_root_reference() {
    // The index files the root under bare record number 5; the journal
    // names it with its sequence number attached. Both have to land on the
    // same directory or every file dropped on `D:\` looks like an orphan.
    let (new, stats) = rebuild_with(&library(), &[present(201, ROOT, "new.mp4", false)]);

    assert!(paths(&new).contains(&r"D:\new.mp4".to_string()));
    assert_eq!(stats.unresolved, 0);
}

#[test]
fn a_file_created_in_a_brand_new_directory_chain() {
    let changes = vec![
        present(20, 10, "2024", true),
        present(21, 20, "Q4", true),
        present(300, 21, "phim mới.mp4", false),
    ];
    let (new, stats) = rebuild_with(&library(), &changes);

    assert!(paths(&new).contains(&r"D:\Phim\2024\Q4\phim mới.mp4".to_string()));
    assert_eq!(stats.dirs_added, 2);
    assert_eq!(stats.files_added, 1);
}

#[test]
fn new_directories_resolve_whatever_order_they_arrive_in() {
    // A `HashMap` hands them back in no particular order, so the child may
    // well be seen before its parent exists.
    let changes = vec![
        present(300, 21, "phim mới.mp4", false),
        present(21, 20, "Q4", true),
        present(20, 10, "2024", true),
    ];
    let (new, _) = rebuild_with(&library(), &changes);
    assert!(paths(&new).contains(&r"D:\Phim\2024\Q4\phim mới.mp4".to_string()));
}

#[test]
fn renaming_a_directory_moves_everything_underneath_it() {
    let mut b = IndexBuilder::new();
    let _root = b.add_dir("D:", ROOT_RECORD_NUMBER);
    let phim = b.add_dir(r"D:\Phim", 10);
    let sub = b.add_dir(r"D:\Phim\2024", 12);
    b.add_file("a.mkv", MediaKind::Video, phim, 100);
    b.add_file("b.mkv", MediaKind::Video, sub, 101);
    let old = b.finish();

    let (new, stats) = rebuild_with(&old, &[present(10, ROOT, "Movies", true)]);

    let p = paths(&new);
    assert!(p.contains(&r"D:\Movies\a.mkv".to_string()));
    assert!(
        p.contains(&r"D:\Movies\2024\b.mkv".to_string()),
        "thư mục con phải đi theo: {p:?}"
    );
    assert_eq!(stats.dirs_renamed, 1);
    assert_eq!(stats.files_moved, 0, "không tệp nào được nhắc tên");
}

#[test]
fn renaming_a_directory_leaves_its_similarly_named_sibling_alone() {
    // `D:\Phim2` starts with `D:\Phim` as a string but is not inside it.
    // Without the separator check every rename would drag in its siblings.
    let mut b = IndexBuilder::new();
    let _root = b.add_dir("D:", ROOT_RECORD_NUMBER);
    let a = b.add_dir(r"D:\Phim", 10);
    let c = b.add_dir(r"D:\Phim2", 13);
    b.add_file("a.mkv", MediaKind::Video, a, 100);
    b.add_file("c.mkv", MediaKind::Video, c, 102);
    let old = b.finish();

    let (new, _) = rebuild_with(&old, &[present(10, ROOT, "Movies", true)]);

    let p = paths(&new);
    assert!(p.contains(&r"D:\Movies\a.mkv".to_string()));
    assert!(p.contains(&r"D:\Phim2\c.mkv".to_string()), "{p:?}");
}

#[test]
fn deleting_a_directory_takes_its_files_with_it() {
    // The journal reports the directory going away; it does not repeat
    // itself for each file that was inside.
    let (new, stats) = rebuild_with(&library(), &[gone(10)]);

    let p = paths(&new);
    assert!(!p.iter().any(|s| s.starts_with(r"D:\Phim")), "{p:?}");
    assert!(p.contains(&r"D:\Nhạc\bài hát.mp3".to_string()));
    assert_eq!(stats.files_removed, 2);
    assert_eq!(stats.dirs_removed, 1);
}

#[test]
fn deleting_a_directory_takes_its_subdirectories_too() {
    let mut b = IndexBuilder::new();
    let _root = b.add_dir("D:", ROOT_RECORD_NUMBER);
    let phim = b.add_dir(r"D:\Phim", 10);
    let sub = b.add_dir(r"D:\Phim\2024", 12);
    b.add_file("a.mkv", MediaKind::Video, phim, 100);
    b.add_file("b.mkv", MediaKind::Video, sub, 101);
    let old = b.finish();

    let (new, _) = rebuild_with(&old, &[gone(10)]);
    assert_eq!(new.len(), 0, "{:?}", paths(&new));
}

#[test]
fn an_frn_shared_across_two_volumes_only_affects_its_own() {
    let mut b = IndexBuilder::new();
    let c = b.add_dir(r"C:\Media", 10);
    let d = b.add_dir(r"D:\Media", 10);
    b.add_file("same.mp4", MediaKind::Video, c, 100);
    b.add_file("same.mp4", MediaKind::Video, d, 100);
    let old = b.finish();

    // Reference numbers restart on every volume, so this pair is a normal
    // state of affairs, not a corrupt index.
    let (new, _) = rebuild_with(&old, &[gone(100)]);

    let p = paths(&new);
    assert_eq!(p, vec![r"C:\Media\same.mp4".to_string()], "{p:?}");
}

#[test]
fn a_change_under_a_directory_the_index_never_knew_is_ignored() {
    // Files appear under `C:\Windows` constantly. They were excluded at
    // scan time, so their parent is not in the table and there is nothing
    // to do — but it must not drop the batch or panic.
    let (new, stats) = rebuild_with(&library(), &[present(400, 9999, "x.mp4", false)]);

    assert_eq!(new.len(), 4);
    assert_eq!(stats.unresolved, 1);
    assert_eq!(stats.files_added, 0);
}

#[test]
fn a_non_media_file_is_not_added() {
    let (new, stats) = rebuild_with(&library(), &[present(401, 10, "notes.txt", false)]);
    assert_eq!(new.len(), 4);
    assert_eq!(stats.files_added, 0);
}

#[test]
fn the_last_record_for_an_entry_is_the_one_that_counts() {
    // A file created then renamed twice within one batch is one entry at
    // its final name, not three.
    let changes = vec![
        present(500, 10, "tmp.mp4", false),
        present(500, 10, "draft.mp4", false),
        present(500, 10, "final.mp4", false),
    ];
    let (new, stats) = rebuild_with(&library(), &changes);

    let p = paths(&new);
    assert!(p.contains(&r"D:\Phim\final.mp4".to_string()));
    assert!(!p.contains(&r"D:\Phim\tmp.mp4".to_string()));
    assert_eq!(stats.files_added, 1);
}

#[test]
fn a_file_created_and_deleted_within_one_batch_never_appears() {
    let changes = vec![present(501, 10, "temp.mp4", false), gone(501)];
    let (new, stats) = rebuild_with(&library(), &changes);

    assert_eq!(new.len(), 4);
    assert_eq!(stats.files_added, 0);
}

#[test]
fn zero_is_not_an_identity_and_matches_nothing() {
    // Found by a benchmark, not by a test: every entry in the synthetic
    // index had been given FRN 0, so one `Gone { frn: 0 }` deleted all
    // 500 000 of them — and the benchmark reported applying a hundred
    // changes as seven times *faster* than applying none, because there
    // was almost nothing left to rebuild.
    //
    // In production every entry has a real reference number, so this can
    // only arise from an index built before FRNs existed. The damage if it
    // did would be total and silent.
    let mut b = IndexBuilder::new();
    let d = b.add_dir(r"D:\Phim", 10);
    b.add_file("a.mkv", MediaKind::Video, d, 0);
    b.add_file("b.mkv", MediaKind::Video, d, 0);
    b.add_file("c.mkv", MediaKind::Video, d, 500);
    let old = b.finish();

    let (new, stats) = rebuild_with(&old, &[gone(0)]);
    assert_eq!(new.len(), 3, "không mục nào được phép biến mất");
    assert_eq!(stats.files_removed, 0);

    // And a real reference number still works on the same index.
    let (new, _) = rebuild_with(&old, &[gone(500)]);
    assert_eq!(new.len(), 2);
}

#[test]
fn a_change_carrying_no_reference_number_is_dropped() {
    let (new, stats) = rebuild_with(&library(), &[present(0, 10, "ghost.mp4", false)]);
    assert_eq!(new.len(), 4);
    assert_eq!(stats.files_added, 0);
}

#[test]
fn the_new_index_is_searchable_by_the_new_name() {
    // The point of all of this. Rebuilding has to produce a real index,
    // folded and all — not merely a correct list of paths.

    let (new, _) = rebuild_with(&library(), &[present(600, 10, "Tiếng Việt.mp4", false)]);

    let cancel = AtomicU64::new(0);
    let hits = search(&new, "tieng viet", &SearchOptions::default(), &cancel, 0).hits;
    assert_eq!(hits.len(), 1);
    assert_eq!(new.full_path(hits[0].index as usize), r"D:\Phim\Tiếng Việt.mp4");
}
