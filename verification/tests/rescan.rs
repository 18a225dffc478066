use mediafinder::index::model::{Index, IndexBuilder, MediaKind};
use mediafinder::index::persist::VolumeStamp;
use mediafinder::index::report::{
    apply_measurements, entries_to_measure, index_changed, index_done_message, may_replace_cache,
    network_done_message, no_change_message, nothing_scanned_message, update_done_message, volume_step,
    JournalRead, VolumeStep,
};
use mediafinder::index::rescan::{
    add_walked, carry_over, keep_stamps, scanned_letters, WalkedFile, WalkedSet,
};
use mediafinder::index::update::UpdateStats;

fn previous() -> Index {
    let mut b = IndexBuilder::new();
    let c = b.add_dir(r"C:\Phim", 11);
    let z = b.add_dir(r"Z:\Kho", 22);
    let z2 = b.add_dir(r"Z:\Kho\Cu", 23);
    b.add_file("a.mp4", MediaKind::Video, c, 101);
    b.add_file("b.mp3", MediaKind::Audio, z, 102);
    b.add_file("c.jpg", MediaKind::Image, z2, 103);
    b.add_file("d.mov", MediaKind::Video, z, 104);
    let mut ix = b.finish();
    ix.set_file_stats(vec![1, 2, 3, 4], vec![10, 20, 30, 40]);
    ix
}

fn paths(ix: &Index) -> Vec<String> {
    (0..ix.len()).map(|i| ix.full_path(i)).collect()
}

fn stamp(letter: char) -> VolumeStamp {
    VolumeStamp { letter, serial: 7, journal_id: 9, next_usn: 100, file_count: 3 }
}

#[test]
fn an_unscanned_drive_is_carried_over_exactly() {
    let old = previous();
    let mut b = IndexBuilder::new();
    let walked = WalkedSet {
        dirs: vec![r"C:\Moi".to_string()],
        dir_frns: vec![55],
        files: vec![WalkedFile { name: "x.mkv".to_string(), kind: MediaKind::Video, dir_id: 0, frn: 201 }],
    };
    add_walked(&mut b, &walked);
    let carried = carry_over(&mut b, &old, &[b'C']);
    assert_eq!(carried, vec![(2, 20), (3, 30), (4, 40)]);
    let ix = b.finish();
    assert_eq!(
        paths(&ix),
        vec![r"C:\Moi\x.mkv", r"Z:\Kho\b.mp3", r"Z:\Kho\Cu\c.jpg", r"Z:\Kho\d.mov"]
    );
    assert_eq!(ix.kind(2), MediaKind::Image);
    assert_eq!(ix.frn(3), 104);
    assert_eq!(ix.dir_frn(ix.dir_ids()[1] as usize), 22);
    // Each carried directory is registered once.
    assert_eq!(ix.dir_count(), 3);
}

#[test]
fn scanning_nothing_keeps_everything() {
    let old = previous();
    let mut b = IndexBuilder::new();
    let carried = carry_over(&mut b, &old, &[]);
    assert_eq!(carried.len(), 4);
    let ix = b.finish();
    assert_eq!(paths(&ix), paths(&old));
}

#[test]
fn a_walked_set_keeps_its_numbers() {
    let mut b = IndexBuilder::new();
    let set = WalkedSet {
        dirs: vec![r"D:\A".to_string(), r"D:\A\B".to_string()],
        dir_frns: vec![5, 6],
        files: vec![
            WalkedFile { name: "1.mp4".to_string(), kind: MediaKind::Video, dir_id: 1, frn: 7 },
            WalkedFile { name: "2.png".to_string(), kind: MediaKind::Image, dir_id: 0, frn: 8 },
        ],
    };
    add_walked(&mut b, &set);
    let ix = b.finish();
    assert_eq!(paths(&ix), vec![r"D:\A\B\1.mp4", r"D:\A\2.png"]);
    assert_eq!(ix.dir_frn(1), 6);
    assert_eq!(ix.frn(1), 8);
}

#[test]
fn stamps_of_unscanned_drives_survive() {
    let stamps = vec![stamp('C'), stamp('z'), stamp('D')];
    let scanned = scanned_letters(&[stamp('c'), stamp('D')]);
    assert_eq!(scanned, vec![b'C', b'D']);
    let kept = keep_stamps(&stamps, &scanned);
    assert_eq!(kept, vec![stamp('z')]);
}

#[test]
fn an_empty_scan_never_replaces_the_cache() {
    assert!(!may_replace_cache(0, 100));
    assert!(!may_replace_cache(2, 0));
    assert!(may_replace_cache(1, 1));
}

#[test]
fn closing_lines_say_what_happened() {
    assert_eq!(index_done_message(1234, 2, 2), "Đã lập chỉ mục 1234 tệp media");
    assert_eq!(
        index_done_message(1234, 1, 3),
        "Đã lập chỉ mục 1234 tệp media (chỉ quét được 1/3 ổ)"
    );
    assert_eq!(
        nothing_scanned_message(2),
        "Không quét được ổ đĩa nào (2 ổ NTFS đều thất bại). Chỉ mục cũ được giữ nguyên."
    );
    assert_eq!(network_done_message(true, 2, 50), "Đã dừng — giữ lại 50 tệp trên ổ mạng");
    assert_eq!(network_done_message(false, 2, 50), "Đã quét 2 ổ mạng, tìm thấy 50 tệp media");
    assert_eq!(no_change_message(0), "Không có thay đổi nào — 0 tệp");
    let mut st = UpdateStats::default();
    st.files_added = 3;
    st.files_removed = 1;
    assert_eq!(update_done_message(10, &st), "Cập nhật xong: 10 tệp (+3 −1)");
}

#[test]
fn an_update_that_moved_nothing_is_not_saved() {
    let mut st = UpdateStats::default();
    assert!(!index_changed(&st));
    st.unresolved = 5;
    assert!(!index_changed(&st), "unresolved changes move nothing");
    st.dirs_renamed = 1;
    assert!(index_changed(&st));
}

#[test]
fn only_unmeasured_entries_are_looked_up() {
    assert_eq!(entries_to_measure(&[5, 0, 7, 0]), vec![1, 3]);
    let mut sizes = vec![1, 0, 3, 0];
    let mut mtimes = vec![5, 0, 7, 0];
    apply_measurements(&mut sizes, &mut mtimes, &[(1, 100, 50), (3, 300, 70), (9, 1, 1)]);
    assert_eq!(sizes, vec![1, 100, 3, 300]);
    assert_eq!(mtimes, vec![5, 50, 7, 70]);
}

#[test]
fn a_quick_update_decides_each_drive_by_its_journal() {
    let st = stamp('D');
    assert_eq!(volume_step(st, JournalRead::Detached), VolumeStep::Keep(st));
    assert_eq!(
        volume_step(st, JournalRead::Read { next_usn: 555 }),
        VolumeStep::Advance(VolumeStamp { next_usn: 555, ..st })
    );
    assert_eq!(volume_step(st, JournalRead::Restart), VolumeStep::FullScan);
    assert_eq!(volume_step(st, JournalRead::Failed), VolumeStep::FullScan);
}
