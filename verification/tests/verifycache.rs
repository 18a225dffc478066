use mediafinder::media::verifycache::{khoa, Kho};
use mediafinder::media::verifyfast::{KetQua, Muc};

fn kq(muc: Muc) -> KetQua {
    KetQua {
        groups: vec![vec!["a".into(), "b".into()]],
        unreadable: vec![],
        cancelled: false,
        muc,
        bytes_read: 16,
    }
}

fn group() -> (Vec<String>, Vec<Option<(u64, i64)>>) {
    (
        vec![r"D:\x\a.bin".to_string(), r"D:\x\b.bin".to_string()],
        vec![Some((8, 1_700_000_000)), Some((8, 1_700_000_001))],
    )
}

#[test]
fn tep_bien_mat_thi_truot_chu_khong_no() {
    let kho = Kho::new();
    let ma = vec!["D:\\khong-he-co\\a.bin".to_string()];
    assert!(kho.tra(&ma, &[None], Muc::Nhanh).is_none());
}

#[test]
fn a_result_is_found_again() {
    let (ds, meta) = group();
    let mut kho = Kho::new();
    assert!(kho.tra(&ds, &meta, Muc::Nhanh).is_none());
    kho.ghi(&ds, &meta, &kq(Muc::Nhanh));
    assert_eq!(kho.tra(&ds, &meta, Muc::Nhanh), Some(kq(Muc::Nhanh)));
}

#[test]
fn a_fast_result_never_answers_the_full_question() {
    let (ds, meta) = group();
    let mut kho = Kho::new();
    kho.ghi(&ds, &meta, &kq(Muc::Nhanh));
    assert!(kho.tra(&ds, &meta, Muc::ToanBo).is_none());
}

#[test]
fn a_full_result_answers_the_fast_question_too() {
    let (ds, meta) = group();
    let mut kho = Kho::new();
    kho.ghi(&ds, &meta, &kq(Muc::ToanBo));
    let ra = kho.tra(&ds, &meta, Muc::Nhanh).expect("full answers fast");
    assert_eq!(ra.muc, Muc::ToanBo);
}

#[test]
fn a_changed_file_misses() {
    let (ds, meta) = group();
    let mut kho = Kho::new();
    kho.ghi(&ds, &meta, &kq(Muc::Nhanh));
    let changed = vec![Some((12, 1_700_000_000)), meta[1]];
    assert!(kho.tra(&ds, &changed, Muc::Nhanh).is_none());
}

#[test]
fn the_order_of_paths_does_not_matter() {
    let (ds, meta) = group();
    let mut kho = Kho::new();
    kho.ghi(&ds, &meta, &kq(Muc::Nhanh));
    let rev: Vec<String> = ds.iter().rev().cloned().collect();
    let rev_meta: Vec<Option<(u64, i64)>> = meta.iter().rev().cloned().collect();
    assert!(kho.tra(&rev, &rev_meta, Muc::Nhanh).is_some());
    assert_eq!(khoa(&ds, &meta), khoa(&rev, &rev_meta));
    // Case does not matter either: Windows paths are not case-sensitive.
    let upper: Vec<String> = ds.iter().map(|p| p.to_uppercase()).collect();
    assert_eq!(khoa(&ds, &meta), khoa(&upper, &meta));
}

#[test]
fn a_stopped_run_is_not_kept() {
    let (ds, meta) = group();
    let mut kho = Kho::new();
    let mut stopped = kq(Muc::ToanBo);
    stopped.cancelled = true;
    kho.ghi(&ds, &meta, &stopped);
    assert!(kho.tra(&ds, &meta, Muc::ToanBo).is_none());
    assert!(kho.is_empty());
    assert_eq!(kho.len(), 0);
}
