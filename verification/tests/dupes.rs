use mediafinder::media::dupes::{chia_dot, nen_tia, quet_bat_dau, quet_ket_qua, quet_sau_dot};
use mediafinder::media::dupescope::DupeScope;
use mediafinder::media::dupes::{
    fingerprint_of, nhom_tu, reads_whole, size_classes, DupeProgress, Sampled, SAMPLE_BYTES,
    SMALL_FILE_LIMIT,
};

#[test]
fn classes_come_biggest_potential_first() {
    let k = 1024u64;
    let sizes = vec![100 * k, 100 * k, 50 * k, 50 * k, 200 * k, 900 * k, 900 * k, 900 * k, 10];
    let ok = vec![true; sizes.len()];
    let classes = size_classes(&sizes, &ok);
    assert_eq!(classes, vec![(900 * k, vec![5, 6, 7]), (100 * k, vec![0, 1])]);
}

#[test]
fn files_outside_the_scope_are_not_counted() {
    let k = 1024u64;
    let sizes = vec![100 * k, 100 * k, 100 * k, 300 * k, 300 * k];
    let ok = vec![true, false, true, true, false];
    let classes = size_classes(&sizes, &ok);
    assert_eq!(classes, vec![(100 * k, vec![0, 2])]);
}

#[test]
fn equal_potential_puts_the_bigger_size_first() {
    let k = 1024u64;
    // 128 KiB × 3 and 256 KiB × 2 both could reclaim 256 KiB.
    let sizes = vec![128 * k, 256 * k, 128 * k, 256 * k, 128 * k];
    let ok = vec![true; 5];
    let classes = size_classes(&sizes, &ok);
    assert_eq!(classes, vec![(256 * k, vec![1, 3]), (128 * k, vec![0, 2, 4])]);
}

#[test]
fn the_size_floor_keeps_tiny_files_out() {
    let sizes = vec![1000, 1000, 1000];
    let ok = vec![true; 3];
    assert!(size_classes(&sizes, &ok).is_empty());
}

#[test]
fn small_files_are_read_whole() {
    assert!(reads_whole(SMALL_FILE_LIMIT));
    assert!(!reads_whole(SMALL_FILE_LIMIT + 1));
    assert_eq!(SMALL_FILE_LIMIT, 2 * SAMPLE_BYTES);
}

#[test]
fn the_fingerprint_mixes_in_the_size() {
    let head = vec![3u8; 64];
    assert_eq!(fingerprint_of(200_000, &head, &head), fingerprint_of(200_000, &head, &head));
    assert_ne!(fingerprint_of(200_000, &head, &head), fingerprint_of(199_999, &head, &head));
    assert_ne!(fingerprint_of(11, b"hello world", &[]), fingerprint_of(11, b"HELLO WORLD", &[]));
    // The size goes first, as eight little-endian bytes.
    let mut msg = 11u64.to_le_bytes().to_vec();
    msg.extend_from_slice(b"hello world");
    assert_eq!(fingerprint_of(11, b"hello world", &[]), *blake3::hash(&msg).as_bytes());
}

#[test]
fn groups_split_by_fingerprint_and_sort_by_waste() {
    let a = [1u8; 32];
    let b = [2u8; 32];
    let classes = vec![
        Sampled { size: 900_000, found: vec![(5, a), (6, b), (7, a)] },
        Sampled { size: 100_000, found: vec![(0, a), (1, a), (2, a)] },
        Sampled { size: 500_000, found: vec![(3, a), (4, b)] },
    ];
    let groups = nhom_tu(&classes);
    assert_eq!(groups.len(), 2);
    assert_eq!(groups[0].size, 900_000);
    assert_eq!(groups[0].entries, vec![5, 7]);
    assert_eq!(groups[0].wasted, 900_000);
    assert_eq!(groups[1].size, 100_000);
    assert_eq!(groups[1].entries, vec![0, 1, 2]);
    assert_eq!(groups[1].wasted, 200_000);
}

#[test]
fn equal_waste_orders_by_first_entry() {
    let a = [9u8; 32];
    let classes = vec![
        Sampled { size: 200_000, found: vec![(8, a), (9, a)] },
        Sampled { size: 100_000, found: vec![(1, a), (2, a), (3, a)] },
    ];
    let groups = nhom_tu(&classes);
    assert_eq!(groups.iter().map(|g| g.entries[0]).collect::<Vec<_>>(), vec![1, 8]);
}

#[test]
fn a_fresh_progress_says_nothing_ran() {
    let p = DupeProgress::default();
    assert!(!p.running && !p.completed && !p.stopping);
    assert_eq!(p.eta_seconds, None);
    assert_eq!(p.started_unix, 0);
}

#[test]
fn dot_dong_khi_du_400_tep_va_lop_khong_bi_cat() {
    assert_eq!(chia_dot(&[300, 150, 10, 500, 2]), vec![2, 4, 5]);
    assert_eq!(chia_dot(&[400]), vec![1]);
    assert_eq!(chia_dot(&[399, 1]), vec![2]);
    assert_eq!(chia_dot(&[]), Vec::<usize>::new());
    assert_eq!(chia_dot(&[2, 2]), vec![2]);
}

#[test]
fn chi_tia_kho_sau_luot_tron_ven_ca_pham_vi() {
    assert!(nen_tia(false, DupeScope::Everything));
    assert!(!nen_tia(true, DupeScope::Everything));
    assert!(!nen_tia(false, DupeScope::LocalOnly));
}

fn lop_mau() -> Vec<(u64, Vec<u32>)> {
    vec![(200_000, vec![0, 2]), (100_000, vec![1, 3, 4])]
}

#[test]
fn quet_dung_giua_chung_khong_tra_ve_nua_chung() {
    let lop = lop_mau();
    let st = quet_bat_dau(&lop);
    assert_eq!(st.candidates, 5);
    assert_eq!(st.hashed, 0);
    let dot = vec![Sampled { size: 200_000, found: vec![(0, [7u8; 32]), (2, [7u8; 32])] }];
    let st = quet_sau_dot(st, dot, 2, true);
    assert_eq!(st.hashed, 2);
    assert_eq!(st.published.len(), 1, "dot da chay van duoc cong bo");
    assert_eq!(st.published[0].entries, vec![0, 2]);
    assert!(st.stopped);
    assert!(quet_ket_qua(st).is_empty());
}

#[test]
fn quet_tron_ven_tra_ve_moi_nhom_theo_gia_tri() {
    let lop = lop_mau();
    let st = quet_bat_dau(&lop);
    let st = quet_sau_dot(st, vec![Sampled { size: 200_000, found: vec![(0, [7u8; 32]), (2, [7u8; 32])] }], 2, false);
    let st = quet_sau_dot(
        st,
        vec![Sampled { size: 100_000, found: vec![(1, [1u8; 32]), (3, [1u8; 32]), (4, [1u8; 32])] }],
        3,
        false,
    );
    assert_eq!(st.hashed, st.candidates);
    let groups = quet_ket_qua(st);
    assert_eq!(groups.len(), 2);
    assert_eq!(groups[0].entries, vec![0, 2]);
    assert_eq!(groups[0].wasted, 200_000);
    assert_eq!(groups[1].entries, vec![1, 3, 4]);
    assert_eq!(groups[1].wasted, 200_000);
}
