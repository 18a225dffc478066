use std::sync::Arc;

use mediafinder::media::ffcache::{luu, tra, Kho, HAN_DUNG_MS, SO_MUC, TRAN_BYTE};

#[test]
fn tep_khong_ton_tai_thi_khong_tra_cung_khong_luu() {
    let mut kho = Kho::new();
    let p = r"Z:\khong-he-ton-tai-8c1f.mov";
    assert!(tra(&mut kho, p, None, 0).is_none());
    luu(&mut kho, p, None, Arc::new(vec![1, 2, 3]), 0);
    assert!(tra(&mut kho, p, None, 0).is_none());
    assert_eq!(kho.len(), 0);
}

#[test]
fn luu_roi_tra_lai_duoc() {
    let mut kho = Kho::new();
    let p = r"C:\phim\a.mp4";
    let meta = Some((4096u64, 1_700_000_000i64));
    luu(&mut kho, p, meta, Arc::new(vec![9, 9, 9]), 1_000);
    assert_eq!(tra(&mut kho, p, meta, 1_000).map(|d| d.to_vec()), Some(vec![9u8, 9, 9]));
    // Keeping it again replaces it: one copy, not two.
    luu(&mut kho, p, meta, Arc::new(vec![7]), 2_000);
    assert_eq!(tra(&mut kho, p, meta, 2_000).map(|d| d.to_vec()), Some(vec![7u8]));
    assert_eq!(kho.len(), 1);
}

#[test]
fn muc_cu_nhat_bi_duoi_truoc() {
    let mut kho = Kho::new();
    for i in 0..SO_MUC + 2 {
        let p = format!("t{i}");
        luu(&mut kho, &p, Some((1, 0)), Arc::new(vec![i as u8]), 0);
    }
    assert_eq!(kho.len(), SO_MUC);
    assert!(tra(&mut kho, "t0", Some((1, 0)), 0).is_none(), "mục cũ nhất phải đi trước");
}

#[test]
fn qua_tran_dung_luong_thi_duoi() {
    let mut kho = Kho::new();
    for i in 0..2 {
        let p = format!("lon{i}");
        luu(&mut kho, &p, Some((1, 0)), Arc::new(vec![0; TRAN_BYTE / 2 + 1]), 0);
    }
    assert_eq!(kho.len(), 1, "hai mục cộng lại vượt trần thì chỉ giữ mục mới");
    assert!(tra(&mut kho, "lon1", Some((1, 0)), 0).is_some());
    assert!(tra(&mut kho, "lon0", Some((1, 0)), 0).is_none());
}

#[test]
fn het_han_dung_thi_bo() {
    let mut kho = Kho::new();
    luu(&mut kho, "a", Some((1, 0)), Arc::new(vec![1]), 0);
    assert!(tra(&mut kho, "a", Some((1, 0)), HAN_DUNG_MS - 1).is_some());
    // The lookup above used it again at HAN_DUNG_MS - 1.
    assert!(tra(&mut kho, "a", Some((1, 0)), 2 * HAN_DUNG_MS - 2).is_some());
    assert!(tra(&mut kho, "a", Some((1, 0)), 3 * HAN_DUNG_MS).is_none());
    assert_eq!(kho.len(), 0);
}

#[test]
fn tep_bi_sua_la_tep_khac() {
    let mut kho = Kho::new();
    luu(&mut kho, "a", Some((10, 5)), Arc::new(vec![1]), 0);
    assert!(tra(&mut kho, "a", Some((10, 6)), 0).is_none());
    assert!(tra(&mut kho, "a", Some((11, 5)), 0).is_none());
    assert!(tra(&mut kho, "a", Some((10, 5)), 0).is_some());
}

#[test]
fn muc_vua_dung_len_dau_khong_bi_duoi() {
    let mut kho = Kho::new();
    for i in 0..SO_MUC {
        let p = format!("t{i}");
        luu(&mut kho, &p, Some((1, 0)), Arc::new(vec![i as u8]), 0);
    }
    // t0 is the oldest; using it moves it to the front, so t1 goes next.
    assert_eq!(tra(&mut kho, "t0", Some((1, 0)), 1).map(|d| d.to_vec()), Some(vec![0u8]));
    luu(&mut kho, "moi", Some((1, 0)), Arc::new(vec![99]), 2);
    assert!(tra(&mut kho, "t1", Some((1, 0)), 3).is_none());
    assert!(tra(&mut kho, "t0", Some((1, 0)), 3).is_some());
}

#[test]
fn muc_vua_luu_con_tim_thay_truoc_khi_het_han() {
    let mut kho = Kho::new();
    luu(&mut kho, "cu", Some((1, 0)), Arc::new(vec![5]), 0);
    luu(&mut kho, "moi", Some((2, 0)), Arc::new(vec![6, 6]), 500);
    let sau = 500 + HAN_DUNG_MS - 1;
    assert_eq!(tra(&mut kho, "moi", Some((2, 0)), sau).map(|d| d.to_vec()), Some(vec![6u8, 6]));
    // The older one was last used at 0 and is stale by then.
    assert!(tra(&mut kho, "cu", Some((1, 0)), sau).is_none());
}
