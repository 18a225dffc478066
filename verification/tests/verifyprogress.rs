use mediafinder::media::verifyprogress::{VerifyProgress, VerifyState};


#[test]
fn chua_do_duoc_tong_thi_khong_bao_phan_tram() {
    // Vẽ một thanh 0% khi chưa biết tổng là nói dối theo hướng tệ nhất:
    // trông y hệt một lượt đang treo.
    let p = VerifyProgress {
        total_bytes: 0,
        done_bytes: 0,
        ..Default::default()
    };
    assert_eq!(p.percent(), None);
}

#[test]
fn phan_tram_lam_tron_xuong() {
    let p = VerifyProgress {
        total_bytes: 3,
        done_bytes: 2,
        ..Default::default()
    };
    // 66,6% → 66. Làm tròn LÊN sẽ cho ra 100% khi còn đang đọc dở, và
    // "100% mà vẫn quay" là thứ làm người dùng mất tin vào mọi thanh
    // tiến độ về sau.
    assert_eq!(p.percent(), Some(66));
}

#[test]
fn khong_bao_gio_vuot_qua_100() {
    // Tệp nở ra giữa lượt đọc (đang được ghi tiếp) thì done > total.
    let p = VerifyProgress {
        total_bytes: 100,
        done_bytes: 250,
        ..Default::default()
    };
    assert_eq!(p.percent(), Some(100));
}

#[test]
fn hai_luot_cung_luc_thi_luot_sau_bi_tu_choi() {
    let s = VerifyState::new();
    assert!(s.begin(4), "luot dau phai duoc chay");
    assert!(!s.begin(2), "luot thu hai phai bi tu choi");
    s.finish();
    assert!(s.begin(2), "xong roi thi luot moi phai chay duoc");
}

#[test]
fn begin_xoa_sach_so_lieu_cua_luot_truoc() {
    // Không xoá thì lượt sau bắt đầu ở 100% của lượt trước — thanh tiến độ
    // đầy sẵn rồi tụt về, trông như phần mềm hỏng.
    let s = VerifyState::new();
    s.begin(2);
    s.set_total(1000);
    s.add_done(1000);
    s.finish();

    s.begin(3);
    let p = s.snapshot();
    assert_eq!(p.done_bytes, 0);
    assert_eq!(p.total_bytes, 0);
    assert_eq!(p.file_count, 3);
}

#[test]
fn co_dung_giuong_len_va_doc_duoc() {
    let s = VerifyState::new();
    s.begin(1);
    assert!(!s.cancelled());
    s.cancel();
    assert!(s.cancelled());
    // Lượt mới phải xoá cờ dừng, nếu không nó chết ngay khi vừa sinh ra.
    s.finish();
    s.begin(1);
    assert!(!s.cancelled(), "luot moi van mang co dung cua luot truoc");
}

#[test]
fn snapshot_phan_anh_dung_tien_do() {
    let s = VerifyState::new();
    s.begin(4);
    s.set_total(12_000_000_000);
    s.add_done(3_000_000_000);
    let p = s.snapshot();
    assert!(p.running);
    assert_eq!(p.file_count, 4);
    assert_eq!(p.percent(), Some(25));
}
