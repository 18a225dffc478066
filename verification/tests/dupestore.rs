use mediafinder::media::dupestore::{path_key, Store};


const FP: [u8; 32] = [7u8; 32];

#[test]
fn tep_khong_doi_thi_khong_phai_mo_lai() {
    let mut s = Store::default();
    s.put(r"D:\a.mp4", 100, 500, FP);
    assert_eq!(s.get(r"D:\a.mp4", 100, 500), Some(FP));
}

#[test]
fn doi_dung_luong_hoac_thoi_gian_thi_phai_doc_lai() {
    // Vân tay cũ nói về một tệp khác — tin nó là báo trùng sai.
    let mut s = Store::default();
    s.put(r"D:\a.mp4", 100, 500, FP);
    assert_eq!(s.get(r"D:\a.mp4", 101, 500), None, "đổi dung lượng");
    assert_eq!(s.get(r"D:\a.mp4", 100, 501), None, "đổi thời gian sửa");
}

#[test]
fn chua_tung_thay_thi_phai_doc() {
    let s = Store::default();
    assert_eq!(s.get(r"D:\moi.mp4", 100, 500), None);
}

#[test]
fn hoa_thuong_la_cung_mot_tep_nhu_windows_hieu() {
    let mut s = Store::default();
    s.put(r"D:\Phim\A.mp4", 100, 500, FP);
    assert_eq!(s.get(r"d:\phim\a.MP4", 100, 500), Some(FP));
}

#[test]
fn duong_dan_khac_nhau_thi_khoa_khac_nhau() {
    assert_ne!(path_key(r"D:\a.mp4"), path_key(r"D:\b.mp4"));
    assert_ne!(path_key(r"D:\a.mp4"), path_key(r"Y:\a.mp4"));
}

/// Khoá phải ổn định vĩnh viễn, không phụ thuộc bản Rust.
///
/// `enrich::path_key` dùng `DefaultHasher`, mà `std` **không cam kết** nó
/// cho cùng kết quả giữa các bản — một lần nâng trình biên dịch có thể làm
/// mọi khoá lệch đi và cả kho thành vô dụng, im lặng.
///
/// Giá trị dưới đây tính từ chính thuật toán FNV-1a viết trong tệp này.
/// Nếu bài này đỏ thì hàm băm đã đổi, và mọi kho đã lưu trở nên vô nghĩa —
/// lúc đó phải tăng `SCHEMA_VERSION` để chúng bị loại thay vì đọc nhầm.
#[test]
fn khoa_on_dinh_vinh_vien() {
    // Tính tay theo FNV-1a 64-bit trên chuỗi đã chuyển chữ thường.
    fn fnv(s: &str) -> u64 {
        let mut h: u64 = 0xcbf2_9ce4_8422_2325;
        for b in s.as_bytes() {
            h ^= *b as u64;
            h = h.wrapping_mul(0x1000_0000_01b3);
        }
        h
    }
    assert_eq!(path_key(r"D:\a.mp4"), fnv(r"d:\a.mp4"));
    assert_eq!(path_key("Y:\\PROJECT\\B.MOV"), fnv("y:\\project\\b.mov"));
}

#[test]
fn tia_khoa_khong_con_dung_de_kho_khong_phinh_mai() {
    // `enrich::Store` không bao giờ tỉa, và đó là lý do `metadata.bin` lớn
    // dần theo tệp đã xoá. Không lặp lại ở đây.
    let mut s = Store::default();
    s.put(r"D:\a.mp4", 1, 1, FP);
    s.put(r"D:\b.mp4", 1, 1, FP);
    s.put(r"D:\da-xoa.mp4", 1, 1, FP);

    let con: std::collections::HashSet<u64> = [path_key(r"D:\a.mp4"), path_key(r"D:\b.mp4")]
        .into_iter()
        .collect();
    assert_eq!(s.retain_keys(&con), 1, "phải tỉa đúng một khoá");
    assert_eq!(s.len(), 2);
    assert!(s.get(r"D:\da-xoa.mp4", 1, 1).is_none());
}



#[test]
fn ghi_de_muc_cu_khi_tep_doi() {
    let mut s = Store::default();
    s.put(r"D:\a.mp4", 100, 500, FP);
    s.put(r"D:\a.mp4", 200, 600, [9u8; 32]);
    assert_eq!(s.len(), 1, "cùng đường dẫn thì không sinh mục thứ hai");
    assert_eq!(s.get(r"D:\a.mp4", 200, 600), Some([9u8; 32]));
}
