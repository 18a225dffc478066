use mediafinder::index::model::Index;
use mediafinder::media::dupescope::{estimate, in_scope, DupeScope, ScopeEstimate};

use mediafinder::index::model::{IndexBuilder, MediaKind};

/// Dựng một chỉ mục nhỏ: `(thư mục, tên, dung lượng)`.
fn idx(files: &[(&str, &str, u64)]) -> Index {
    let mut b = IndexBuilder::new();
    let mut sizes = Vec::new();
    let mut dirs = std::collections::HashMap::new();
    for (dir, name, size) in files {
        let did = *dirs.entry(*dir).or_insert_with(|| b.add_dir(dir, 1));
        b.add_file(name, MediaKind::Video, did, 0);
        sizes.push(*size);
    }
    let mut index = b.finish();
    let n = sizes.len();
    index.set_file_stats(sizes, vec![0i64; n]);
    index
}

const LON: u64 = 5_000_000;

#[test]
fn dem_dung_va_tach_dung_o_mang_khoi_o_trong_may() {
    let index = idx(&[
        ("D:\\m", "a.mp4", LON),
        ("D:\\m", "b.mp4", LON),
        ("Y:\\p", "c.mp4", LON),
        ("Y:\\p", "d.mp4", LON),
    ]);
    let e = estimate(&index, &['Y']);
    assert_eq!(e.local_files, 2);
    assert_eq!(e.network_files, 2);
    assert_eq!(e.network_drives, ["Y:"]);
    assert!(e.has_network());
}

#[test]
fn o_mang_anh_xa_khong_co_danh_sach_thi_bi_dem_nham_la_o_trong_may() {
    // `Y:\…` trong chỉ mục trông y hệt một đĩa cắm trong máy. Thiếu danh
    // sách ổ mạng thì câu hỏi "có quét NAS không?" không bao giờ hiện ra,
    // và người dùng lặng lẽ quét cả NAS mà không biết.
    let index = idx(&[("Y:\\p", "c.mp4", LON), ("Y:\\p", "d.mp4", LON)]);
    let e = estimate(&index, &[]);
    assert_eq!(e.network_files, 0, "thiếu danh sách thì Y: thành ổ nội bộ");
    assert_eq!(e.local_files, 2);
    assert!(
        !e.has_network(),
        "và câu hỏi sẽ không hiện — đúng lỗi cần tránh"
    );
}

#[test]
fn chi_dem_tep_thuc_su_phai_mo() {
    // Dung lượng chỉ có một tệp thì tầng 1 loại ngay, không đọc đĩa. Đếm
    // nó vào là hứa một con số lớn hơn việc thật.
    let index = idx(&[
        ("D:\\m", "a.mp4", LON),
        ("D:\\m", "b.mp4", LON),
        ("D:\\m", "rieng.mp4", LON + 1),
    ]);
    assert_eq!(estimate(&index, &[]).local_files, 2);
}

#[test]
fn tep_duoi_nguong_khong_duoc_dem() {
    let index = idx(&[("D:\\m", "a.mp4", 1000), ("D:\\m", "b.mp4", 1000)]);
    assert_eq!(estimate(&index, &[]).local_files, 0);
}

#[test]
fn files_for_cong_dung_theo_pham_vi() {
    let e = ScopeEstimate {
        local_files: 10,
        network_files: 200,
        network_drives: vec!["Y:".into()],
    };
    assert_eq!(e.files_for(DupeScope::LocalOnly), 10);
    assert_eq!(e.files_for(DupeScope::Everything), 210);
}

#[test]
fn khong_co_o_mang_thi_khong_hoi() {
    let index = idx(&[("D:\\m", "a.mp4", LON), ("D:\\m", "b.mp4", LON)]);
    assert!(!estimate(&index, &['Y']).has_network());
}

#[test]
fn loc_theo_pham_vi_bo_dung_tep_o_mang() {
    let index = idx(&[("D:\\m", "a.mp4", LON), ("Y:\\p", "c.mp4", LON)]);
    assert!(in_scope(&index, 0, DupeScope::LocalOnly, &['Y']));
    assert!(!in_scope(&index, 1, DupeScope::LocalOnly, &['Y']));
    // Phạm vi đầy đủ thì không loại gì.
    assert!(in_scope(&index, 1, DupeScope::Everything, &['Y']));
}

#[test]
fn mac_dinh_la_chi_o_trong_may() {
    // Mặc định an toàn: không tự đọc NAS khi chưa ai đồng ý.
    assert_eq!(DupeScope::default(), DupeScope::LocalOnly);
}
