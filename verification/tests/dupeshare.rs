use std::collections::BTreeMap;
use std::path::PathBuf;

use mediafinder::media::dupeshare::{duoc_ghi, duong_unc, loc_share_duoc_ghi, may_chu, ten_tep_cho, thu_muc_cua, CAM_GHI};


/// Máy trạm của người khác KHÔNG được ghi vào.
///
/// `\\192.168.1.214` chia sẻ ổ `F:` và `H:` nhưng là máy trạm studio, không
/// phải NAS. Đây là ràng buộc người dùng nêu ra, và nó không suy ra được
/// từ mã — nên phải có bài canh.
#[test]
fn khong_ghi_len_may_tram_214() {
    assert!(
        !duoc_ghi(r"\\192.168.1.214"),
        "F: và H: là máy trạm, không phải NAS"
    );
    assert!(!duoc_ghi(r"\\192.168.1.214".to_ascii_uppercase().as_str()));
}

#[test]
fn ghi_duoc_len_nas_213() {
    assert!(duoc_ghi(r"\\192.168.1.213"));
}

/// Danh sách cho phép, không phải danh sách cấm.
///
/// Một thư mục chia sẻ mới xuất hiện trong studio phải KHÔNG được ghi vào
/// cho tới khi có người quyết định. Nếu chỗ này đảo thành danh sách cấm
/// thì mọi máy chủ lạ đều được ghi, và cái sai chỉ lộ ra sau khi đã ghi.
#[test]
fn may_chu_la_thi_khong_duoc_ghi() {
    assert!(!duoc_ghi(r"\\192.168.1.99"));
    assert!(!duoc_ghi(r"\\nas-moi"));
    assert!(!duoc_ghi(""));
}

/// Danh sách cấm phải còn nội dung, và phép kiểm lúc biên dịch phải còn đó.
///
/// Bài kiểm thử lúc chạy KHÔNG canh được việc `.214` bị thêm vào danh sách
/// cho phép — đo bằng cách phá mã cho thấy bỏ sạch `CAM_GHI` mà mọi bài
/// vẫn xanh, vì danh sách cho phép đã tự loại `.214` rồi. Thứ canh thật là
/// `const _: () = assert!(...)` ở đầu tệp: thêm `.214` vào `DUOC_GHI` thì
/// crate không dịch được.
///
/// Bài này canh cho phép kiểm đó không bị xoá, và canh cho `.214` không
/// biến mất khỏi danh sách cấm — mất nó là mất chỗ ghi lại *lý do*.
#[test]
fn may_tram_214_van_nam_trong_danh_sach_cam() {
    assert!(
        CAM_GHI.iter().any(|c| c.contains("192.168.1.214")),
        "máy trạm .214 phải nằm trong danh sách cấm — đó là ràng buộc người dùng nêu"
    );
}

fn ban_do() -> BTreeMap<char, String> {
    [
        ('F', r"\\192.168.1.214\f".to_string()),
        ('Y', r"\\192.168.1.213\padoma 8".to_string()),
    ]
    .into_iter()
    .collect()
}

/// Khoá phải là UNC, để máy khác tra được.
#[test]
fn duong_may_thanh_duong_unc() {
    let m = ban_do();
    assert_eq!(
        duong_unc(r"Y:\a\b.mp4", &m).as_deref(),
        Some(r"\\192.168.1.213\padoma 8\a\b.mp4")
    );
}

/// Chữ ổ khác nhau giữa hai máy vẫn phải cho cùng một khoá.
///
/// Đây là toàn bộ lý do khoá theo UNC: `\\192.168.1.213\padoma 8` là `Y:`
/// trên máy này và có thể là `W:` trên máy khác. Khoá theo chữ ổ thì máy
/// kia không tra được gì, và tính năng này thành vô dụng một cách im lặng.
#[test]
fn chu_o_khac_nhau_van_ra_cung_mot_khoa() {
    let may_a: BTreeMap<char, String> = [('Y', r"\\192.168.1.213\padoma 8".to_string())]
        .into_iter()
        .collect();
    let may_b: BTreeMap<char, String> = [('W', r"\\192.168.1.213\padoma 8".to_string())]
        .into_iter()
        .collect();
    assert_eq!(
        duong_unc(r"Y:\phim\a.mp4", &may_a),
        duong_unc(r"W:\phim\a.mp4", &may_b)
    );
}

#[test]
fn chu_hoa_thuong_khong_lam_lech_khoa() {
    let m = ban_do();
    assert_eq!(duong_unc(r"y:\A\B.MP4", &m), duong_unc(r"Y:\a\b.mp4", &m));
}

/// Đĩa trong máy KHÔNG chia sẻ được.
///
/// `D:\du-an\a.mp4` của máy này là một tệp khác trên máy khác. Chia sẻ nó
/// là báo trùng lặp giữa hai tệp không liên quan gì nhau.
#[test]
fn dia_trong_may_khong_co_khoa_chia_se() {
    let m = ban_do();
    assert_eq!(duong_unc(r"D:\du-an\a.mp4", &m), None);
    assert_eq!(duong_unc(r"C:\x.mp4", &m), None);
}

#[test]
fn duong_hong_khong_lam_no() {
    let m = ban_do();
    assert_eq!(duong_unc("", &m), None);
    assert_eq!(duong_unc("Y", &m), None);
    assert_eq!(duong_unc(r"\\may\share\a.mp4", &m), None);
}


#[test]
fn may_chu_tach_dung_tu_unc() {
    assert_eq!(
        may_chu(r"\\192.168.1.213\padoma 8").as_deref(),
        Some(r"\\192.168.1.213")
    );
    assert_eq!(may_chu(""), None);
    assert_eq!(may_chu(r"\\"), None);
}

#[test]
fn thu_muc_nam_tren_chinh_share() {
    let d = thu_muc_cua(r"\\192.168.1.213\padoma 8");
    assert_eq!(PathBuf::from(d), PathBuf::from(r"\\192.168.1.213\padoma 8\.mediafinder"));
}


/// Bộ lọc phải loại share của máy `.214`, KHÔNG chạm hệ thống tệp.
///
/// Đây là ràng buộc người dùng nêu thành lời: không tạo thư mục ẩn và
/// không đặt tệp tên máy trên `\192.168.1.214` (ổ `F:` và `H:`), chỉ làm
/// trên NAS `\192.168.1.213`.
///
/// Kiểm ở đây chứ không kiểm qua `ghi_len_share` trả về 0: con số 0 cũng
/// đến từ share chỉ đọc, nên bài thử kiểu đó sẽ xanh cả khi thư mục đã bị
/// tạo ra trên máy trạm rồi.
#[test]
fn bo_loc_giu_nas_213_va_loai_may_tram_214() {
    let vao = vec![
        "\\192.168.1.214\u{c}".to_string(),
        r"\192.168.1.214\h".to_string(),
        r"\192.168.1.213\padoma 8".to_string(),
        r"\192.168.1.213\padoma 1".to_string(),
    ];
    let ra = loc_share_duoc_ghi(&vao);
    assert_eq!(
        ra,
        vec![
            r"\192.168.1.213\padoma 8".to_string(),
            r"\192.168.1.213\padoma 1".to_string()
        ],
        "chỉ NAS .213 được giữ lại; F: và H: trên .214 phải bị loại"
    );
    assert!(
        !ra.iter().any(|s| s.contains("192.168.1.214")),
        "không đường dẫn nào của máy trạm được lọt qua"
    );
}



#[test]
fn ten_tep_chi_giu_chu_so_va_gach() {
    assert_eq!(ten_tep_cho("STUDIO-07"), "studio-07.bin");
    assert_eq!(ten_tep_cho(r"..\x/y"), "xy.bin");
    assert_eq!(ten_tep_cho(""), "may-khong-ten.bin");
    let t = ten_tep_cho(r"a\..\b");
    assert!(!t.contains('\\') && !t.contains('/') && !t.contains(".."));
}

#[test]
fn may_chu_bo_moi_gach_dau() {
    assert_eq!(may_chu(r"\192.168.1.214\h").as_deref(), Some(r"\\192.168.1.214"));
    assert_eq!(may_chu(r"\\NAS\Share").as_deref(), Some(r"\\nas"));
}
