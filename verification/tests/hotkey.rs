use mediafinder::hotkey::{pick, CANDIDATES};

use std::cell::RefCell;

#[test]
fn lay_to_hop_dau_tien_gianh_duoc() {
    let da_thu = RefCell::new(Vec::new());
    let got = pick(|c| {
        da_thu.borrow_mut().push(c.to_string());
        true
    });
    assert_eq!(got, Some("Ctrl+Alt+Space"));
    // Giành được ngay thì DỪNG — không đăng ký thừa ba tổ hợp nữa, vì mỗi
    // tổ hợp giành được là một tổ hợp lấy khỏi mọi ứng dụng khác.
    assert_eq!(da_thu.borrow().len(), 1);
}

#[test]
fn to_hop_dau_bi_chiem_thi_xuong_cai_ke_tiep() {
    let got = pick(|c| c != "Ctrl+Alt+Space");
    assert_eq!(got, Some("Ctrl+Alt+F"));
}

#[test]
fn thu_het_ca_loat_theo_dung_thu_tu() {
    let da_thu = RefCell::new(Vec::new());
    let got = pick(|c| {
        da_thu.borrow_mut().push(c.to_string());
        false
    });
    assert_eq!(got, None, "không giành được cái nào thì phải trả None");
    assert_eq!(*da_thu.borrow(), CANDIDATES);
}

#[test]
fn chi_con_to_hop_cuoi_van_dung() {
    let got = pick(|c| c == "Ctrl+Alt+M");
    assert_eq!(got, Some("Ctrl+Alt+M"));
}

#[test]
fn danh_sach_khong_co_to_hop_trung_nhau() {
    // Trùng nhau thì lần thử thứ hai chắc chắn thất bại (chính app đang
    // giữ tổ hợp đó), và người dùng mất một phương án dự phòng mà không ai
    // biết.
    let mut v: Vec<&str> = CANDIDATES.to_vec();
    v.sort_unstable();
    let truoc = v.len();
    v.dedup();
    assert_eq!(v.len(), truoc, "danh sách có tổ hợp trùng nhau");
}

#[test]
fn khong_to_hop_nao_dung_mot_minh_ctrl_space_hay_alt_space() {
    // `Alt+Space` là menu hệ thống của Windows; `Ctrl+Space` là chuyển bộ
    // gõ ở nhiều ngôn ngữ, kể cả tiếng Việt. Giành mất một trong hai là
    // lấy đi thứ người dùng cần hằng ngày để đổi lấy một phím tắt tiện.
    for c in CANDIDATES.iter() {
        assert_ne!(*c, "Alt+Space");
        assert_ne!(*c, "Ctrl+Space");
    }
}
