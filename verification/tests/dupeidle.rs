use mediafinder::media::dupeidle::{
    du_dieu_kien, pham_vi_nen, GiamSat, LichNen, ViecNen, NHIP_SECS, YEN_LANG_SECS,
};
use mediafinder::media::dupescope::DupeScope;


const YEN: u64 = 600;

#[test]
fn du_dieu_kien_khi_moi_thu_deu_san_sang() {
    assert!(du_dieu_kien(true, false, true, false, YEN));
}

#[test]
fn tat_thi_khong_bao_gio_quet() {
    // Người chưa từng dùng màn Trùng lặp không phải trả giá đọc đĩa cho nó.
    assert!(!du_dieu_kien(false, false, true, false, YEN));
}

#[test]
fn quet_dung_mot_lan_moi_phien() {
    // Chỉ mục ổ trong máy cập nhật mỗi ngày một lần, nên quét lại trong
    // cùng phiên là đọc lại cùng những tệp đó để ra cùng câu trả lời.
    assert!(!du_dieu_kien(true, true, true, false, YEN));
}

#[test]
fn cho_enrichment_xong_da() {
    // Enrichment là đợt đọc đĩa nặng nhất lúc khởi động; chen vào giữa là
    // hai việc cùng tranh đĩa và cả hai cùng chậm.
    assert!(!du_dieu_kien(true, false, false, false, YEN));
}

#[test]
fn khong_chen_vao_luot_quet_dang_chay() {
    assert!(!du_dieu_kien(true, false, true, true, YEN));
}

#[test]
fn may_chua_yen_du_lau_thi_cho() {
    // Người vừa tìm xong rồi quay sang việc khác vẫn đang dùng máy; bắt
    // đầu đọc đĩa ngay dưới tay họ là đúng thứ tính năng này phải tránh.
    assert!(!du_dieu_kien(true, false, true, false, 0));
    assert!(!du_dieu_kien(true, false, true, false, YEN - 1));
    assert!(du_dieu_kien(true, false, true, false, YEN));
}

#[test]
fn nguong_yen_lang_hop_ly_so_voi_nhip_kiem_tra() {
    // Nhịp phải ngắn hơn hẳn ngưỡng, nếu không thì thời điểm bắt đầu trễ
    // tới cả một nhịp so với lúc máy thật sự rảnh.
    assert!(NHIP_SECS < YEN_LANG_SECS);
    assert!(
        YEN_LANG_SECS >= 5 * 60,
        "quá ngắn thì chen vào giữa việc của người dùng"
    );
}

#[test]
fn quet_nen_khong_bao_gio_dung_pham_vi_ca_o_mang() {
    assert_eq!(pham_vi_nen(), DupeScope::LocalOnly, "quét nền phải dùng phạm vi chỉ ổ trong máy");
    assert_ne!(pham_vi_nen(), DupeScope::Everything);
}

#[test]
fn bat_tat_doi_duoc_va_doc_lai_dung() {
    let mut lich = LichNen::new(0);
    let truoc = lich.dang_bat();
    lich.dat_bat(false);
    assert!(!lich.dang_bat());
    assert!(!du_dieu_kien(lich.dang_bat(), false, true, false, YEN));
    lich.dat_bat(true);
    assert!(lich.dang_bat());
    lich.dat_bat(truoc);
}

#[test]
fn a_quiet_machine_starts_the_scan_once() {
    let mut lich = LichNen::new(1000);
    assert_eq!(lich.nhip(0, 1000 + YEN - 1, true, false), ViecNen::Cho);
    assert_eq!(lich.nhip(0, 1000 + YEN, true, false), ViecNen::BatDauQuet);
    assert_eq!(lich.theo_doi(0, 1000 + YEN + 2, true), GiamSat::TiepTuc);
    assert_eq!(lich.theo_doi(0, 1000 + YEN + 4, false), GiamSat::Xong);
    assert!(lich.da_xong());
    assert_eq!(lich.nhip(0, 5000, true, false), ViecNen::Dung);
}

#[test]
fn a_query_restarts_the_quiet_clock_and_yields_the_scan() {
    let mut lich = LichNen::new(0);
    // The user searched at 500: quiet only from then.
    assert_eq!(lich.nhip(1, 500, true, false), ViecNen::Cho);
    assert_eq!(lich.nhip(1, 500 + YEN - 1, true, false), ViecNen::Cho);
    assert_eq!(lich.nhip(1, 500 + YEN, true, false), ViecNen::BatDauQuet);
    // Typing during the scan makes it yield.
    assert_eq!(lich.theo_doi(2, 500 + YEN + 2, true), GiamSat::Nhuong);
    assert!(lich.da_xong());
}
