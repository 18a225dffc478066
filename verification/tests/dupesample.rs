use mediafinder::index::model::MediaKind;
use mediafinder::media::dupesample::{chon, Cach, SMALL_FILE_LIMIT};


const LON: u64 = 100 * 1024 * 1024;

#[test]
fn tep_nho_doc_tron_bat_ke_loai() {
    for k in [MediaKind::Video, MediaKind::Image, MediaKind::Audio] {
        assert_eq!(chon(SMALL_FILE_LIMIT, k), Cach::TronTep);
        assert_eq!(chon(70_000, k), Cach::TronTep);
    }
}

/// Đây là toàn bộ phần tăng tốc: video lớn chỉ đọc một đầu.
///
/// Đo được 2,08× khi bỏ lần nhảy tới cuối tệp. Nếu ai đó đổi dòng này về
/// `HaiDau` thì lượt quét NAS chậm lại gấp đôi, và không có bài kiểm thử
/// hành vi nào bắt được vì kết quả vẫn đúng — chỉ chậm hơn.
#[test]
fn video_lon_chi_doc_dau() {
    assert_eq!(chon(LON, MediaKind::Video), Cach::ChiDau);
    assert_eq!(chon(LON, MediaKind::Image), Cach::ChiDau);
}

/// Và đây là toàn bộ phần giữ đúng.
///
/// Mọi nhóm gộp nhầm quan sát được trên thư viện thật đều là audio. Đổi
/// dòng này về `ChiDau` thì nhanh thêm 0,15× và sai gấp ba.
#[test]
fn audio_lon_van_doc_hai_dau() {
    assert_eq!(chon(LON, MediaKind::Audio), Cach::HaiDau);
}

/// Ngưỡng phải là ranh giới sắc, không phải vùng mờ.
#[test]
fn ngay_tren_nguong_thi_doi_cach() {
    assert_eq!(chon(SMALL_FILE_LIMIT, MediaKind::Video), Cach::TronTep);
    assert_eq!(chon(SMALL_FILE_LIMIT + 1, MediaKind::Video), Cach::ChiDau);
    assert_eq!(chon(SMALL_FILE_LIMIT + 1, MediaKind::Audio), Cach::HaiDau);
}
