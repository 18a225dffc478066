use mediafinder::media::ffstream::{co_the_can_chuyen_ma, nen_chuyen_ma};

#[test]
fn chi_hoi_ve_nhung_duoi_co_the_chua_codec_la() {
    // .mp4 và .webm chiếm gần như toàn bộ thư viện và luôn phát thẳng
    // được — hỏi ffprobe cho chúng là cái giá vô ích mỗi lần mở.
    assert!(!co_the_can_chuyen_ma("a.mp4"));
    assert!(!co_the_can_chuyen_ma("a.webm"));
    assert!(co_the_can_chuyen_ma("a.mov"));
    assert!(co_the_can_chuyen_ma("a.MOV"));
    assert!(co_the_can_chuyen_ma("a.mkv"));
    assert!(co_the_can_chuyen_ma("a.avi"));
}


#[test]
fn anh_va_nhac_khong_bao_gio_di_duong_chuyen_ma() {
    for name in ["a.jpg", "a.png", "a.mp3", "a.flac", "khong-duoi"] {
        assert!(!co_the_can_chuyen_ma(name), "{name}");
    }
}


#[test]
fn chi_chuyen_ma_khi_codec_khong_phat_thang_duoc() {
    assert!(!nen_chuyen_ma("a.mp4", false, Some("hevc")), "mp4 is not asked about");
    assert!(nen_chuyen_ma("a.mp4", true, Some("h264")), "the player already failed on it");
    assert!(!nen_chuyen_ma("a.mkv", false, Some("h264")));
    assert!(nen_chuyen_ma("a.mkv", false, Some("hevc")));
    assert!(!nen_chuyen_ma("a.mkv", false, None), "ffprobe could not read it");
    assert!(!nen_chuyen_ma("a.MKV", false, Some("vp9")));
}
