use mediafinder::media::thumbnail::{
    encode_png, miss_state, ThumbCache, remember_miss, rgba_from_bgra, MissState, ThumbError, MISS_TTL_MS, QUEUE_DEPTH, WORKERS,
};

#[test]
fn error_messages_are_written_for_the_user() {
    assert!(ThumbError::Unavailable.message().contains("thumbnail"));
}

#[test]
fn every_error_says_what_went_wrong() {
    assert_eq!(ThumbError::Busy.message(), "hàng đợi thumbnail đang đầy");
    assert_eq!(
        ThumbError::Shell("lỗi".to_string()).message(),
        "Windows từ chối dựng thumbnail: lỗi"
    );
    assert_eq!(ThumbError::Encode("x".to_string()).message(), "không mã hoá được ảnh PNG: x");
    assert_eq!(ThumbError::Pixels.message(), "không đọc được điểm ảnh của thumbnail");
}

#[test]
fn the_queue_holds_more_than_a_screenful() {
    assert!(QUEUE_DEPTH > WORKERS * 4);
}

#[test]
fn only_a_real_miss_is_remembered() {
    assert!(remember_miss(&ThumbError::Unavailable));
    assert!(!remember_miss(&ThumbError::Busy));
    assert!(!remember_miss(&ThumbError::Shell("gone".to_string())));
}

#[test]
fn a_remembered_miss_expires() {
    assert_eq!(miss_state(None, 5), MissState::Unknown);
    assert_eq!(miss_state(Some(1000), 1000 + MISS_TTL_MS - 1), MissState::Remembered);
    assert_eq!(miss_state(Some(1000), 1000 + MISS_TTL_MS), MissState::Stale);
}

#[test]
fn bgra_becomes_rgba() {
    let mut px = vec![1, 2, 3, 4, 5, 6, 7, 0];
    rgba_from_bgra(&mut px);
    assert_eq!(px, vec![3, 2, 1, 4, 7, 6, 5, 0]);
}

#[test]
fn a_fully_transparent_thumbnail_is_made_opaque() {
    let mut px = vec![10, 20, 30, 0, 40, 50, 60, 0];
    rgba_from_bgra(&mut px);
    assert_eq!(px, vec![30, 20, 10, 255, 60, 50, 40, 255]);
}

#[test]
fn anh_rgba_duoc_ma_hoa_thanh_png() {
    let rgba = vec![255u8, 0, 0, 255, 0, 255, 0, 255, 0, 0, 255, 255, 255, 255, 255, 0];
    let png = encode_png(2, 2, &rgba).expect("a 2x2 image encodes");
    assert_eq!(&png[..8], &[0x89, b'P', b'N', b'G', 0x0d, 0x0a, 0x1a, 0x0a]);
    assert_ne!(png, rgba);
    let back = image::load_from_memory_with_format(&png, image::ImageFormat::Png).expect("decodes").to_rgba8();
    assert_eq!(back.into_raw(), rgba);
}

#[test]
fn so_byte_khong_khop_kich_thuoc_la_loi_pixel() {
    assert!(matches!(encode_png(2, 2, &[0u8; 15]), Err(ThumbError::Pixels)));
}

#[test]
fn chi_anh_dung_duoc_moi_vao_bo_nho_dem() {
    let mut c = ThumbCache::new();
    assert!(c.cached(7, 64).is_none());
    let png = c.keep(7, 64, Ok(vec![1, 2, 3])).expect("kept");
    assert_eq!(*png, vec![1, 2, 3]);
    assert_eq!(c.cached(7, 64).map(|v| (*v).clone()), Some(vec![1, 2, 3]));
    assert!(c.keep(8, 64, Err(ThumbError::Unavailable)).is_err());
    assert!(c.cached(8, 64).is_none());
    assert!(c.cached(7, 128).is_none());
}
