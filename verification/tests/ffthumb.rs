use mediafinder::media::ffthumb::{ket_qua, tham_so_khung, HAN_GIAY, MOC_GIAY};

#[test]
fn tra_none_khi_khong_co_gi_de_doc() {
    // A file that is not there: ffmpeg fails or writes nothing, and the
    // answer is None, never an empty PNG.
    assert_eq!(ket_qua(Some(false), Vec::new()), None);
    assert_eq!(ket_qua(Some(true), Vec::new()), None);
    assert_eq!(ket_qua(None, vec![1, 2, 3]), None, "given up on");
    assert_eq!(ket_qua(Some(true), vec![1, 2, 3]), Some(vec![1, 2, 3]));
}

#[test]
fn the_frame_is_asked_for_at_the_right_size() {
    let a = tham_so_khung(r"Z:\clip.mov", 192);
    assert_eq!(
        a,
        vec![
            "-v", "error", "-ss", "3", "-i", r"Z:\clip.mov", "-frames:v", "1", "-an", "-sn", "-vf",
            "scale=192:-2:force_original_aspect_ratio=decrease,format=rgb24|rgba", "-f", "image2",
            "-c:v", "png", "pipe:1",
        ]
    );
    assert!(MOC_GIAY < HAN_GIAY);
}
