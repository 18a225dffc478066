use mediafinder::ipc::media_stream::{mime_for, parse_range, MAX_CHUNK};


#[test]
fn a_plain_range_is_read_as_written() {
    assert_eq!(parse_range("bytes=0-99", 1000), Some((0, 99)));
    assert_eq!(parse_range("bytes=500-999", 1000), Some((500, 999)));
}

#[test]
fn an_open_ended_range_runs_to_the_end_of_the_file() {
    assert_eq!(parse_range("bytes=900-", 1000), Some((900, 999)));
}

#[test]
fn a_suffix_range_reads_the_tail() {
    // How a player finds the moov atom of an MP4 that was not written for
    // streaming: the index sits at the end of the file.
    assert_eq!(parse_range("bytes=-100", 1000), Some((900, 999)));
    assert_eq!(parse_range("bytes=-5000", 1000), Some((0, 999)));
}

#[test]
fn a_range_past_the_end_is_clamped_not_trusted() {
    assert_eq!(parse_range("bytes=0-99999", 1000), Some((0, 999)));
}

#[test]
fn a_huge_request_is_capped_so_one_response_cannot_hold_a_whole_film() {
    let len = 4 * 1024 * 1024 * 1024;
    let (start, end) = parse_range("bytes=0-", len).expect("valid range");
    assert_eq!(start, 0);
    assert_eq!(end - start + 1, MAX_CHUNK);
}

#[test]
fn nonsense_is_declined_rather_than_guessed_at() {
    assert_eq!(parse_range("bytes=500-100", 1000), None);
    assert_eq!(parse_range("bytes=2000-3000", 1000), None);
    assert_eq!(parse_range("items=0-10", 1000), None);
    assert_eq!(parse_range("bytes=abc", 1000), None);
    assert_eq!(parse_range("bytes=-0", 1000), None);
    // Multipart: declining is safer than answering only the first part.
    assert_eq!(parse_range("bytes=0-99,200-299", 1000), None);
}

#[test]
fn every_video_container_is_claimed_as_video() {
    // Bài kiểm thử cũ khoá đúng con bọ này lại: nó khẳng định .mkv và .avi
    // PHẢI là `application/octet-stream`, tin rằng Chromium sẽ tự sniff.
    // Nó **không** sniff — với một thẻ video trỏ vào scheme tuỳ biến thì
    // `octet-stream` bị từ chối thẳng, nên mọi .mkv đều báo "không xem
    // trước được" kể cả khi bên trong là H.264.
    //
    // Không kiểm chuỗi MIME cụ thể của từng đuôi: đó là chi tiết có thể
    // đổi. Kiểm cái bất biến thật — một tệp video không bao giờ được rời
    // khỏi đây dưới dạng `octet-stream`, vì đó là hình thức duy nhất bảo
    // đảm nó KHÔNG được thử.
    for name in [
        "a.mp4", "a.mkv", "a.mov", "a.avi", "a.webm", "a.m4v", "a.wmv", "a.flv", "a.mpg",
        "a.mpeg", "a.m2ts", "a.mts", "a.ts", "a.3gp", "a.ogv", "a.asf", "a.m2v", "a.mpv",
    ] {
        let got = mime_for(name);
        assert!(
            got.starts_with("video/"),
            "{name} phải được khai là video, nhận được {got}"
        );
    }
}

#[test]
fn quicktime_is_never_claimed() {
    // `.mov` từng mang `video/quicktime`, thứ Chromium không nhận — nên
    // một tệp H.264 hoàn toàn phát được vẫn hiện ra khung đen. Nó dùng
    // chung cấu trúc hộp với .mp4, nên khai như .mp4 là cách để nó THỬ.
    assert_eq!(mime_for("a.mov"), "video/mp4");
    assert_eq!(mime_for("a.MOV"), "video/mp4");
}

#[test]
fn images_and_audio_keep_their_own_types() {
    assert_eq!(mime_for("a.JPG"), "image/jpeg");
    assert_eq!(mime_for("a.png"), "image/png");
    assert_eq!(mime_for("a.mp3"), "audio/mpeg");
    assert_eq!(mime_for("a.flac"), "audio/flac");
    // Hộp Ogg — kiểu `audio/opus` thì WebView2 không nhận.
    assert_eq!(mime_for("a.opus"), "audio/ogg");
}

#[test]
fn an_unknown_extension_is_left_unclaimed() {
    // Chỗ duy nhất `octet-stream` còn đúng: app không biết đây là gì, nên
    // nó không khẳng định gì cả.
    assert_eq!(
        mime_for("khong-duoi"),
        "application/octet-stream"
    );
    assert_eq!(mime_for("a.txt"), "application/octet-stream");
}

#[test]
fn every_video_extension_is_served_as_video() {
    for name in ["a.vob", "a.F4V", "a.rm", "a.rmvb", "a.divx", "a.mkv", "a.mov", "a.m2ts"] {
        assert!(mime_for(name).starts_with("video/"), "{name} -> {}", mime_for(name));
    }
    assert_eq!(mime_for("a.mov"), "video/mp4");
}

#[test]
fn empty_file_has_no_range() {
    assert_eq!(parse_range("bytes=0-", 0), None);
    assert_eq!(parse_range("bytes=-5", 0), None);
}
