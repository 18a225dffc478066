use mediafinder::index::model::MediaKind;
use mediafinder::media::enrich::{
    header_ok, missing, next_job, order_queue, path_key, publish, store_header, EnrichStatus, Entry,
    Store, HEADER_LEN, MAGIC,
};
use mediafinder::media::metadata::MediaProps;

#[test]
fn video_is_read_before_anything_else() {
    let kinds = [
        MediaKind::Audio,
        MediaKind::Video,
        MediaKind::Image,
        MediaKind::Video,
        MediaKind::Audio,
    ];
    let mut queue: Vec<u32> = (0..kinds.len() as u32).collect();
    order_queue(&mut queue, &kinds);

    // Drain the way a worker does and record what it actually gets.
    let taken: Vec<MediaKind> = std::iter::from_fn(|| queue.pop())
        .map(|i| kinds[i as usize])
        .collect();

    assert_eq!(
        &taken[..2],
        &[MediaKind::Video, MediaKind::Video],
        "video phải được đọc trước, thứ tự lấy việc là ngược lại"
    );
    assert_eq!(taken[2], MediaKind::Image);
    assert_eq!(&taken[3..], &[MediaKind::Audio, MediaKind::Audio]);
}

#[test]
fn path_key_ignores_case_like_windows_does() {
    assert_eq!(path_key(r"D:\Phim\A.mp4"), path_key(r"d:\phim\a.MP4"));
    assert_ne!(path_key(r"D:\Phim\A.mp4"), path_key(r"D:\Phim\B.mp4"));
}

#[test]
fn store_header_is_readable_without_decoding_the_body() {
    assert_eq!(HEADER_LEN, 12);
    assert_eq!(&MAGIC[..6], b"MFMETA");
}

#[test]
fn header_round_trips_and_rejects_other_versions() {
    let h = store_header();
    assert_eq!(h.len(), HEADER_LEN);
    assert_eq!(&h[..8], b"MFMETA01");
    assert_eq!(&h[8..], &[1, 0, 0, 0]);
    let mut file = h.clone();
    file.extend_from_slice(&[9, 9, 9]);
    assert!(header_ok(&file));
    let mut other = h.clone();
    other[8] = 2;
    assert!(!header_ok(&other));
    assert!(!header_ok(&h[..11]));
    assert!(!header_ok(b"MFIDX001\x01\x00\x00\x00"));
}

#[test]
fn queue_keeps_order_within_a_kind() {
    let kinds = [MediaKind::Video, MediaKind::Audio, MediaKind::Video, MediaKind::Image];
    let mut queue = vec![0u32, 1, 2, 3];
    order_queue(&mut queue, &kinds);
    assert_eq!(queue, vec![1, 3, 0, 2]);
}

fn props(w: u32, h: u32, d: u64) -> MediaProps {
    MediaProps { width: w, height: h, duration_ms: d }
}

#[test]
fn only_blank_entries_are_queued() {
    let p = vec![props(0, 0, 0), props(1920, 1080, 0), props(0, 0, 0), props(0, 0, 5)];
    assert_eq!(missing(&p), vec![0, 2]);
}

#[test]
fn publish_counts_newly_known_entries_once() {
    let mut p = vec![props(0, 0, 0), props(640, 480, 0), props(0, 0, 0)];
    let mut batch = vec![
        (0u32, props(1920, 1080, 1000)),
        (0, props(1280, 720, 1000)),
        (1, props(800, 600, 0)),
        (2, props(0, 0, 0)),
        (7, props(1, 1, 1)),
    ];
    let gained = publish(&mut p, &mut batch);
    assert_eq!(gained, 1);
    assert!(batch.is_empty());
    assert_eq!(p, vec![props(1280, 720, 1000), props(800, 600, 0), props(0, 0, 0)]);
}

#[test]
fn a_newer_index_stops_the_worker() {
    let mut q = vec![4u32, 5];
    assert_eq!(next_job(2, 1, &mut q), None);
    assert_eq!(q, vec![4, 5]);
    assert_eq!(next_job(1, 1, &mut q), Some(5));
    assert_eq!(next_job(1, 1, &mut q), Some(4));
    assert_eq!(next_job(1, 1, &mut q), None);
}

#[test]
fn store_keeps_answers_by_path_whatever_the_case() {
    let mut s = Store::new();
    s.record(r"D:\Phim\A.mp4", 10, 20, props(1, 2, 3));
    assert_eq!(s.len(), 1);
    let e = s.get(path_key(r"d:\phim\a.mp4")).unwrap();
    assert_eq!(e, Entry { size: 10, mtime: 20, props: props(1, 2, 3) });
    let back = Store::from_entries(s.entries());
    assert_eq!(back.len(), 1);
    assert_eq!(back.get(path_key(r"D:\PHIM\A.MP4")), Some(e));
}

#[test]
fn a_fresh_status_reports_nothing_running() {
    let st = EnrichStatus::default();
    assert!(!st.running);
    assert_eq!(st.total, 0);
    assert_eq!(st.done, 0);
}
