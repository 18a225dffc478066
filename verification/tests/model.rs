use mediafinder::index::model::{classify_name, kind_from_ext, Index, IndexBuilder, MediaKind, Span, MAX_EXT_LEN};

#[test]
fn classifies_each_category() {
    assert_eq!(kind_from_ext(b"mkv"), Some(MediaKind::Video));
    assert_eq!(kind_from_ext(b"jpeg"), Some(MediaKind::Image));
    assert_eq!(kind_from_ext(b"flac"), Some(MediaKind::Audio));
}

#[test]
fn rejects_non_media() {
    for ext in [&b"exe"[..], b"dll", b"txt", b"rs", b"", b"zip"] {
        assert_eq!(kind_from_ext(ext), None, "ext {ext:?} should not be media");
    }
}

#[test]
fn source_code_extensions_are_never_media() {
    for ext in [
        &b"ts"[..], b"tsx", b"js", b"jsx", b"json", b"md", b"toml", b"yml", b"h", b"c", b"cpp", b"py",
        b"go", b"java", b"cs", b"sh", b"log", b"lock",
    ] {
        assert_eq!(kind_from_ext(ext), None, "source/config extension {ext:?} must not be classified as media");
    }
}

#[test]
fn max_ext_len_covers_every_entry() {
    for ext in [
        &b"mpeg"[..], b"webm", b"m2ts", b"jpeg", b"tiff", b"heic", b"avif", b"flac", b"opus", b"aiff",
        b"alac", b"midi",
    ] {
        assert!(ext.len() <= MAX_EXT_LEN, "{ext:?} exceeds MAX_EXT_LEN");
    }
}

fn sample() -> Index {
    let mut b = IndexBuilder::new();
    let phim = b.add_dir(r"D:\Phim", 0);
    let nhac = b.add_dir(r"D:\Nhạc", 0);
    b.add_file("Tiếng Việt.mp4", MediaKind::Video, phim, 0);
    b.add_file("Đà Nẵng 2024.mkv", MediaKind::Video, phim, 0);
    b.add_file("bài hát.mp3", MediaKind::Audio, nhac, 0);
    b.finish()
}

#[test]
fn stores_and_returns_entries() {
    let ix = sample();
    assert_eq!(ix.len(), 3);
    assert_eq!(ix.dir_count(), 2);
    assert_eq!(ix.name(0), "Tiếng Việt.mp4");
    assert_eq!(ix.kind(2), MediaKind::Audio);
}

#[test]
fn folds_names_at_build_time() {
    let ix = sample();
    assert_eq!(ix.folded(0), b"tieng viet.mp4");
    assert_eq!(ix.folded(1), b"da nang 2024.mkv");
    assert_eq!(ix.folded(2), b"bai hat.mp3");
}

#[test]
fn joins_full_paths() {
    let ix = sample();
    assert_eq!(ix.full_path(0), r"D:\Phim\Tiếng Việt.mp4");
    assert_eq!(ix.full_path(2), r"D:\Nhạc\bài hát.mp3");
}

/// Long enough that duplicating it a hundred times is unmistakable.
const EXTRA: usize = 500;

#[test]
fn directory_text_is_stored_once_however_many_files_share_it() {
    fn with_dir(dir: &str) -> Index {
        let mut b = IndexBuilder::new();
        let d = b.add_dir(dir, 0);
        for i in 0..100 {
            b.add_file(&format!("f{i}.mp4"), MediaKind::Video, d, 0);
        }
        b.finish()
    }

    let short = with_dir(r"D:\M");
    let long = with_dir(&format!(r"D:\{}", "x".repeat(EXTRA)));

    assert_eq!(short.dir_count(), 1);
    assert_eq!(short.dir(0), short.dir(99));

    let grew = long.memory_bytes() - short.memory_bytes();
    assert!(
        grew < 4 * EXTRA,
        "thư mục dài thêm {EXTRA} ký tự làm index phình {grew} byte — \
         đường dẫn đang bị nhân bản theo từng tệp"
    );
}

#[test]
fn file_reference_numbers_survive_into_the_index() {
    let mut b = IndexBuilder::new();
    let d = b.add_dir(r"D:\Phim", 0x0004_0000_0000_1234);
    b.add_file("a.mp4", MediaKind::Video, d, 0x0002_0000_0000_00AB);
    b.add_file("b.mp4", MediaKind::Video, d, 0x0002_0000_0000_00CD);
    let ix = b.finish();

    assert_eq!(ix.frn(0), 0x0002_0000_0000_00AB);
    assert_eq!(ix.frn(1), 0x0002_0000_0000_00CD);
    assert_eq!(ix.dir_frn(0), 0x0004_0000_0000_1234);
    assert_eq!(ix.frns(), &[0x0002_0000_0000_00AB, 0x0002_0000_0000_00CD]);
}

#[test]
fn the_volume_a_file_lives_on_is_read_off_its_path() {
    let mut b = IndexBuilder::new();
    let c = b.add_dir(r"c:\Users\Me", 10);
    let d = b.add_dir(r"D:\Phim", 11);
    b.add_file("a.mp4", MediaKind::Video, c, 7);
    b.add_file("b.mp4", MediaKind::Video, d, 7);
    let ix = b.finish();

    assert_eq!(ix.frn(0), ix.frn(1));
    assert_eq!(ix.volume_of(0), b'C');
    assert_eq!(ix.volume_of(1), b'D');
    assert_eq!(ix.volume_of_dir(0), b'C');
}

#[test]
fn empty_index_is_usable() {
    let ix = IndexBuilder::new().finish();
    assert!(ix.is_empty());
    assert_eq!(ix.len(), 0);
    assert_eq!(ix.memory_bytes(), 0);
}

#[test]
fn span_is_eight_bytes() {
    assert_eq!(std::mem::size_of::<Span>(), 8);
    assert!(std::mem::size_of::<Span>() < std::mem::size_of::<String>());
}

#[test]
fn classify_name_reads_the_last_extension_case_blind() {
    assert_eq!(classify_name("Avatar.MKV"), Some(MediaKind::Video));
    assert_eq!(classify_name("archive.mp4.zip"), None);
    assert_eq!(classify_name("no-extension"), None);
    assert_eq!(classify_name("trailing."), None);
    assert_eq!(classify_name("x.flaaac"), None);
    assert_eq!(MediaKind::Audio.as_str(), "audio");
}

#[test]
fn file_stats_only_replace_when_lengths_match() {
    let mut ix = sample();
    ix.set_file_stats(vec![1, 2], vec![1, 2]);
    assert_eq!(ix.size(0), 0);
    ix.set_file_stats(vec![10, 20, 30], vec![1, 2, 3]);
    assert_eq!(ix.size(1), 20);
    assert_eq!(ix.mtime(2), 3);
    assert_eq!(ix.sizes(), &[10, 20, 30]);
}
