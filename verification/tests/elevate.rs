use mediafinder::index::persist::{cache_path, check_schema, PersistError, SCHEMA_VERSION};
use mediafinder::ipc::elevate::{progress_path, ElevateError, ProgressWriter};

#[test]
fn declining_uac_is_worded_as_an_answer_not_a_failure() {
    // The user pressed No on purpose. Saying "error" would suggest
    // something broke, and imply their data might be in a bad state.
    let msg = ElevateError::Cancelled.message();
    assert!(msg.contains("từ chối"));
    assert!(
        msg.contains("dữ liệu cũ vẫn nguyên"),
        "must reassure that nothing was lost, got: {msg}"
    );
}

#[test]
fn a_launch_failure_carries_the_reason() {
    let msg = ElevateError::Launch("x".into()).message();
    assert_eq!(msg, "không khởi chạy được tiến trình quét: x");
}

#[test]
fn progress_file_sits_beside_the_cache() {
    let p = progress_path(r"C:\Users\a\AppData\Local\MediaFinder");
    assert!(p.ends_with("progress.json"));
    assert_eq!(p, r"C:\Users\a\AppData\Local\MediaFinder\progress.json");
    assert_eq!(cache_path(r"C:\x"), r"C:\x\index.bin");
}

#[test]
fn progress_is_written_at_most_ten_times_a_second() {
    let mut w = ProgressWriter::new();
    assert!(w.tick(1_000), "the first update goes out at once");
    assert!(!w.tick(1_050));
    assert!(w.tick(1_100));
    w.state_mut().phase = "saving".into();
    w.flush(1_120);
    assert!(!w.tick(1_150));
    assert_eq!(w.state().phase, "saving");
}

#[test]
fn missing_cache_reports_not_found_rather_than_an_io_error() {
    let e = PersistError::NotFound;
    assert!(e.message().contains("chưa có cache"));
}

#[test]
fn schema_mismatch_message_names_both_versions() {
    let e = PersistError::SchemaMismatch {
        found: 0,
        expected: SCHEMA_VERSION,
    };
    let msg = e.message();
    assert!(msg.contains("quét lại"), "must tell the user what to do");
    assert_eq!(msg, format!("cache thuộc phiên bản 0, phần mềm cần {SCHEMA_VERSION} — cần quét lại"));
    assert_eq!(check_schema(SCHEMA_VERSION), Ok(()));
    assert_eq!(check_schema(7), Err(PersistError::SchemaMismatch { found: 7, expected: SCHEMA_VERSION }));
}
