use mediafinder::ipc::protocol::{parse_entry, parse_size, DEFAULT_SIZE, MAX_SIZE};


#[test]
fn parses_a_well_formed_path() {
    assert_eq!(parse_entry("/7_1234"), Some((7, 1234)));
    assert_eq!(parse_entry("7_0"), Some((7, 0)));
}

#[test]
fn a_slash_separator_is_rejected_because_it_never_arrives_intact() {
    // Regression guard. `convertFileSrc` percent-encodes the path, so a
    // slash reaches this function as `%2F` and splits nothing. Every
    // thumbnail 400'd silently until the separator changed to `_`.
    assert_eq!(parse_entry("/2%2F84341"), None);
    assert_eq!(parse_entry("/7/1234"), None);
}

#[test]
fn rejects_paths_this_scheme_never_issues() {
    assert_eq!(parse_entry("/7"), None, "thiếu chỉ số");
    assert_eq!(parse_entry("/7_12_extra"), None, "thừa đoạn");
    assert_eq!(parse_entry("/abc_12"), None, "epoch không phải số");
    assert_eq!(parse_entry("/7_-1"), None, "chỉ số âm");
    assert_eq!(parse_entry("/"), None);
}

#[test]
fn size_defaults_and_clamps() {
    assert_eq!(parse_size(None), DEFAULT_SIZE);
    assert_eq!(parse_size(Some("s=128")), 128);
    assert_eq!(parse_size(Some("x=1&s=64")), 64);

    // An unbounded size would let one URL allocate an arbitrarily large
    // image, and every distinct value would take its own cache slot.
    assert_eq!(parse_size(Some("s=999999")), MAX_SIZE);
    assert_eq!(parse_size(Some("s=0")), 16);
    assert_eq!(parse_size(Some("s=notanumber")), DEFAULT_SIZE);
}
