use mediafinder::audit::filetime_day;
use mediafinder::hotkey::HOTKEY;

/// A wrong date here would be worse than no date: it is read while working
/// out when files disappeared.
#[test]
fn filetime_converts_to_the_right_calendar_day() {
    // Anchors computed independently: FILETIME = (unix + 11644473600) × 10^7.
    assert_eq!(filetime_day(125_911_584_000_000_000), "2000-01-01 00h");
    // 2026-08-24 12:00 UTC
    assert_eq!(filetime_day(134_320_464_000_000_000), "2026-08-24 12h");
    // A leap day, which is where naive date maths usually breaks.
    // 2024-02-29 00:00 UTC = unix 1709164800
    assert_eq!(filetime_day(133_536_384_000_000_000), "2024-02-29 00h");
    // Nonsense in, honest answer out — never a date from 1601.
    assert_eq!(filetime_day(0), "?");
}

#[test]
fn the_hotkey_avoids_combinations_windows_and_the_ime_already_use() {
    assert!(
        HOTKEY.contains("Ctrl") && HOTKEY.contains("Alt"),
        "phím tắt {HOTKEY} phải giữ cả Ctrl lẫn Alt: thiếu Ctrl thì đụng \
         menu hệ thống của Windows, thiếu Alt thì đụng phím chuyển bộ gõ"
    );
}

#[test]
fn negative_ticks_and_the_year_boundary() {
    assert_eq!(filetime_day(-5), "?");
    // 1999-12-31 23:00 UTC = unix 946681200
    assert_eq!(filetime_day((946_681_200i64 + 11_644_473_600) * 10_000_000), "1999-12-31 23h");
}
