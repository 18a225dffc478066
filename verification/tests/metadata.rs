use mediafinder::media::metadata::{filetime_to_unix, MediaProps};

#[test]
fn filetime_converts_to_unix_seconds() {
    // 1970-01-01T00:00:00Z is exactly the epoch offset.
    assert_eq!(filetime_to_unix(0x019DB1DE, 0xD53E8000), 0);
    // Anything before 1601 + epoch offset is meaningless; report 0 rather
    // than a negative time that would sort before every real file.
    assert_eq!(filetime_to_unix(0, 0), 0);
}

#[test]
fn filetime_round_trips_a_known_moment() {
    // 2020-01-01T00:00:00Z = 1577836800 unix.
    let ticks = (1_577_836_800i64 * 10_000_000) + 116_444_736_000_000_000;
    let high = (ticks as u64 >> 32) as u32;
    let low = (ticks as u64 & 0xFFFF_FFFF) as u32;
    assert_eq!(filetime_to_unix(high, low), 1_577_836_800);
}

#[test]
fn empty_props_are_distinguishable_from_real_ones() {
    assert!(MediaProps::default().is_empty());
    assert!(!MediaProps {
        width: 1920,
        height: 1080,
        duration_ms: 0
    }
    .is_empty());
    assert!(!MediaProps {
        width: 0,
        height: 0,
        duration_ms: 5000
    }
    .is_empty());
}

#[test]
fn a_tick_count_past_the_signed_range_reads_as_zero() {
    assert_eq!(filetime_to_unix(0x8000_0000, 0), 0);
}
