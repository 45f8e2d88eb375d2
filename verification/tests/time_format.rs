use cut_bot::time::format_time;

#[test]
fn format_time_zero() {
    assert_eq!(format_time(0), "00:00:00.000");
}

#[test]
fn format_time_whole_seconds() {
    assert_eq!(format_time(2_000), "00:00:02.000");
    assert_eq!(format_time(10_000), "00:00:10.000");
}

#[test]
fn format_time_minutes_and_fraction() {
    assert_eq!(format_time(100_000), "00:01:40.000");
    assert_eq!(format_time(3_661_001), "01:01:01.001");
    assert_eq!(format_time(45_678), "00:00:45.678");
}

#[test]
fn format_time_largest_two_digit_hours() {
    assert_eq!(format_time(359_999_999), "99:59:59.999");
}

#[test]
fn format_time_hours_beyond_two_digits_keep_all_digits() {
    assert_eq!(format_time(360_000_000), "100:00:00.000");
}

fn reparse_hhmmss(s: &str) -> u64 {
    let bytes = s.as_bytes();
    assert_eq!(bytes.len(), 12, "pattern must be HH:MM:SS.mmm");
    assert_eq!(bytes[2], b':');
    assert_eq!(bytes[5], b':');
    assert_eq!(bytes[8], b'.');
    let d = |i: usize| -> u64 {
        assert!(bytes[i].is_ascii_digit());
        (bytes[i] - b'0') as u64
    };
    let hours: u64 = d(0) * 10 + d(1);
    let minutes: u64 = d(3) * 10 + d(4);
    let seconds: u64 = d(6) * 10 + d(7);
    let millis: u64 = d(9) * 100 + d(10) * 10 + d(11);
    (hours * 3600 + minutes * 60 + seconds) * 1000 + millis
}

#[test]
fn format_time_round_trips_exactly() {
    let cases: [u64; 8] = [
        0,
        1,
        999,
        2_000,
        100_000,
        123_456_789,
        359_999_000,
        359_999_999,
    ];
    for &ms in cases.iter() {
        let rendered = format_time(ms);
        assert_eq!(reparse_hhmmss(&rendered), ms, "round trip failed for {} ms", ms);
    }
}
