use cut_bot::events::{extract_duration, extract_loud_starts, extract_silence_starts};
use cut_bot::ParseError;

#[test]
fn example_text_parse() {
    let text = "frame=  100 fps= 60 q=-0.0\nsilence_start: 1.500000\nsilence_end: 3.250000\n  Duration: 00:01:40.00, start: 0.000000, bitrate: 128 kb/s\n";
    assert_eq!(extract_silence_starts(text.as_bytes()), vec![1_500]);
    assert_eq!(extract_loud_starts(text.as_bytes()), vec![3_250]);
    assert_eq!(extract_duration(text.as_bytes()), Ok(100_000));
}

#[test]
fn silence_starts_keep_order_of_appearance() {
    let text = "silence_start: 8.25\nnoise\nsilence_start: 2.5\nsilence_start: 0.125\n";
    assert_eq!(
        extract_silence_starts(text.as_bytes()),
        vec![8_250, 2_500, 125]
    );
}

#[test]
fn marker_without_space_and_with_extra_text() {
    let text = "silence_start:17\n[silencedetect] silence_start: 2.5 | extra words\n";
    assert_eq!(extract_silence_starts(text.as_bytes()), vec![17_000, 2_500]);
}

#[test]
fn malformed_numbers_are_skipped() {
    let text = "silence_start: abc\nsilence_start:\nsilence_start: 4\n";
    assert_eq!(extract_silence_starts(text.as_bytes()), vec![4_000]);
}

#[test]
fn fraction_digits_beyond_milliseconds_are_dropped() {
    let text = "silence_start: 1.23456\nsilence_start: 1.\nsilence_start: 0.7\n";
    assert_eq!(
        extract_silence_starts(text.as_bytes()),
        vec![1_234, 1_000, 700]
    );
}

#[test]
fn loud_starts_come_from_silence_end_lines() {
    let text = "silence_end: 3.25 | silence_duration: 1.75\nsilence_start: 9.0\n";
    assert_eq!(extract_loud_starts(text.as_bytes()), vec![3_250]);
}

#[test]
fn empty_text_yields_nothing() {
    assert_eq!(extract_silence_starts(b""), Vec::<u64>::new());
    assert_eq!(extract_loud_starts(b""), Vec::<u64>::new());
}

#[test]
fn missing_duration_is_a_parse_error() {
    let text = "frame= 100\nsilence_start: 1.0\n";
    assert_eq!(extract_duration(text.as_bytes()), Err(ParseError));
}

#[test]
fn malformed_duration_is_a_parse_error() {
    assert_eq!(extract_duration(b"Duration: N/A, start\n"), Err(ParseError));
    assert_eq!(extract_duration(b"Duration: 00:01\n"), Err(ParseError));
    assert_eq!(extract_duration(b"Duration: 00:01:40\n"), Err(ParseError));
}

#[test]
fn duration_fraction_scales_by_digit_count() {
    assert_eq!(extract_duration(b"Duration: 00:00:01.5\n"), Ok(1_500));
    assert_eq!(extract_duration(b"Duration: 00:00:01.50\n"), Ok(1_500));
    assert_eq!(extract_duration(b"Duration: 00:00:01.500\n"), Ok(1_500));
    assert_eq!(extract_duration(b"Duration: 00:00:00.1234\n"), Ok(123));
}

#[test]
fn duration_adds_hours_minutes_seconds() {
    assert_eq!(
        extract_duration(b"Duration: 01:02:03.004\n"),
        Ok(3_600_000 + 2 * 60_000 + 3_000 + 4)
    );
}

#[test]
fn values_beyond_the_millisecond_range_are_skipped() {
    // 18446744073709552 seconds do not fit u64 milliseconds; the line is
    // treated as malformed and skipped, while a later sound line still counts.
    let text = "silence_start: 18446744073709552\nsilence_start: 3\n";
    assert_eq!(extract_silence_starts(text.as_bytes()), vec![3_000]);
}

#[test]
fn duration_beyond_the_millisecond_range_is_a_parse_error() {
    assert_eq!(
        extract_duration(b"Duration: 99999999999999999999:00:00.0\n"),
        Err(ParseError)
    );
}

#[test]
fn first_duration_occurrence_wins() {
    let text = "Duration: 00:00:02.0\nDuration: 00:00:09.0\n";
    assert_eq!(extract_duration(text.as_bytes()), Ok(2_000));
}

#[test]
fn malformed_duration_marker_does_not_hide_a_later_field() {
    let text = "Duration: N/A\nDuration: 00:01:40.00\n";
    assert_eq!(extract_duration(text.as_bytes()), Ok(100_000));
    let same_line = "Duration: x Duration: 00:01:40.00\n";
    assert_eq!(extract_duration(same_line.as_bytes()), Ok(100_000));
}

#[test]
fn marker_without_number_does_not_hide_a_later_one_on_the_line() {
    let text = "silence_start:x silence_start: 2.5\n";
    assert_eq!(extract_silence_starts(text.as_bytes()), vec![2_500]);
}
