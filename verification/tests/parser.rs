use simpleff::progress::{percent_milli, progress_update};
use simpleff::timecode::{parse_duration, parse_time};

#[test]
fn parses_plain_timestamp() {
    // 0 h, 1 min, 30.5 s -> 90.5 s
    assert_eq!(parse_time("00:01:30.500000"), Some(90_500_000));
}

#[test]
fn parses_short_components() {
    // 1 h, 2 min, 3 s
    assert_eq!(parse_time("1:2:3"), Some(3_723_000_000));
}

#[test]
fn parses_sixty_second_component() {
    assert_eq!(parse_time("00:00:60.000000"), Some(60_000_000));
}

#[test]
fn parses_trailing_dot() {
    assert_eq!(parse_time("0:0:5."), Some(5_000_000));
}

#[test]
fn parses_fractional_hours() {
    // 10.5 hours = 37800 seconds
    assert_eq!(parse_time("10.5:00:00"), Some(37_800_000_000));
}

#[test]
fn truncates_fraction_beyond_microseconds() {
    assert_eq!(parse_time("0:0:0.1234567"), Some(123_456));
}

#[test]
fn rejects_two_components() {
    assert_eq!(parse_time("01:30"), None);
}

#[test]
fn rejects_non_numeric_component() {
    assert_eq!(parse_time("aa:01:02"), None);
}

#[test]
fn rejects_four_components() {
    assert_eq!(parse_time("1:2:3:4"), None);
}

#[test]
fn rejects_empty_and_bare_separators() {
    assert_eq!(parse_time(""), None);
    assert_eq!(parse_time("::"), None);
    assert_eq!(parse_time(":1:2"), None);
    assert_eq!(parse_time("1::2"), None);
}

#[test]
fn rejects_negative_component() {
    assert_eq!(parse_time("1:2:-3"), None);
}

#[test]
fn rejects_surrounding_whitespace_in_token() {
    assert_eq!(parse_time(" 1:2:3"), None);
    assert_eq!(parse_time("1:2:3 "), None);
}

#[test]
fn rejects_double_dot() {
    assert_eq!(parse_time("1:2:3.5.6"), None);
}

#[test]
fn rejects_overlarge_hours() {
    assert_eq!(parse_time("99999999999999999999:0:0"), None);
}

#[test]
fn parses_probe_output() {
    assert_eq!(parse_duration("120.5\n"), Some(120_500_000));
    assert_eq!(parse_duration(" 12 "), Some(12_000_000));
    assert_eq!(parse_duration("0"), Some(0));
}

#[test]
fn rejects_bad_probe_output() {
    assert_eq!(parse_duration("abc"), None);
    assert_eq!(parse_duration(""), None);
    assert_eq!(parse_duration("   "), None);
    assert_eq!(parse_duration("-5"), None);
    assert_eq!(parse_duration("1.5.2"), None);
    assert_eq!(parse_duration("1 2"), None);
}

#[test]
fn halfway_line_gives_fifty_percent() {
    // duration 120 s, elapsed 60 s -> 50.0 percent
    let r = progress_update("out_time=00:00:60.000000", 120_000_000);
    assert_eq!(r, Some(50_000));
    assert_eq!(r.unwrap() as f64 / 1000.0, 50.0);
}

#[test]
fn ignores_lines_without_marker() {
    assert_eq!(progress_update("bitrate=100", 120_000_000), None);
    assert_eq!(progress_update("out_time_us=60000000", 120_000_000), None);
    assert_eq!(progress_update("", 120_000_000), None);
}

#[test]
fn ignores_unparsable_timestamp() {
    assert_eq!(progress_update("out_time=abc", 120_000_000), None);
    assert_eq!(progress_update("out_time=", 120_000_000), None);
}

#[test]
fn ignores_lines_when_duration_unknown() {
    assert_eq!(progress_update("out_time=00:00:60.000000", 0), None);
}

#[test]
fn takes_token_up_to_next_equals_sign() {
    assert_eq!(progress_update("out_time=00:00:60.000000=x", 120_000_000), Some(50_000));
}

#[test]
fn percentage_is_rounded_toward_zero() {
    assert_eq!(percent_milli(1, 3), 33_333);
    assert_eq!(percent_milli(2, 3), 66_666);
}

#[test]
fn percentage_saturates() {
    assert_eq!(percent_milli(u64::MAX, 1), u64::MAX);
}

#[test]
fn percentage_of_whole_duration_is_hundred() {
    assert_eq!(percent_milli(120_000_000, 120_000_000), 100_000);
}
