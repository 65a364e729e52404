use logmux::cri::CriParser;
use logmux::json::JsonParser;
use logmux::parser::{LogParser, StreamType};
use logmux::time::{is_leap_year, parse_rfc3339_timestamp, utc_to_nanoseconds};

#[test]
fn test_cri_parser_success() {
    let parser = CriParser::new();
    let log_line = b"2026-06-27T20:13:09.123456789Z stdout F hello world\n";
    let parsed = parser.parse(log_line).unwrap();

    assert_eq!(parsed.stream, StreamType::Stdout);
    assert_eq!(parsed.is_partial, false);
    assert_eq!(parsed.payload, b"hello world");

    let expected_ts = utc_to_nanoseconds(2026, 6, 27, 20, 13, 9, 123456789);
    assert_eq!(parsed.timestamp_ns, expected_ts);
}

#[test]
fn test_cri_parser_partial() {
    let parser = CriParser::new();
    let log_line = b"2026-06-27T20:13:09.123Z stderr P part of a line";
    let parsed = parser.parse(log_line).unwrap();

    assert_eq!(parsed.stream, StreamType::Stderr);
    assert_eq!(parsed.is_partial, true);
    assert_eq!(parsed.payload, b"part of a line");
    let expected_ts = utc_to_nanoseconds(2026, 6, 27, 20, 13, 9, 123000000);
    assert_eq!(parsed.timestamp_ns, expected_ts);
}

#[test]
fn test_cri_parser_malformed() {
    let parser = CriParser::new();
    assert!(parser.parse(b"bad timestamp stdout F log").is_none());
    assert!(parser.parse(b"2026-06-27T20:13:09.123Z bad_stream F log").is_none());
    assert!(parser.parse(b"2026-06-27T20:13:09.123Z stdout X log").is_none());
}

#[test]
fn test_json_parser_success() {
    let parser = JsonParser::new();
    let log_line = b"{\"log\":\"hello world\\n\",\"stream\":\"stdout\",\"time\":\"2026-06-27T20:13:09.123456789Z\"}";
    let parsed = parser.parse(log_line).unwrap();

    assert_eq!(parsed.stream, StreamType::Stdout);
    assert_eq!(parsed.is_partial, false);
    assert_eq!(parsed.payload, b"hello world");

    let expected_ts = utc_to_nanoseconds(2026, 6, 27, 20, 13, 9, 123456789);
    assert_eq!(parsed.timestamp_ns, expected_ts);
}

#[test]
fn test_json_parser_different_order() {
    let parser = JsonParser::new();
    let log_line = b"{\"time\":\"2026-06-27T20:13:09.123Z\",\"stream\":\"stderr\",\"log\":\"error log\"}";
    let parsed = parser.parse(log_line).unwrap();

    assert_eq!(parsed.stream, StreamType::Stderr);
    assert_eq!(parsed.payload, b"error log");
    let expected_ts = utc_to_nanoseconds(2026, 6, 27, 20, 13, 9, 123000000);
    assert_eq!(parsed.timestamp_ns, expected_ts);
}

#[test]
fn test_json_parser_malformed() {
    let parser = JsonParser::new();
    assert!(parser.parse(b"{\"stream\":\"stdout\"}").is_none());
    assert!(parser.parse(b"bad json content").is_none());
}

#[test]
fn epoch_is_zero() {
    assert_eq!(utc_to_nanoseconds(1970, 1, 1, 0, 0, 0, 0), 0);
}

#[test]
fn known_instant_in_nanoseconds() {
    // 2026-06-27T20:13:09Z is 1782591189 seconds after the epoch.
    assert_eq!(
        utc_to_nanoseconds(2026, 6, 27, 20, 13, 9, 123456789),
        1_782_591_189_123_456_789
    );
    // 2000-03-01 follows a 29-day February.
    assert_eq!(utc_to_nanoseconds(2000, 3, 1, 0, 0, 0, 0), 951_868_800_000_000_000);
}

#[test]
fn leap_year_rule() {
    assert!(is_leap_year(2024));
    assert!(!is_leap_year(2023));
    assert!(!is_leap_year(1900));
    assert!(is_leap_year(2000));
}

#[test]
fn rfc3339_offsets_and_fractions() {
    let utc = parse_rfc3339_timestamp(b"2026-06-27T20:13:09Z").unwrap();
    assert_eq!(utc, 1_782_591_189_000_000_000);
    let plus = parse_rfc3339_timestamp(b"2026-06-27T22:13:09+02:00").unwrap();
    assert_eq!(plus, utc);
    let minus = parse_rfc3339_timestamp(b"2026-06-27T18:43:09-01:30").unwrap();
    assert_eq!(minus, utc);
    let frac = parse_rfc3339_timestamp(b"2026-06-27T20:13:09.5Z").unwrap();
    assert_eq!(frac, utc + 500_000_000);
    let long = parse_rfc3339_timestamp(b"2026-06-27T20:13:09.1234567891Z").unwrap();
    assert_eq!(long, utc + 123_456_789);
    assert!(parse_rfc3339_timestamp(b"2026-06-27 20:13:09Z").is_none());
    assert!(parse_rfc3339_timestamp(b"2026-06-27T20:13:0").is_none());
    assert!(parse_rfc3339_timestamp(b"2026-06-27T20:13:09+0x:00").is_none());
}

#[test]
fn timestamps_before_the_epoch_are_negative() {
    assert_eq!(utc_to_nanoseconds(1969, 12, 31, 23, 59, 59, 0), -1_000_000_000);
    assert_eq!(utc_to_nanoseconds(1969, 1, 1, 0, 0, 0, 0), -365 * 86_400 * 1_000_000_000);
    assert_eq!(utc_to_nanoseconds(1968, 12, 31, 0, 0, 0, 0), -366 * 86_400 * 1_000_000_000);
    assert_eq!(parse_rfc3339_timestamp(b"1969-12-31T23:59:59Z"), Some(-1_000_000_000));
    assert_eq!(parse_rfc3339_timestamp(b"1970-01-01T00:59:59+01:00"), Some(-1_000_000_000));
}

#[test]
fn long_fractions_are_cut_to_nanoseconds() {
    assert_eq!(parse_rfc3339_timestamp(b"1970-01-01T00:00:00.999999999999Z"), Some(999_999_999));
    assert_eq!(parse_rfc3339_timestamp(b"1970-01-01T00:00:00.1234567891234567891234Z"), Some(123_456_789));
    assert_eq!(parse_rfc3339_timestamp(b"1970-01-01T00:00:00.Z"), Some(0));
}

#[test]
fn months_past_thirteen_are_refused() {
    assert_eq!(parse_rfc3339_timestamp(b"2026-14-01T00:00:00Z"), None);
    assert_eq!(parse_rfc3339_timestamp(b"2026-99-01T00:00:00Z"), None);
    assert_eq!(
        parse_rfc3339_timestamp(b"2025-13-01T00:00:00Z"),
        Some(utc_to_nanoseconds(2026, 1, 1, 0, 0, 0, 0))
    );
}

#[test]
fn json_key_must_name_a_field() {
    let p = JsonParser::new();
    let line: &[u8] = br#"{"log":"time","stream":"stdout","time":"x"}"#;
    assert_eq!(p.find_string_field(line, b"time"), Some(&b"x"[..]));
    assert_eq!(p.find_string_field(line, b"log"), Some(&b"time"[..]));
    assert_eq!(p.find_string_field(br#"{"log" :	"a b"}"#, b"log"), Some(&b"a b"[..]));
    assert_eq!(p.find_string_field(br#"{"a":"log","b":"c"}"#, b"log"), None);
}

#[test]
fn offsets_shift_the_z_time() {
    let z = parse_rfc3339_timestamp(b"2026-06-27T20:13:09Z").unwrap();
    let off = (5 * 3600 + 30 * 60) * 1_000_000_000i64;
    assert_eq!(parse_rfc3339_timestamp(b"2026-06-27T20:13:09+05:30"), Some(z - off));
    assert_eq!(parse_rfc3339_timestamp(b"2026-06-27T20:13:09-05:30"), Some(z + off));
    assert_eq!(parse_rfc3339_timestamp(b"1970-01-01T00:00:00+00:00"), Some(0));
}

#[test]
fn next_day_is_86400_seconds_later() {
    let day = 86_400_000_000_000i64;
    let t = |y: i32, m: u32, d: u32| utc_to_nanoseconds(y, m, d, 13, 45, 7, 123_456_789);
    assert_eq!(t(2024, 2, 29) - t(2024, 2, 28), day);
    assert_eq!(t(2023, 3, 1) - t(2023, 2, 28), day);
    assert_eq!(t(2024, 1, 1) - t(2023, 12, 31), day);
    assert_eq!(t(2000, 3, 1) - t(2000, 2, 29), day);
    assert_eq!(t(1970, 1, 1) - t(1969, 12, 31), day);
    assert_eq!(t(2026, 5, 1) - t(2026, 4, 30), day);
}
