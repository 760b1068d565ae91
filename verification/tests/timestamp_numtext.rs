use preproc::numtext::dec_bytes;
use preproc::numtext::int_bytes;
use preproc::numtext::parse_i32;
use preproc::numtext::parse_i64;
use preproc::timestamp::compare_day;
use preproc::timestamp::format_timestamp;
use preproc::timestamp::parse_timestamp;
use preproc::timestamp::DayOrder;
use preproc::timestamp::Timestamp;

fn ts(y: u32, mo: u32, d: u32, h: u32, mi: u32, s: u32, ms: u32) -> Timestamp {
    Timestamp { year: y, month: mo, day: d, hour: h, minute: mi, second: s, milli: ms }
}

#[test]
fn parse_fixed_pattern() {
    let t = parse_timestamp(b"2010-03-04T05:06:07.008").expect("well-formed");
    assert_eq!(t, ts(2010, 3, 4, 5, 6, 7, 8));
}

#[test]
fn format_then_parse_round_trip() {
    let t = ts(2008, 12, 31, 23, 59, 59, 999);
    let text = format_timestamp(&t);
    assert_eq!(text, b"2008-12-31T23:59:59.999".to_vec());
    assert_eq!(parse_timestamp(&text), Some(t));
}

#[test]
fn malformed_timestamps_are_rejected() {
    assert_eq!(parse_timestamp(b"2010-03-04 05:06:07.008"), None);
    assert_eq!(parse_timestamp(b"2010-03-04T05:06:07"), None);
    assert_eq!(parse_timestamp(b"2010-13-04T05:06:07.008"), None);
    assert_eq!(parse_timestamp(b"2010-02-30T05:06:07.008"), None);
    assert_eq!(parse_timestamp(b"2010-03-04T24:06:07.008"), None);
    assert_eq!(parse_timestamp(b""), None);
}

#[test]
fn leap_day_validity() {
    assert!(parse_timestamp(b"2012-02-29T00:00:00.000").is_some());
    assert_eq!(parse_timestamp(b"2011-02-29T00:00:00.000"), None);
    assert!(parse_timestamp(b"2000-02-29T00:00:00.000").is_some());
    assert_eq!(parse_timestamp(b"1900-02-29T00:00:00.000"), None);
}

#[test]
fn day_comparison_ignores_time_of_day() {
    let morning = ts(2010, 1, 2, 1, 0, 0, 0);
    let evening = ts(2010, 1, 2, 23, 59, 59, 999);
    let next = ts(2010, 1, 3, 0, 0, 0, 0);
    assert!(matches!(compare_day(&morning, &evening), DayOrder::Same));
    assert!(matches!(compare_day(&morning, &next), DayOrder::Before));
    assert!(matches!(compare_day(&next, &evening), DayOrder::After));
}

#[test]
fn parse_i64_accepts_exactly_the_representable() {
    assert_eq!(parse_i64(b"0"), Some(0));
    assert_eq!(parse_i64(b"-42"), Some(-42));
    assert_eq!(parse_i64(b"9223372036854775807"), Some(i64::MAX));
    assert_eq!(parse_i64(b"-9223372036854775808"), Some(i64::MIN));
    assert_eq!(parse_i64(b"9223372036854775808"), None);
    assert_eq!(parse_i64(b"-9223372036854775809"), None);
    assert_eq!(parse_i64(b""), None);
    assert_eq!(parse_i64(b"-"), None);
    assert_eq!(parse_i64(b"12a"), None);
}

#[test]
fn parse_i32_bounds() {
    assert_eq!(parse_i32(b"2147483647"), Some(i32::MAX));
    assert_eq!(parse_i32(b"-2147483648"), Some(i32::MIN));
    assert_eq!(parse_i32(b"2147483648"), None);
}

#[test]
fn printing_round_trips_through_parsing() {
    for v in [0i64, 7, -7, 1000, -1000, i64::MAX, i64::MIN] {
        let text = int_bytes(v);
        assert_eq!(parse_i64(&text), Some(v));
    }
    assert_eq!(dec_bytes(0), b"0".to_vec());
    assert_eq!(dec_bytes(90105), b"90105".to_vec());
    assert_eq!(int_bytes(-205), b"-205".to_vec());
}
