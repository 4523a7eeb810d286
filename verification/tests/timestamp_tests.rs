use capture_match::StreamError;
use capture_match::timestamp::extract_timestamp;

#[test]
fn test_extract_timestamp_exact_value() {
    // 2021-01-01 is 44195 days after 1900-01-01 (121 years, 30 of them leap),
    // so 12:00:00.000 on it is 44195 * 86400000 + 43200000 ms.
    let ts = extract_timestamp("210101_120000000").unwrap();
    assert_eq!(ts, 3_818_491_200_000);
}

#[test]
fn test_extract_timestamp_millisecond_delta() {
    let a = extract_timestamp("210101_120000000").unwrap();
    let b = extract_timestamp("210101_120000100").unwrap();
    assert_eq!(b - a, 100);
    let c = extract_timestamp("210101_120001000").unwrap();
    assert_eq!(c - a, 1000);
}

#[test]
fn test_extract_timestamp_ignores_suffix() {
    let a = extract_timestamp("210101_120000000").unwrap();
    let b = extract_timestamp("210101_120000000_cam1_extra").unwrap();
    assert_eq!(a, b);
}

#[test]
fn test_extract_timestamp_two_digit_year_window() {
    // 69 and up mean the twentieth century, 68 and below the twenty-first:
    // 1969-01-01 is 25202 days after 1900-01-01.
    let old = extract_timestamp("690101_000000000").unwrap();
    let new = extract_timestamp("680101_000000000").unwrap();
    assert_eq!(old, 2_177_452_800_000);
    assert!(old < new);
}

#[test]
fn test_extract_timestamp_leap_day() {
    assert!(extract_timestamp("240229_120000000").is_ok());
    assert!(extract_timestamp("230229_120000000").is_err());
    // 2000 was a leap year (divisible by 400).
    assert!(extract_timestamp("000229_120000000").is_ok());
}

#[test]
fn test_extract_timestamp_rejects_short_stem() {
    assert!(extract_timestamp("210101_12000000").is_err());
    assert!(extract_timestamp("").is_err());
}

#[test]
fn test_extract_timestamp_rejects_bad_fields() {
    assert!(extract_timestamp("211301_120000000").is_err()); // month 13
    assert!(extract_timestamp("210100_120000000").is_err()); // day 0
    assert!(extract_timestamp("210132_120000000").is_err()); // day 32
    assert!(extract_timestamp("210101_240000000").is_err()); // hour 24
    assert!(extract_timestamp("210101_126000000").is_err()); // minute 60
    assert!(extract_timestamp("210101_120060000").is_err()); // second 60
    assert!(extract_timestamp("210101-120000000").is_err()); // separator
    assert!(extract_timestamp("2101o1_120000000").is_err()); // non-digit
}

#[test]
fn test_extract_timestamp_error_names_stem() {
    match extract_timestamp("not_a_timestamp_at_all") {
        Err(StreamError::ParseError { stem }) => {
            assert_eq!(stem, "not_a_timestamp_at_all");
        },
        _ => panic!("expected a parse error naming the stem"),
    }
}

#[test]
fn test_extract_timestamp_day_rollover() {
    let end = extract_timestamp("210101_235959999").unwrap();
    let next = extract_timestamp("210102_000000000").unwrap();
    assert_eq!(next - end, 1);
}
