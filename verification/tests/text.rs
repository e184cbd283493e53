//! Decimal texts, stamps and numbers.

use hop_relayd::text::{chars_of, hms, parse_unsigned, push_decimal, same_text};

#[test]
fn hms_formats_utc_hms_and_wraps_at_a_day() {
    assert_eq!(hms(0), "00:00:00");
    assert_eq!(hms(1_000), "00:00:01");
    assert_eq!(hms(61_000), "00:01:01");
    assert_eq!(hms(3_661_000), "01:01:01");
    // 25h past the epoch wraps back to 01:00:00.
    assert_eq!(hms(25 * 3_600_000), "01:00:00");
    // Sub-second ms are floored, not rounded up.
    assert_eq!(hms(1_999), "00:00:01");
}

#[test]
fn hms_at_the_end_of_time() {
    assert_eq!(hms(86_399_999), "23:59:59");
    assert_eq!(hms(u64::MAX).len(), 8);
}

#[test]
fn decimals_are_written_as_the_standard_library_writes_them() {
    for n in [0, 7, 10, 99, 100, 1_024, 4_294_967_296, u64::MAX] {
        let mut s = String::from("n=");
        push_decimal(&mut s, n);
        assert_eq!(s, format!("n={n}"));
    }
}

#[test]
fn unsigned_numbers_parse_as_the_standard_library_parses_them() {
    let cases = [
        "", "+", "-", "0", "-0", "007", "+12", "++1", "12a", " 1", "1 ", "300",
        "18446744073709551615", "18446744073709551616", "99999999999999999999999", "1_000", "١",
    ];
    for s in cases {
        assert_eq!(parse_unsigned(s, u64::MAX), s.parse::<u64>().ok(), "{s:?}");
    }
    assert_eq!(parse_unsigned("256", 255), None);
    assert_eq!(parse_unsigned("255", 255), Some(255));
}

#[test]
fn texts_are_compared_by_their_characters() {
    assert!(same_text("", ""));
    assert!(same_text("añ→", "añ→"));
    assert!(!same_text("a", "b"));
    assert!(!same_text("a", "aa"));
    assert_eq!(chars_of("añ→"), vec!['a', 'ñ', '→']);
}
