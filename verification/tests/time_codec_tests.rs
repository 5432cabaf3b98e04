use fixsrt::time::{fields_to_milli, format_srt_time_from_milli, parse_field, parse_srt_time, parse_time_chars};

fn chars(s: &str) -> Vec<char> {
    s.chars().collect()
}

#[test]
fn parse_time_with_hours_counts_3600_seconds_each() {
    assert_eq!(parse_srt_time("01:02:03,004"), Some(3_723_004));
    assert_eq!(parse_srt_time("1:00:00"), Some(3_600_000));
    assert_eq!(parse_srt_time("10:00:00,000"), Some(36_000_000));
    assert_eq!(parse_srt_time("00:01:02,789"), Some(62_789));
}

#[test]
fn parse_time_scenarios() {
    assert_eq!(parse_srt_time("1.247"), Some(1247));
    assert_eq!(parse_srt_time("01:14,28"), Some(74280));
    assert_eq!(parse_srt_time(""), None);
    assert_eq!(parse_srt_time("0.2345"), None);
}

#[test]
fn parse_time_missing_fields_count_as_zero() {
    assert_eq!(parse_srt_time(":5"), Some(5_000));
    assert_eq!(parse_srt_time("5:"), Some(300_000));
    assert_eq!(parse_srt_time("::7"), Some(7_000));
    assert_eq!(parse_srt_time("2::"), Some(7_200_000));
    assert_eq!(parse_srt_time(",5"), Some(500));
    assert_eq!(parse_srt_time(".05"), Some(50));
}

#[test]
fn parse_time_lone_separators_fail() {
    assert_eq!(parse_srt_time(":"), None);
    assert_eq!(parse_srt_time(","), None);
    assert_eq!(parse_srt_time("::"), None);
    assert_eq!(parse_srt_time(":."), None);
    assert_eq!(parse_srt_time("-"), None);
    assert_eq!(parse_srt_time("+"), None);
}

#[test]
fn parse_time_refuses_what_is_no_number() {
    assert_eq!(parse_srt_time("abc"), None);
    assert_eq!(parse_srt_time("1 2"), None);
    assert_eq!(parse_srt_time(" 12"), None);
    assert_eq!(parse_srt_time("12 "), None);
    assert_eq!(parse_srt_time("1.2.3"), None);
    assert_eq!(parse_srt_time("1,2:3"), None);
    assert_eq!(parse_srt_time("--1"), None);
    assert_eq!(parse_srt_time("é:5"), None);
    assert_eq!(parse_srt_time("00:00:１"), None);
}

#[test]
fn parse_time_refuses_more_than_two_colons() {
    assert_eq!(parse_srt_time("1:2:3:4"), None);
    assert_eq!(parse_srt_time("1:2:3:4:5"), None);
    assert_eq!(parse_srt_time(":::"), None);
    assert_eq!(parse_srt_time("0:0:0:0,5"), None);
}

#[test]
fn parse_time_sign_in_any_field_negates_the_whole() {
    assert_eq!(parse_srt_time("-01:00:00,000"), Some(-3_600_000));
    assert_eq!(parse_srt_time("00:-01:00,000"), Some(-60_000));
    assert_eq!(parse_srt_time("00:00:01,-5"), Some(-1_500));
    assert_eq!(parse_srt_time("-00:-01:-02,-003"), Some(-62_003));
    assert_eq!(parse_srt_time("+1:+2:+3"), Some(3_723_000));
    assert_eq!(parse_srt_time("-+5"), Some(-5_000));
    assert_eq!(parse_srt_time("+-5"), None);
}

#[test]
fn parse_time_fraction_is_padded_on_the_right() {
    assert_eq!(parse_srt_time("0,2"), Some(200));
    assert_eq!(parse_srt_time("0,23"), Some(230));
    assert_eq!(parse_srt_time("0,234"), Some(234));
    assert_eq!(parse_srt_time("0,002"), Some(2));
    assert_eq!(parse_srt_time("0,0000"), None);
    assert_eq!(parse_srt_time("0,-234"), Some(-234));
    assert_eq!(parse_srt_time("0,-2345"), None);
}

#[test]
fn parse_time_stays_within_32_bits() {
    assert_eq!(parse_srt_time("596:31:23,647"), Some(i32::MAX));
    assert_eq!(parse_srt_time("596:31:23,648"), None);
    assert_eq!(parse_srt_time("-596:31:23,648"), Some(i32::MIN));
    assert_eq!(parse_srt_time("-596:31:23,649"), None);
    assert_eq!(parse_srt_time("2147483,647"), Some(i32::MAX));
    assert_eq!(parse_srt_time("2147483648"), None);
    assert_eq!(parse_srt_time("4294967295:00:00"), None);
    assert_eq!(parse_srt_time("4294967296"), None);
    assert_eq!(parse_srt_time("99999999999999999999"), None);
}

#[test]
fn parse_time_chars_agrees_with_parse_srt_time() {
    assert_eq!(parse_time_chars(&chars("01:14,28")), Some(74280));
    assert_eq!(parse_time_chars(&chars("x")), None);
}

#[test]
fn parse_field_reads_sign_and_number() {
    assert_eq!(parse_field(&chars("")), Some((false, 0)));
    assert_eq!(parse_field(&chars("12")), Some((false, 12)));
    assert_eq!(parse_field(&chars("-12")), Some((true, 12)));
    assert_eq!(parse_field(&chars("-0")), Some((true, 0)));
    assert_eq!(parse_field(&chars("-")), None);
    assert_eq!(parse_field(&chars("1a")), None);
}

#[test]
fn fields_to_milli_combines_the_fields() {
    assert_eq!(
        fields_to_milli(&chars("1"), &chars("2"), &chars("3"), &chars("4")),
        Some(3_723_400)
    );
    assert_eq!(fields_to_milli(&[], &[], &[], &[]), None);
    assert_eq!(fields_to_milli(&[], &[], &chars("0"), &[]), Some(0));
    assert_eq!(fields_to_milli(&[], &[], &[], &chars("1234")), None);
}

#[test]
fn format_time_scenario() {
    assert_eq!(format_srt_time_from_milli(62789), "00:01:02,789");
}

#[test]
fn format_time_pads_and_signs() {
    assert_eq!(format_srt_time_from_milli(0), "00:00:00,000");
    assert_eq!(format_srt_time_from_milli(1), "00:00:00,001");
    assert_eq!(format_srt_time_from_milli(-1), "-00:00:00,001");
    assert_eq!(format_srt_time_from_milli(-10_000), "-00:00:10,000");
    assert_eq!(format_srt_time_from_milli(3_723_004), "01:02:03,004");
    assert_eq!(format_srt_time_from_milli(360_000_000), "100:00:00,000");
    assert_eq!(format_srt_time_from_milli(i32::MAX), "596:31:23,647");
    assert_eq!(format_srt_time_from_milli(i32::MIN), "-596:31:23,648");
}

#[test]
fn what_is_formatted_parses_back() {
    for t in [
        0,
        1,
        -1,
        999,
        1000,
        -1000,
        59_999,
        60_000,
        3_599_999,
        3_600_000,
        -3_600_001,
        86_400_000,
        i32::MAX,
        i32::MIN,
        i32::MIN + 1,
    ] {
        assert_eq!(parse_srt_time(&format_srt_time_from_milli(t)), Some(t));
    }
}
