use flipperclipper::calendar::{stamp_since, utc_stamp, YEAR_10000};
use flipperclipper::base64::base64_encode;
use flipperclipper::number::{
    clamp64, decimal_text, div_even, div_round, fmt_num, fmt_ratio, fmt_time, part_way, scale_by,
    share, signed_text, ONE,
};
use flipperclipper::progress::{is_recent, parse_timestamp, ProgressReader};
use flipperclipper::reading::{read_number, Reading};
use flipperclipper::tempo::atempo_chain;

fn q(v: f64) -> i64 {
    (v * 1e9).round() as i64
}

fn chars(s: &str) -> Vec<char> {
    s.chars().collect()
}

/// Six decimals, with the zeros behind them taken off but one.
fn trimmed_six(v: f64) -> String {
    let s = format!("{:.6}", v);
    let kept = s.trim_end_matches('0');
    if kept.ends_with('.') {
        format!("{kept}0")
    } else {
        kept.to_string()
    }
}

#[test]
fn numbers_print_as_six_decimals_without_their_zeros() {
    for v in [
        0.0, 1.0, 1.5, 0.25, 2.2, 0.1, 59.94, 23.976024, 0.000001, 1234567.891, -0.5, -3.0, -12.25,
    ] {
        assert_eq!(fmt_num(q(v)), trimmed_six(v), "{v}");
    }
    assert_eq!(fmt_num(q(29.97)), "29.97");
    assert_eq!(fmt_num(q(2.0)), "2.0");
    assert_eq!(fmt_ratio(1, 3), "0.333333");
    assert_eq!(fmt_ratio(2, 3), "0.666667");
}

#[test]
fn times_print_as_three_decimals() {
    for v in [0.0, 1.5, 11.5, 0.1234, 3599.999, 86400.25] {
        assert_eq!(fmt_time(q(v)), format!("{:.3}", v), "{v}");
    }
    assert_eq!(fmt_time(q(1.5)), "1.500");
}

#[test]
fn a_decimal_half_way_between_two_prints_as_its_double_does() {
    for k in 0..3000_i64 {
        for whole in [0_i64, 1, 7, 4096, 3_000_000] {
            let v = whole * ONE + k * 1000 + 500;
            assert_eq!(fmt_num(v), trimmed_six(v as f64 / 1e9), "{v}");
            let t = whole * ONE + k * 1_000_000 + 500_000;
            assert_eq!(fmt_time(t), format!("{:.3}", t as f64 / 1e9), "{t}");
        }
    }
    assert_eq!(fmt_num(-1_000_000_500), trimmed_six(-1.0000005));
    assert_eq!(fmt_num(i64::MAX), trimmed_six(9_223_372_036.854_775_807));
    assert_eq!(fmt_time(-1), "0.000");
    assert_eq!(fmt_num(1), "0.0");
}

/// The tempo chain worked out in doubles.
fn stages(speed: f64) -> Vec<String> {
    let mut left = speed;
    let mut parts = Vec::new();
    while left > 2.0 + 1e-9 {
        parts.push("atempo=2.0".to_string());
        left /= 2.0;
    }
    while left < 0.5 - 1e-9 {
        parts.push("atempo=0.5".to_string());
        left /= 0.5;
    }
    if (left - 1.0).abs() > 1e-9 {
        parts.push(format!("atempo={}", trimmed_six(left)));
    }
    parts
}

#[test]
fn tempo_stages_are_those_of_the_doubles() {
    for near in [62_500_000_i64, 125_000_000, 500_000_000, ONE, 2 * ONE, 4 * ONE, 3_000_001_000, 16 * ONE] {
        for off in -40..=40_i64 {
            let v = near + off;
            assert_eq!(atempo_chain(v), stages(v as f64 / 1e9), "{v}");
        }
    }
}

#[test]
fn whole_numbers_print_as_themselves() {
    for n in [0, 7, 10, 4096, u64::MAX] {
        assert_eq!(decimal_text(n), n.to_string());
    }
    for n in [0, -1, 42, i64::MIN, i64::MAX] {
        assert_eq!(signed_text(n), n.to_string());
    }
}

#[test]
fn division_rounds_to_the_nearest() {
    assert_eq!(div_round(7, 2), 4);
    assert_eq!(div_round(1, 3), 0);
    assert_eq!(div_round(-7, 2), -4);
    assert_eq!(div_even(1, 2), 0);
    assert_eq!(div_even(3, 2), 2);
    assert_eq!(div_even(5, 2), 2);
    assert_eq!(clamp64(i128::MAX), i64::MAX);
    assert_eq!(clamp64(i128::MIN), i64::MIN);
    assert_eq!(clamp64(-5), -5);
}

#[test]
fn quantities_scale_in_billionths() {
    assert_eq!(scale_by(q(2.0), q(1.5)), q(3.0));
    assert_eq!(part_way(q(1.0), q(3.0), 1, 2), q(2.0));
    assert_eq!(part_way(q(3.0), q(1.0), 1, 4), q(2.5));
    assert_eq!(share(10, 1, 4), (2, 2));
    assert_eq!(ONE, 1_000_000_000);
}

#[test]
fn numbers_are_read_the_way_they_are_written() {
    let value = |s: &str| match read_number(&chars(s), 9) {
        Some(Reading::Value(v)) => Some(v),
        _ => None,
    };
    assert_eq!(value("1.5"), Some(q(1.5)));
    assert_eq!(value("-0.25"), Some(q(-0.25)));
    assert_eq!(value("1e3"), Some(q(1000.0)));
    assert_eq!(value("2.5E-1"), Some(q(0.25)));
    assert_eq!(value(".5"), Some(q(0.5)));
    assert_eq!(value("5."), Some(q(5.0)));
    assert_eq!(value(""), None);
    assert_eq!(value("."), None);
    assert_eq!(value("1x"), None);
    assert!(matches!(read_number(&chars("nan"), 9), Some(Reading::NotANumber)));
    assert!(matches!(read_number(&chars("inf"), 9), Some(Reading::Above)));
    assert!(matches!(read_number(&chars("-inf"), 9), Some(Reading::Below)));
}

#[test]
fn what_a_double_cannot_hold_is_infinite_or_zero() {
    for s in [
        "1e400",
        "-1e400",
        "1e308",
        "1.7976931348623157e308",
        "1.7976931348623158e308",
        "1.7976931348623159e308",
        "-1.7976931348623159E+308",
        "17976931348623157000000000000000000000000e270",
        "0.00000000000000000000000000000000000001e346",
        "0.00000000000000000000000000000000000001e347",
        "1e309",
        "0e999",
        "0.000e-999",
        "1e99999999999999999999999999999999",
        "-1e99999999999999999999999999999999",
        "1e-99999999999999999999999999999999",
        "1e-400",
        "1e-323",
        "5e-324",
        "3e-324",
        "2.4703282292062328e-324",
        "2.4703282292062327e-324",
        "-2e-324",
        "-3e-324",
        "0.0000000001",
        "-0.0000000001",
        "0.00000000051",
        "9223372036.854775807",
        "9999999999",
    ] {
        let plain: f64 = s.parse().unwrap();
        match read_number(&chars(s), 9) {
            Some(Reading::Above) => assert_eq!(plain, f64::INFINITY, "{s}"),
            Some(Reading::Below) => assert_eq!(plain, f64::NEG_INFINITY, "{s}"),
            Some(Reading::Value(v)) => {
                assert!(plain.is_finite(), "{s}");
                assert_eq!(v > 0, plain > 0.0, "{s}");
                assert_eq!(v < 0, plain < 0.0, "{s}");
            }
            _ => panic!("{s}"),
        }
    }
    let limit = flipperclipper::reading::TOO_LARGE;
    assert_eq!(limit.parse::<f64>().unwrap(), f64::INFINITY);
    assert!(matches!(read_number(&chars(limit), 9), Some(Reading::Above)));
    let below = limit.replace("174497792", "174497791");
    assert_eq!(below.parse::<f64>().unwrap(), f64::MAX);
    assert!(matches!(read_number(&chars(&below), 9), Some(Reading::Value(i64::MAX))));
    let half = format!("{}e-1075", flipperclipper::reading::VANISHING);
    assert_eq!(half.parse::<f64>().unwrap(), 0.0);
    assert!(matches!(read_number(&chars(&half), 9), Some(Reading::Value(0))));
    let over = format!("{}1e-1076", flipperclipper::reading::VANISHING);
    assert!(over.parse::<f64>().unwrap() > 0.0);
    assert!(matches!(read_number(&chars(&over), 9), Some(Reading::Value(1))));
    // Whole numbers are rounded as such.
    assert!(matches!(read_number(&chars("0.3"), 0), Some(Reading::Value(0))));
    assert!(matches!(read_number(&chars("0.5"), 0), Some(Reading::Value(1))));
}

#[test]
fn a_timestamp_is_hours_minutes_and_seconds() {
    assert!(matches!(
        parse_timestamp("00:01:02.345678"),
        Some(Reading::Value(62_345_678_000))
    ));
    assert!(matches!(
        parse_timestamp("01:00:00"),
        Some(Reading::Value(3_600_000_000_000))
    ));
    assert!(parse_timestamp("N/A").is_none());
}

#[test]
fn progress_is_shown_at_the_end_of_a_block() {
    let total = q(10.0);
    let mut reader = ProgressReader::new();
    assert!(reader.read_progress("out_time_us=2500000", total, false).is_none());
    assert!(reader.read_progress("out_time=00:00:09.0", total, false).is_none());
    assert!(reader.read_progress("speed=2.5x", total, false).is_none());
    assert!(reader.read_progress("noise", total, false).is_none());
    let shown = reader
        .read_progress("progress=continue", total, false)
        .expect("a block ends");
    // The microseconds win over the text.
    assert!(matches!(shown.percent, Reading::Value(250_000_000)));
    assert!(matches!(shown.speed, Some(Reading::Value(2_500_000_000))));
    assert!(matches!(shown.eta_seconds, Some(Reading::Value(3_000_000_000))));

    assert!(reader.read_progress("progress=continue", total, true).is_none());
    assert!(!is_recent(None) && is_recent(Some(49)) && !is_recent(Some(50)));
    let end = reader
        .read_progress("progress=end", total, true)
        .expect("the end is always shown");
    assert!(matches!(end.percent, Reading::Value(ONE)));
    assert!(matches!(end.eta_seconds, Some(Reading::Value(0))));
}

#[test]
fn a_share_never_leaves_its_range() {
    let mut reader = ProgressReader::new();
    reader.read_progress("out_time=00:00:20", q(10.0), false);
    let shown = reader.read_progress("progress=continue", q(10.0), false).unwrap();
    assert!(matches!(shown.percent, Reading::Value(ONE)));
    assert!(shown.eta_seconds.is_none());
    let shown = reader.read_progress("progress=continue", 0, false).unwrap();
    assert!(matches!(shown.percent, Reading::Value(0)));
}

#[test]
fn a_day_of_every_kind_has_its_date() {
    assert_eq!(utc_stamp(86_399), "1970-01-01T23:59:59Z");
    assert_eq!(utc_stamp(86_400), "1970-01-02T00:00:00Z");
    assert_eq!(utc_stamp(68_169_600), "1972-02-29T00:00:00Z");
    assert_eq!(utc_stamp(4_107_542_400), "2100-03-01T00:00:00Z");
    assert_eq!(utc_stamp(4_107_456_000), "2100-02-28T00:00:00Z");
}

#[test]
fn stamps_sort_as_their_moments_do() {
    let moments = [
        0, 1, 59, 60, 3_599, 3_600, 86_399, 86_400, 951_782_400, 1_700_000_000, YEAR_10000 - 1,
    ];
    for a in moments {
        for b in moments {
            assert_eq!(utc_stamp(a) < utc_stamp(b), a < b, "{a} {b}");
            assert_eq!(utc_stamp(a) == utc_stamp(b), a == b, "{a} {b}");
        }
        assert_eq!(utc_stamp(a).len(), 20);
    }
    assert_eq!(utc_stamp(YEAR_10000 - 1), "9999-12-31T23:59:59Z");
    assert_eq!(stamp_since(None), "1970-01-01T00:00:00Z");
    assert_eq!(stamp_since(Some(951_782_400)), "2000-02-29T00:00:00Z");
}

#[test]
fn base64_is_the_plain_standard_kind() {
    assert_eq!(base64_encode(b""), "");
    assert_eq!(base64_encode(b"f"), "Zg==");
    assert_eq!(base64_encode(b"fo"), "Zm8=");
    assert_eq!(base64_encode(b"foo"), "Zm9v");
    assert_eq!(base64_encode(b"foobar"), "Zm9vYmFy");
    assert_eq!(base64_encode(&[0xfb, 0xff, 0xfe]), "+//+");
}
