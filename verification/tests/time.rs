use room_schedule::time::TimeParseError;
use room_schedule::{parse_time, time_cmp, time_in_range};
use std::cmp::Ordering;

#[test]
fn parse_time_reads_hour_and_minute() {
    assert_eq!(parse_time("08:00"), Ok((8, 0)));
    assert_eq!(parse_time("17:30"), Ok((17, 30)));
    assert_eq!(parse_time("00:00"), Ok((0, 0)));
    assert_eq!(parse_time("23:59"), Ok((23, 59)));
}

#[test]
fn parse_time_accepts_short_and_signed_fields() {
    assert_eq!(parse_time("8:5"), Ok((8, 5)));
    assert_eq!(parse_time("+8:+05"), Ok((8, 5)));
    assert_eq!(parse_time("0008:0000030"), Ok((8, 30)));
}

#[test]
fn parse_time_does_not_bound_hours_or_minutes() {
    assert_eq!(parse_time("99:99"), Ok((99, 99)));
    assert_eq!(parse_time("24:60"), Ok((24, 60)));
    assert_eq!(parse_time("4294967295:4294967295"), Ok((u32::MAX, u32::MAX)));
}

#[test]
fn parse_time_rejects_numbers_that_do_not_fit() {
    assert_eq!(parse_time("4294967296:00"), Err(TimeParseError::InvalidNumber));
    assert_eq!(parse_time("00:99999999999"), Err(TimeParseError::InvalidNumber));
}

#[test]
fn parse_time_checks_and_ignores_later_fields() {
    assert_eq!(parse_time("08:00:30"), Ok((8, 0)));
    assert_eq!(parse_time("08:00:30:7"), Ok((8, 0)));
    assert_eq!(parse_time("08:00:"), Err(TimeParseError::InvalidNumber));
    assert_eq!(parse_time("08:00:xx"), Err(TimeParseError::InvalidNumber));
}

#[test]
fn parse_time_rejects_what_is_no_number() {
    assert_eq!(parse_time(""), Err(TimeParseError::InvalidNumber));
    assert_eq!(parse_time(":"), Err(TimeParseError::InvalidNumber));
    assert_eq!(parse_time("08:"), Err(TimeParseError::InvalidNumber));
    assert_eq!(parse_time(":30"), Err(TimeParseError::InvalidNumber));
    assert_eq!(parse_time("08:xx"), Err(TimeParseError::InvalidNumber));
    assert_eq!(parse_time("-1:00"), Err(TimeParseError::InvalidNumber));
    assert_eq!(parse_time("+:00"), Err(TimeParseError::InvalidNumber));
    assert_eq!(parse_time("++1:00"), Err(TimeParseError::InvalidNumber));
    assert_eq!(parse_time(" 08:00"), Err(TimeParseError::InvalidNumber));
    assert_eq!(parse_time("08:00\n"), Err(TimeParseError::InvalidNumber));
    assert_eq!(parse_time("08:0_0"), Err(TimeParseError::InvalidNumber));
    assert_eq!(parse_time("\u{0660}\u{0668}:00"), Err(TimeParseError::InvalidNumber));
    assert_eq!(parse_time("abc"), Err(TimeParseError::InvalidNumber));
}

#[test]
fn parse_time_needs_minutes() {
    assert_eq!(parse_time("8"), Err(TimeParseError::MissingMinutes));
    assert_eq!(parse_time("0800"), Err(TimeParseError::MissingMinutes));
}

#[test]
fn parse_time_agrees_with_std_on_each_field() {
    let fields = ["0", "7", "08", "59", "+3", "+", "", "-0", "4294967295", "4294967296", "1e3", "٣"];
    for h in fields {
        for m in fields {
            let text = format!("{}:{}", h, m);
            let expected = match (h.parse::<u32>(), m.parse::<u32>()) {
                (Ok(hours), Ok(minutes)) => Ok((hours, minutes)),
                _ => Err(TimeParseError::InvalidNumber),
            };
            assert_eq!(parse_time(&text), expected);
        }
    }
}

#[test]
fn time_cmp_is_equal_for_the_same_hour_and_minute() {
    assert_eq!(time_cmp("08:00", "08:00"), Ordering::Equal);
    assert_eq!(time_cmp("8:0", "08:00"), Ordering::Equal);
    assert_eq!(time_cmp("+8:00", "08:00:59"), Ordering::Equal);
    assert_ne!(time_cmp("08:00", "08:01"), Ordering::Equal);
    assert_ne!(time_cmp("08:00", "09:00"), Ordering::Equal);
}

#[test]
fn time_cmp_orders_by_hour_then_minute() {
    assert_eq!(time_cmp("07:59", "08:00"), Ordering::Less);
    assert_eq!(time_cmp("08:00", "07:59"), Ordering::Greater);
    assert_eq!(time_cmp("08:00", "08:30"), Ordering::Less);
    assert_eq!(time_cmp("08:30", "08:00"), Ordering::Greater);
    assert_eq!(time_cmp("09:00", "08:59"), Ordering::Greater);
    assert_eq!(time_cmp("9:00", "10:00"), Ordering::Less);
    assert_eq!(time_cmp("99:99", "23:59"), Ordering::Greater);
}

#[test]
fn time_cmp_is_a_total_order_on_samples() {
    let times = ["00:00", "07:59", "08:00", "8:00", "08:30", "12:99", "17:00", "23:59", "99:99"];
    for a in times {
        assert_eq!(time_cmp(a, a), Ordering::Equal);
        for b in times {
            assert_eq!(time_cmp(a, b), time_cmp(b, a).reverse());
            assert_eq!(
                time_cmp(a, b) == Ordering::Equal,
                parse_time(a) == parse_time(b)
            );
            for c in times {
                if time_cmp(a, b) != Ordering::Greater && time_cmp(b, c) != Ordering::Greater {
                    assert_ne!(time_cmp(a, c), Ordering::Greater);
                }
            }
        }
    }
}

#[test]
fn time_in_range_business_hours() {
    assert!(time_in_range("08:00", "08:00", "17:00"));
    assert!(!time_in_range("07:59", "08:00", "17:00"));
    assert!(!time_in_range("17:01", "08:00", "17:00"));
    assert!(time_in_range("12:30", "08:00", "17:00"));
    assert!(time_in_range("12:99", "08:00", "17:00"));
    assert!(time_in_range("17:00", "08:00", "17:00"));
}

#[test]
fn time_in_range_tests_minutes_in_the_boundary_hours_only() {
    assert!(time_in_range("08:45", "08:30", "17:15"));
    assert!(!time_in_range("08:15", "08:30", "17:15"));
    assert!(time_in_range("17:15", "08:30", "17:15"));
    assert!(!time_in_range("17:16", "08:30", "17:15"));
    assert!(time_in_range("09:00", "08:30", "17:15"));
    assert!(time_in_range("16:59", "08:30", "17:15"));
}

#[test]
fn time_in_range_within_one_hour() {
    assert!(time_in_range("08:10", "08:00", "08:30"));
    assert!(time_in_range("08:00", "08:00", "08:30"));
    assert!(time_in_range("08:30", "08:00", "08:30"));
    assert!(!time_in_range("08:31", "08:00", "08:30"));
    assert!(!time_in_range("08:10", "08:20", "08:30"));
    assert!(time_in_range("08:00", "08:00", "08:00"));
}

#[test]
fn time_in_range_is_empty_when_the_ends_are_swapped() {
    assert!(!time_in_range("12:00", "17:00", "08:00"));
    assert!(!time_in_range("17:00", "17:00", "08:00"));
    assert!(!time_in_range("08:00", "17:00", "08:00"));
    assert!(!time_in_range("08:15", "08:30", "08:00"));
}

#[test]
fn time_in_range_is_the_interval_of_the_order() {
    let times = ["00:00", "07:59", "08:00", "08:15", "08:30", "12:99", "17:00", "17:01", "23:59"];
    for t in times {
        for start in times {
            for end in times {
                let between = time_cmp(start, t) != Ordering::Greater
                    && time_cmp(t, end) != Ordering::Greater;
                assert_eq!(time_in_range(t, start, end), between);
            }
        }
    }
}
