use ivf_fraud::calendar::{days_from_civil, moment_from, parse_timestamp, Timestamp};

fn seconds(text: &str) -> Option<i64> {
    Some(parse_timestamp(text)?.total_seconds)
}

#[test]
fn days_are_counted_from_1970() {
    assert_eq!(days_from_civil(1970, 1, 1), 0);
    assert_eq!(days_from_civil(1969, 12, 31), -1);
    assert_eq!(days_from_civil(2000, 2, 29), 11_016);
    assert_eq!(days_from_civil(2000, 3, 1), 11_017);
    assert_eq!(days_from_civil(2026, 3, 11), 20_523);
    assert_eq!(days_from_civil(0, 3, 1), -719_468);
    assert_eq!(days_from_civil(0, 1, 1), -719_528);
    assert_eq!(days_from_civil(-400, 3, 1), -719_468 - 146_097);
    assert_eq!(days_from_civil(9999, 12, 31), 2_932_896);
}

fn month_days(year: i32, month: u8) -> u8 {
    match month {
        2 if (year % 4 == 0 && year % 100 != 0) || year % 400 == 0 => 29,
        2 => 28,
        4 | 6 | 9 | 11 => 30,
        _ => 31,
    }
}

#[test]
fn days_follow_each_other_through_the_calendar() {
    let mut expected = days_from_civil(1895, 1, 1);
    for year in 1895..2105 {
        for month in 1..=12u8 {
            for day in 1..=month_days(year, month) {
                assert_eq!(days_from_civil(year, month, day), expected, "{year} {month} {day}");
                expected += 1;
            }
        }
    }
}

#[test]
fn moments_are_read_from_twenty_bytes() {
    assert_eq!(
        parse_timestamp("2026-03-11T20:23:35Z"),
        Some(Timestamp { total_seconds: 1_773_260_615, hour: 20, weekday_monday0: 2 })
    );
    assert_eq!(
        parse_timestamp("1970-01-01T00:00:00Z"),
        Some(Timestamp { total_seconds: 0, hour: 0, weekday_monday0: 3 })
    );
    assert_eq!(moment_from(b"2026-03-11T20:23:35Z"), parse_timestamp("2026-03-11T20:23:35Z"));
    assert_eq!(parse_timestamp("2026-03-11T20:23:35"), None);
    assert_eq!(parse_timestamp("2026-03-11T20:23:35Z "), None);
    assert_eq!(parse_timestamp(""), None);
    for at in [0, 1, 2, 3, 5, 6, 8, 9, 11, 12, 14, 15, 17, 18] {
        let mut bytes = b"2026-03-11T20:23:35Z".to_vec();
        bytes[at] = b'x';
        assert_eq!(moment_from(&bytes), None, "{at}");
    }
}

#[test]
fn separators_and_ranges_are_not_looked_at() {
    assert_eq!(seconds("2026/03/11 20.23.35+"), seconds("2026-03-11T20:23:35Z"));
    assert_eq!(seconds("2026-03-11T20:99:99Z"), Some(1_773_259_200 + 99 * 60 + 99));
    assert_eq!(parse_timestamp("2026-03-11T99:00:00Z").unwrap().hour, 99);
}

#[test]
fn weekdays_follow_each_other() {
    assert_eq!(parse_timestamp("2026-03-15T00:00:00Z").unwrap().weekday_monday0, 6);
    assert_eq!(parse_timestamp("2026-03-16T00:00:00Z").unwrap().weekday_monday0, 0);
    assert_eq!(parse_timestamp("1969-12-29T00:00:00Z").unwrap().weekday_monday0, 0);
    assert_eq!(parse_timestamp("1969-12-28T00:00:00Z").unwrap().weekday_monday0, 255);
    assert_eq!(parse_timestamp("1969-12-22T00:00:00Z").unwrap().weekday_monday0, 0);
}
