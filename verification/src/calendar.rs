//! Moments written as `YYYY-MM-DDThh:mm:ssZ`, and the days of the calendar.

use crate::text::{decimal, digits, digits_end, is_digit, lemma_digits_end};
use vstd::prelude::*;

verus! {

/// A moment.
#[derive(Clone, Copy, Debug, PartialEq, Eq, Structural)]
pub struct Timestamp {
    /// Seconds since the start of 1970.
    pub total_seconds: i64,
    pub hour: u8,
    /// The day of the week, counted from Monday as 0.
    pub weekday_monday0: u8,
}

/// Days from the start of year 0's March to the start of the March of year `march_year`.
pub open spec fn days_to_march(march_year: int) -> int {
    let era = march_year / 400;
    let year = march_year % 400;
    era * 146_097 + year * 365 + year / 4 - year / 100
}

/// The number of the day in the calendar, counted from 1970-01-01 as 0. Years start in March
/// here, so that a leap day is the last day of its year.
pub open spec fn civil_days(year: int, month: int, day: int) -> int {
    let march_year = if month <= 2 { year - 1 } else { year };
    let shifted = if month > 2 { month - 3 } else { month + 9 };
    days_to_march(march_year) + (153 * shifted + 2) / 5 + day - 1 - 719_468
}

/// The numbers that come up in counting the days fit 32 bits.
pub open spec fn civil_fits(year: int, month: int, day: int) -> bool {
    let march_year = if month <= 2 { year - 1 } else { year };
    &&& i32::MIN <= march_year / 400 * 146_097
    &&& i32::MIN <= civil_days(year, month, day)
    &&& civil_days(year, month, day) + 719_468 <= i32::MAX
}

/// The number of the day in the calendar, counted from 1970-01-01 as 0.
pub fn days_from_civil(year: i32, month: u8, day: u8) -> (days: i64)
    requires
        civil_fits(year as int, month as int, day as int),
    ensures
        days == civil_days(year as int, month as int, day as int),
{
    let adjusted_year: i32 = if month <= 2 {
        year - 1
    } else {
        year
    };
    let era: i32 = if adjusted_year >= 0 {
        adjusted_year / 400
    } else {
        -((399 - adjusted_year) / 400)
    };
    assert(era == adjusted_year as int / 400);
    let year_of_era: i32 = adjusted_year - era * 400;
    assert(year_of_era == adjusted_year as int % 400);
    let shifted_month: i32 = if month > 2 {
        month as i32 - 3
    } else {
        month as i32 + 9
    };
    let day_of_year: i32 = ((153 * shifted_month) + 2) / 5 + day as i32 - 1;
    let day_of_era: i32 = year_of_era * 365 + year_of_era / 4 - year_of_era / 100 + day_of_year;
    (era * 146_097 + day_of_era - 719_468) as i64
}

/// The day of the week of a day, as the 8 low bits of the remainder of a division by 7 that
/// rounds towards zero. From three days before 1970 on this counts from Monday as 0.
pub open spec fn weekday(days: int) -> u8 {
    if days + 3 >= 0 {
        ((days + 3) % 7) as u8
    } else if -(days + 3) % 7 == 0 {
        0
    } else {
        (256 - -(days + 3) % 7) as u8
    }
}

/// The number written in part of a text, if only digits stand there.
pub open spec fn field(text: Seq<u8>, start: int, end: int) -> Option<int> {
    let part = text.subrange(start, end);
    if digits_end(part, 0) == part.len() {
        Some(decimal(part))
    } else {
        None
    }
}

/// The moment that a text writes: 20 bytes, with digits where the numbers stand. What separates
/// the numbers is not looked at, nor whether there is such a day or hour.
pub open spec fn moment(text: Seq<u8>) -> Option<Timestamp> {
    if text.len() != 20 {
        None
    } else {
        match (
            field(text, 0, 4),
            field(text, 5, 7),
            field(text, 8, 10),
            field(text, 11, 13),
            field(text, 14, 16),
            field(text, 17, 19),
        ) {
            (Some(year), Some(month), Some(day), Some(hour), Some(minute), Some(second)) => {
                let days = civil_days(year, month, day);
                Some(
                    Timestamp {
                        total_seconds: (days * 86_400 + hour * 3600 + minute * 60 + second) as i64,
                        hour: hour as u8,
                        weekday_monday0: weekday(days),
                    },
                )
            },
            _ => None,
        }
    }
}

/// The number written in part of a text of at most four bytes.
fn read_field(text: &[u8], start: usize, end: usize) -> (value: Option<u32>)
    requires
        start <= end <= text@.len(),
        end - start <= 4,
    ensures
        match value {
            Some(number) => field(text@, start as int, end as int) == Some(number as int) && number
                < 10_000 && (end - start == 2 ==> number < 100),
            None => field(text@, start as int, end as int) is None,
        },
{
    let part = &text[start..end];
    proof {
        let run = digits_end(part@, 0);
        lemma_digits_end(part@, 0);
        lemma_decimal_below(part@.take(run));
    }
    let value = digits(part);
    proof {
        lemma_digits_end(part@, 0);
        if value is Some {
            lemma_decimal_below(part@);
        }
    }
    value
}

/// Up to four digits write a number below ten thousand, two one below a hundred.
proof fn lemma_decimal_below(part: Seq<u8>)
    requires
        part.len() <= 4,
        forall|i: int| 0 <= i < part.len() ==> is_digit(#[trigger] part[i]),
    ensures
        0 <= decimal(part) < 10_000,
        part.len() <= 2 ==> decimal(part) < 100,
{
    reveal_with_fuel(decimal, 5);
}

/// The moment that the bytes write.
pub fn moment_from(bytes: &[u8]) -> (timestamp: Option<Timestamp>)
    ensures
        timestamp == moment(bytes@),
        timestamp matches Some(t) ==> -100_000_000_000 < t.total_seconds < 1_000_000_000_000
            && t.hour < 100,
{
    if bytes.len() != 20 {
        return None;
    }
    let year: i32 = match read_field(bytes, 0, 4) {
        Some(value) => value as i32,
        None => return None,
    };
    let month: u8 = match read_field(bytes, 5, 7) {
        Some(value) => value as u8,
        None => return None,
    };
    let day: u8 = match read_field(bytes, 8, 10) {
        Some(value) => value as u8,
        None => return None,
    };
    let hour: u8 = match read_field(bytes, 11, 13) {
        Some(value) => value as u8,
        None => return None,
    };
    let minute: u8 = match read_field(bytes, 14, 16) {
        Some(value) => value as u8,
        None => return None,
    };
    let second: u8 = match read_field(bytes, 17, 19) {
        Some(value) => value as u8,
        None => return None,
    };
    let days: i64 = days_from_civil(year, month, day);
    let weekday_monday0: u8 = if days + 3 >= 0 {
        ((days + 3) % 7) as u8
    } else {
        let behind: i64 = (-(days + 3)) % 7;
        if behind == 0 {
            0
        } else {
            (256 - behind) as u8
        }
    };
    Some(
        Timestamp {
            total_seconds: days * 86_400 + hour as i64 * 3600 + minute as i64 * 60 + second as i64,
            hour,
            weekday_monday0,
        },
    )
}

/// The moment that a text writes.
pub fn parse_timestamp(value: &str) -> (timestamp: Option<Timestamp>)
    ensures
        timestamp == moment(vstd::utf8::encode_utf8(value@)),
        timestamp matches Some(t) ==> -100_000_000_000 < t.total_seconds < 1_000_000_000_000
            && t.hour < 100,
{
    moment_from(value.as_bytes())
}

/// Whether the year has a leap day.
pub open spec fn is_leap(year: int) -> bool {
    year % 4 == 0 && (year % 100 != 0 || year % 400 == 0)
}

/// How many days a month has.
pub open spec fn month_length(year: int, month: int) -> int {
    if month == 2 {
        if is_leap(year) {
            29
        } else {
            28
        }
    } else if month == 4 || month == 6 || month == 9 || month == 11 {
        30
    } else {
        31
    }
}

/// There is such a day.
pub open spec fn is_date(year: int, month: int, day: int) -> bool {
    1 <= month <= 12 && 1 <= day <= month_length(year, month)
}

/// The day after a day.
pub open spec fn next_date(year: int, month: int, day: int) -> (int, int, int) {
    if day < month_length(year, month) {
        (year, month, day + 1)
    } else if month < 12 {
        (year, month + 1, 1)
    } else {
        (year + 1, 1, 1)
    }
}

/// Days are numbered as the Gregorian calendar has them: 1970-01-01 is day 0, and the day after a
/// day has the next number.
pub proof fn law_days_follow_the_calendar(year: int, month: int, day: int)
    requires
        is_date(year, month, day),
    ensures
        civil_days(1970, 1, 1) == 0,
        ({
            let (y, m, d) = next_date(year, month, day);
            is_date(y, m, d) && civil_days(y, m, d) == civil_days(year, month, day) + 1
        }),
{
    lemma_march_years(year);
}

/// From one March to the next there are 365 days, or 366 with a leap day before the latter.
proof fn lemma_march_years(year: int)
    ensures
        days_to_march(year) == days_to_march(year - 1) + if is_leap(year) {
            366int
        } else {
            365
        },
{
    let era = year / 400;
    let of_era = year % 400;
    lemma_of_era(year, era, of_era);
    if of_era > 0 {
        lemma_quotient(year - 1, era, of_era - 1);
        lemma_steps(of_era, 4);
        lemma_steps(of_era, 100);
    } else {
        lemma_quotient(year - 1, era - 1, 399);
    }
}

/// The quotient and the remainder of a year by 400 are the ones that make it up.
proof fn lemma_quotient(year: int, era: int, of_era: int)
    requires
        year == 400 * era + of_era,
        0 <= of_era < 400,
    ensures
        year / 400 == era,
        year % 400 == of_era,
{
}

/// Remainders of a year by 4 and by 100 are those of the year within its 400 years.
proof fn lemma_of_era(year: int, era: int, of_era: int)
    requires
        era == year / 400,
        of_era == year % 400,
    ensures
        year == 400 * era + of_era,
        0 <= of_era < 400,
        year % 4 == of_era % 4,
        year % 100 == of_era % 100,
{
    assert(year == 400 * era + of_era);
    assert((400 * era + of_era) % 4 == of_era % 4);
    assert((400 * era + of_era) % 100 == of_era % 100);
}

/// A quotient grows by 1 at the multiples of the divisor.
proof fn lemma_steps(number: int, divisor: int)
    requires
        number > 0,
        divisor == 4 || divisor == 100,
    ensures
        number / divisor == (number - 1) / divisor + if number % divisor == 0 {
            1int
        } else {
            0
        },
{
    if divisor == 4 {
        assert(number / 4 == (number - 1) / 4 + if number % 4 == 0 {
            1int
        } else {
            0
        });
    } else {
        assert(number / 100 == (number - 1) / 100 + if number % 100 == 0 {
            1int
        } else {
            0
        });
    }
}

/// From three days before 1970 on, weekdays run from 0 to 6 and on to 0 again; 1970-01-01 was a
/// Thursday.
pub proof fn law_weekdays_follow_each_other(days: int)
    requires
        days >= -3,
    ensures
        weekday(0) == 3,
        weekday(days) < 7,
        weekday(days + 1) == if weekday(days) == 6 {
            0
        } else {
            weekday(days) + 1
        },
{
}

/// A moment is read from 20 bytes with digits in fourteen of them: the year in the first four, then
/// the month, the day, the hour, the minute and the second in two each, with one byte between them.
/// It is as many seconds from the start of 1970 as its days, hours, minutes and seconds make.
pub proof fn law_moments_are_read_digit_by_digit(text: Seq<u8>)
    requires
        text.len() == 20,
        forall|i: int|
            0 <= i < 19 && i != 4 && i != 7 && i != 10 && i != 13 && i != 16 ==> 0x30
                <= #[trigger] text[i] <= 0x39,
    ensures
        ({
            let year = 1000 * (text[0] - 48) + 100 * (text[1] - 48) + 10 * (text[2] - 48) + (text[3]
                - 48);
            let month = 10 * (text[5] - 48) + (text[6] - 48);
            let day = 10 * (text[8] - 48) + (text[9] - 48);
            let hour = 10 * (text[11] - 48) + (text[12] - 48);
            let minute = 10 * (text[14] - 48) + (text[15] - 48);
            let second = 10 * (text[17] - 48) + (text[18] - 48);
            let days = civil_days(year, month, day);
            moment(text) matches Some(read) && read.total_seconds == 86_400 * days + 3600 * hour
                + 60 * minute + second && read.hour == hour && read.weekday_monday0 == weekday(days)
        }),
{
    lemma_two_digits(text, 5);
    lemma_two_digits(text, 8);
    lemma_two_digits(text, 11);
    lemma_two_digits(text, 14);
    lemma_two_digits(text, 17);
    let part = text.subrange(0, 4);
    reveal_with_fuel(decimal, 5);
    reveal_with_fuel(digits_end, 5);
    assert(part.drop_last() =~= text.subrange(0, 3));
    assert(text.subrange(0, 3).drop_last() =~= text.subrange(0, 2));
    assert(text.subrange(0, 2).drop_last() =~= text.subrange(0, 1));
}

/// What two digits write.
proof fn lemma_two_digits(text: Seq<u8>, at: int)
    requires
        0 <= at,
        at + 2 <= text.len(),
        0x30 <= text[at] <= 0x39,
        0x30 <= text[at + 1] <= 0x39,
    ensures
        field(text, at, at + 2) == Some(10 * (text[at] - 48) + (text[at + 1] - 48)),
{
    let part = text.subrange(at, at + 2);
    reveal_with_fuel(decimal, 3);
    reveal_with_fuel(digits_end, 3);
    assert(part.drop_last() =~= text.subrange(at, at + 1));
}

/// No moment is read from any other number of bytes, nor where something else than a digit stands
/// in one of the fourteen places.
pub proof fn law_no_moment_without_its_digits(text: Seq<u8>, at: int)
    requires
        text.len() != 20 || (0 <= at < 19 && at != 4 && at != 7 && at != 10 && at != 13 && at != 16
            && !(0x30 <= text[at] <= 0x39)),
    ensures
        moment(text) is None,
{
    if text.len() == 20 {
        let (start, end) = if at < 4 {
            (0, 4)
        } else if at < 7 {
            (5, 7)
        } else if at < 10 {
            (8, 10)
        } else if at < 13 {
            (11, 13)
        } else if at < 16 {
            (14, 16)
        } else {
            (17, 19)
        };
        let part = text.subrange(start, end);
        lemma_digits_end(part, 0);
        if digits_end(part, 0) == part.len() {
            assert(is_digit(part[at - start]));
        }
    }
}

/// Dates beyond the calendar are counted on: days by one each, months behind the second of a year
/// by 153 days for five of them, from March on, and a month 0 is the December before.
pub proof fn law_days_beyond_the_calendar_count_on(year: int, month: int, day: int)
    ensures
        civil_days(year, month, day) == civil_days(year, month, 1) + day - 1,
        month >= 3 ==> civil_days(year, month, 1) == civil_days(year, 3, 1) + (153 * (month - 3)
            + 2) / 5,
        civil_days(year, 0, day) == civil_days(year - 1, 12, day),
{
}

/// Before that, weekdays are the low bits of a remainder that is not above 0.
pub proof fn law_early_weekdays_are_remainders(days: int, weeks: int, behind: int)
    requires
        days + 3 == -7 * weeks - behind,
        0 <= weeks,
        0 <= behind < 7,
    ensures
        weekday(days) == if behind == 0 {
            0int
        } else {
            256 - behind
        },
{
    assert(-(days + 3) == 7 * weeks + behind);
    assert((7 * weeks + behind) % 7 == behind);
}

} // verus!
