//! ISO-8601 UTC timestamps.

use vstd::prelude::*;
use crate::text::{digit, number_text};

verus! {

/// Whether a year has a 29th of February.
pub open spec fn is_leap(year: int) -> bool {
    year % 4 == 0 && (year % 100 != 0 || year % 400 == 0)
}

/// How many days a month has.
pub open spec fn days_in_month(year: int, month: int) -> int {
    if month == 2 {
        if is_leap(year) {
            29
        } else {
            28
        }
    } else if month == 4 || month == 6 || month == 9 || month == 11 {
        30
    } else {
        31
    }
}

/// How many days of the year lie before the month.
pub open spec fn days_before_month(year: int, month: int) -> int
    decreases month,
{
    if month <= 1 {
        0
    } else {
        days_before_month(year, month - 1) + days_in_month(year, month - 1)
    }
}

/// How many days lie between 1970-01-01 and the first day of the year.
pub open spec fn days_before_year(year: int) -> int
    decreases year,
{
    if year <= 1970 {
        0
    } else {
        days_before_year(year - 1) + (if is_leap(year - 1) {
            366int
        } else {
            365int
        })
    }
}

/// Whether the calendar has the date, from 1970 on.
pub open spec fn valid_date(year: int, month: int, day: int) -> bool {
    year >= 1970 && 1 <= month <= 12 && 1 <= day <= days_in_month(year, month)
}

/// How many days after 1970-01-01 the date is.
pub open spec fn day_number(year: int, month: int, day: int) -> int {
    days_before_year(year) + days_before_month(year, month) + day - 1
}

/// Days in the years before `year`, counted in years that begin in March.
spec fn march_days(year: int) -> int {
    365 * year + year / 4 - year / 100 + year / 400
}

proof fn lemma_march_step(year: int)
    requires
        year >= 1,
    ensures
        march_days(year) - march_days(year - 1) == (if is_leap(year) {
            366int
        } else {
            365int
        }),
{
}

proof fn lemma_days_before_year(year: int)
    requires
        year >= 1970,
    ensures
        days_before_year(year) == march_days(year - 1) + 306 - 719468,
    decreases year,
{
    if year > 1970 {
        lemma_days_before_year(year - 1);
        lemma_march_step(year - 1);
    }
}

/// Four hundred years have the same number of days wherever they begin.
pub proof fn lemma_four_hundred_years(year: int)
    requires
        year >= 1970,
    ensures
        days_before_year(year + 400) - days_before_year(year) == 146097,
{
    lemma_days_before_year(year);
    lemma_days_before_year(year + 400);
}

/// The days of the year before each month.
pub proof fn lemma_month_starts(year: int)
    ensures
        days_before_month(year, 1) == 0,
        days_before_month(year, 2) == 31,
        ({
            let leap = if is_leap(year) {
                1int
            } else {
                0int
            };
            &&& days_before_month(year, 3) == 59 + leap
            &&& days_before_month(year, 4) == 90 + leap
            &&& days_before_month(year, 5) == 120 + leap
            &&& days_before_month(year, 6) == 151 + leap
            &&& days_before_month(year, 7) == 181 + leap
            &&& days_before_month(year, 8) == 212 + leap
            &&& days_before_month(year, 9) == 243 + leap
            &&& days_before_month(year, 10) == 273 + leap
            &&& days_before_month(year, 11) == 304 + leap
            &&& days_before_month(year, 12) == 334 + leap
        }),
{
    reveal_with_fuel(days_before_month, 13);
}

/// Within 400 years that begin in March: the year of a day, and what is left of it.
proof fn lemma_year_of_era(doe: u32)
    requires
        doe <= 146096,
    ensures
        ({
            let yoe = (doe - doe / 1460 + doe / 36524 - doe / 146096) / 365;
            let start = 365 * yoe + yoe / 4 - yoe / 100;
            &&& 0 <= yoe <= 399
            &&& start <= doe
            &&& doe - start <= 365
            &&& doe - start == 365 ==> (yoe + 1) % 4 == 0 && ((yoe + 1) % 100 != 0 || yoe + 1 == 400)
        }),
{
    assert(doe <= 146096 ==> ({
        let yoe: u32 = (((doe - doe / 1460) as u32 + doe / 36524 - doe / 146096) as u32) / 365;
        let start: u32 = (365 * yoe + yoe / 4 - yoe / 100) as u32;
        yoe <= 399 && start <= doe && doe - start <= 365 && (doe - start == 365 ==> (yoe + 1) % 4 == 0 && ((yoe + 1)
            % 100 != 0 || yoe + 1 == 400))
    })) by (bit_vector);
}

/// Convert days since the Unix epoch to (year, month, day).
///
/// Algorithm from <http://howardhinnant.github.io/date_algorithms.html>.
pub fn days_to_civil(days: u64) -> (r: (u64, u64, u64))
    requires
        days <= u64::MAX - 719468,
    ensures
        valid_date(r.0 as int, r.1 as int, r.2 as int),
        day_number(r.0 as int, r.1 as int, r.2 as int) == days,
{
    let z: u64 = days + 719468;
    let era: u64 = z / 146097;
    let doe: u64 = z - era * 146097;
    proof {
        lemma_year_of_era(doe as u32);
    }
    let yoe: u64 = (doe - doe / 1460 + doe / 36524 - doe / 146096) / 365;
    let y: u64 = yoe + era * 400;
    let doy: u64 = doe - (365 * yoe + yoe / 4 - yoe / 100);
    let mp: u64 = (5 * doy + 2) / 153;
    let d: u64 = doy - (153 * mp + 2) / 5 + 1;
    let m: u64 = if mp < 10 {
        mp + 3
    } else {
        mp - 9
    };
    let year: u64 = if m <= 2 {
        y + 1
    } else {
        y
    };
    proof {
        lemma_civil_correct(days as int, era as int, doe as int, yoe as int, doy as int, mp as int, d as int);
    }
    (year, m, d)
}

/// The date that the computation arrives at is the date of the day.
proof fn lemma_civil_correct(days: int, era: int, doe: int, yoe: int, doy: int, mp: int, d: int)
    requires
        days >= 0,
        0 <= doe <= 146096,
        days + 719468 == era * 146097 + doe,
        era >= 0,
        0 <= yoe <= 399,
        doe == 365 * yoe + yoe / 4 - yoe / 100 + doy,
        0 <= doy <= 365,
        doy == 365 ==> (yoe + 1) % 4 == 0 && ((yoe + 1) % 100 != 0 || yoe + 1 == 400),
        mp == (5 * doy + 2) / 153,
        d == doy - (153 * mp + 2) / 5 + 1,
    ensures
        ({
            let y = yoe + era * 400;
            let m = if mp < 10 {
                mp + 3
            } else {
                mp - 9
            };
            let year = if m <= 2 {
                y + 1
            } else {
                y
            };
            &&& 0 <= mp <= 11
            &&& valid_date(year, m, d)
            &&& day_number(year, m, d) == days
        }),
{
    let y = yoe + era * 400;
    let m = if mp < 10 {
        mp + 3
    } else {
        mp - 9
    };
    let year = if m <= 2 {
        y + 1
    } else {
        y
    };
    assert(march_days(y) == era * 146097 + 365 * yoe + yoe / 4 - yoe / 100);
    assert(march_days(y) + doy == days + 719468);
    assert(y >= 1969) by {
        if y <= 1968 {
            assert(march_days(y) <= 365 * 1968 + 492);
        }
    }
    assert(y == 1969 ==> doy >= 306) by {
        if y == 1969 {
            assert(march_days(1969) == 719162);
        }
    }
    lemma_days_before_year(y + 1);
    lemma_march_step(y);
    lemma_march_step(y + 1);
    lemma_month_starts(year);
    assert(is_leap(y + 1) == ((yoe + 1) % 4 == 0 && ((yoe + 1) % 100 != 0 || yoe + 1 == 400)));
    if m > 2 {
        lemma_days_before_year(y);
    }
}

/// A number below one hundred in two digits.
pub open spec fn two_digits(n: nat) -> Seq<char> {
    seq![crate::text::digit_char(n / 10), crate::text::digit_char(n % 10)]
}

/// Appends a number below one hundred in two digits.
fn push_two_digits(s: &mut String, n: u64)
    requires
        n < 100,
    ensures
        final(s)@ == old(s)@ + two_digits(n as nat),
{
    s.push(digit(n / 10));
    s.push(digit(n % 10));
    assert(s@ =~= old(s)@ + two_digits(n as nat));
}

/// A date and the second of its day as `YYYY-MM-DDTHH:MM:SSZ`.
pub open spec fn timestamp_text(year: nat, month: nat, day: nat, second: nat) -> Seq<char> {
    crate::text::decimal(year) + "-"@ + two_digits(month) + "-"@ + two_digits(day) + "T"@ + two_digits(second / 3600)
        + ":"@ + two_digits(second % 3600 / 60) + ":"@ + two_digits(second % 60) + "Z"@
}

/// The ISO-8601 UTC timestamp of a number of seconds since the Unix epoch.
pub fn chrono_free_timestamp(secs: u64) -> (r: String)
    ensures
        exists|year: nat, month: nat, day: nat|
            valid_date(year as int, month as int, day as int) && day_number(year as int, month as int, day as int)
                == secs / 86400 && r@ == #[trigger] timestamp_text(year, month, day, (secs % 86400) as nat),
{
    let time_of_day: u64 = secs % 86400;
    let hours: u64 = time_of_day / 3600;
    let minutes: u64 = (time_of_day % 3600) / 60;
    let seconds: u64 = time_of_day % 60;
    let (year, month, day) = days_to_civil(secs / 86400);
    let mut r = number_text(year);
    r.append("-");
    push_two_digits(&mut r, month);
    r.append("-");
    push_two_digits(&mut r, day);
    r.append("T");
    push_two_digits(&mut r, hours);
    r.append(":");
    push_two_digits(&mut r, minutes);
    r.append(":");
    push_two_digits(&mut r, seconds);
    r.append("Z");
    assert(r@ == timestamp_text(year as nat, month as nat, day as nat, (secs % 86400) as nat));
    r
}

/// No two dates share a day number, so the timestamp of a day is one text.
pub proof fn law_day_number_is_unique(y1: int, m1: int, d1: int, y2: int, m2: int, d2: int)
    requires
        valid_date(y1, m1, d1),
        valid_date(y2, m2, d2),
        day_number(y1, m1, d1) == day_number(y2, m2, d2),
    ensures
        y1 == y2 && m1 == m2 && d1 == d2,
{
    lemma_day_in_year(y1, m1, d1);
    lemma_day_in_year(y2, m2, d2);
    if y1 < y2 {
        lemma_years_grow(y1 + 1, y2);
    } else if y2 < y1 {
        lemma_years_grow(y2 + 1, y1);
    } else {
        lemma_month_starts(y1);
    }
}

pub proof fn lemma_day_in_year(y: int, m: int, d: int)
    requires
        valid_date(y, m, d),
    ensures
        days_before_year(y) <= day_number(y, m, d) < days_before_year(y + 1),
{
    lemma_month_starts(y);
}

pub proof fn lemma_years_grow(a: int, b: int)
    requires
        1970 <= a <= b,
    ensures
        days_before_year(a) <= days_before_year(b),
    decreases b - a,
{
    if a < b {
        lemma_years_grow(a, b - 1);
    }
}

} // verus!
