//! Dates of the Gregorian calendar, and times as text.

use crate::text::{padded, padded_text};
use vstd::prelude::*;
use vstd::string::StringExecFns;

verus! {

pub open spec fn is_leap(y: int) -> bool {
    y % 4 == 0 && (y % 100 != 0 || y % 400 == 0)
}

/// Days of a year.
pub open spec fn year_len(y: int) -> int {
    if is_leap(y) {
        366
    } else {
        365
    }
}

/// Days of a month, counted from one.
pub open spec fn month_len(y: int, m: int) -> int {
    if m == 2 {
        if is_leap(y) {
            29
        } else {
            28
        }
    } else if m == 4 || m == 6 || m == 9 || m == 11 {
        30
    } else {
        31
    }
}

/// Days before the first day of a year, counted from the first day of the year one.
pub open spec fn days_before_year(y: int) -> int {
    365 * (y - 1) + (y - 1) / 4 - (y - 1) / 100 + (y - 1) / 400
}

/// Days of a year before the first day of a month.
pub open spec fn days_before_month(y: int, m: int) -> int
    decreases m,
{
    if m <= 1 {
        0
    } else {
        days_before_month(y, m - 1) + month_len(y, m - 1)
    }
}

pub open spec fn valid_date(y: int, m: int, d: int) -> bool {
    1 <= y && 1 <= m <= 12 && 1 <= d <= month_len(y, m)
}

/// Days before the first of January 1970, counted from the first day of the year one.
pub const EPOCH_DAYS: u64 = 719162;

/// Days from the first of January 1970 to a date.
pub open spec fn day_number(y: int, m: int, d: int) -> int {
    days_before_year(y) - EPOCH_DAYS + days_before_month(y, m) + d - 1
}

proof fn lemma_year_step(y: int)
    requires
        y >= 1,
    ensures
        days_before_year(y + 1) == days_before_year(y) + year_len(y),
{
    let n = y - 1;
    assert((n + 1) / 4 == n / 4 + (if (n + 1) % 4 == 0 {
        1int
    } else {
        0
    }));
    assert((n + 1) / 100 == n / 100 + (if (n + 1) % 100 == 0 {
        1int
    } else {
        0
    }));
    assert((n + 1) / 400 == n / 400 + (if (n + 1) % 400 == 0 {
        1int
    } else {
        0
    }));
    assert((n + 1) % 400 == 0 ==> (n + 1) % 100 == 0);
    assert((n + 1) % 100 == 0 ==> (n + 1) % 4 == 0);
}

proof fn lemma_months_fill_year(y: int, m: int)
    requires
        1 <= m <= 12,
    ensures
        days_before_month(y, m) + month_len(y, m) <= year_len(y),
        days_before_month(y, 12) + 31 == year_len(y),
        0 <= days_before_month(y, m),
{
    reveal_with_fuel(days_before_month, 13);
}

proof fn lemma_years_ordered(a: int, b: int)
    requires
        1 <= a <= b,
    ensures
        days_before_year(a) <= days_before_year(b),
    decreases b - a,
{
    if a < b {
        lemma_years_ordered(a, b - 1);
        lemma_year_step(b - 1);
    }
}

proof fn lemma_months_ordered(y: int, a: int, b: int)
    requires
        1 <= a < b <= 12,
    ensures
        days_before_month(y, a) + month_len(y, a) <= days_before_month(y, b),
    decreases b - a,
{
    if a + 1 < b {
        lemma_months_ordered(y, a, b - 1);
    }
}

/// A date that comes first in the order of year, month and day has the smaller number, so that no
/// two dates share one.
pub proof fn law_day_numbers_are_ordered(y: int, m: int, d: int, y2: int, m2: int, d2: int)
    requires
        valid_date(y, m, d),
        valid_date(y2, m2, d2),
        y < y2 || y == y2 && (m < m2 || m == m2 && d < d2),
    ensures
        day_number(y, m, d) < day_number(y2, m2, d2),
{
    lemma_months_fill_year(y, m);
    lemma_months_fill_year(y2, m2);
    if y < y2 {
        lemma_year_step(y);
        lemma_years_ordered(y + 1, y2);
    } else if m < m2 {
        lemma_months_ordered(y, m, m2);
    }
}

/// The latest day whose year fits in 32 bits.
pub const LAST_DAY: u64 = 1_568_703_873_081;

/// The date of a day counted from the first of January 1970: year, month and day.
pub fn days_to_ymd(days: u64) -> (r: (u32, u32, u32))
    requires
        days <= LAST_DAY,
    ensures
        valid_date(r.0 as int, r.1 as int, r.2 as int),
        day_number(r.0 as int, r.1 as int, r.2 as int) == days,
{
    let total: u64 = days + EPOCH_DAYS;
    let cycles: u64 = total / 146097;
    let first: u64 = 400 * cycles + 1;
    let mut y: u64 = first;
    let mut rest: u64 = total % 146097;
    proof {
        let n = 400 * cycles as int;
        assert(n / 4 == 100 * cycles);
        assert(n / 100 == 4 * cycles);
        assert(n / 400 == cycles);
        assert(days_before_year(first as int) == 146097 * cycles);
    }
    loop
        invariant
            first <= y,
            first == 400 * cycles + 1,
            cycles <= 10_737_418,
            total == days + EPOCH_DAYS,
            days <= LAST_DAY,
            days_before_year(y as int) + rest == total,
            365 * (y - first) + rest <= 146096,
        ensures
            rest < year_len(y as int),
            days_before_year(y as int) + rest == total,
            1 <= y <= u32::MAX,
        decreases rest,
    {
        let leap = y % 4 == 0 && (y % 100 != 0 || y % 400 == 0);
        let len: u64 = if leap {
            366
        } else {
            365
        };
        if rest < len {
            proof {
                if y > u32::MAX {
                    lemma_years_ordered(0x1_0000_0000, y as int);
                }
            }
            break;
        }
        proof {
            lemma_year_step(y as int);
        }
        rest = rest - len;
        y = y + 1;
    }
    let ghost doy = rest as int;
    let mut m: u64 = 1;
    loop
        invariant
            1 <= m <= 12,
            1 <= y <= u32::MAX,
            doy < year_len(y as int),
            days_before_month(y as int, m as int) + rest == doy,
        ensures
            1 <= m <= 12,
            rest < month_len(y as int, m as int),
            days_before_month(y as int, m as int) + rest == doy,
        decreases rest,
    {
        let leap = y % 4 == 0 && (y % 100 != 0 || y % 400 == 0);
        let len: u64 = if m == 2 {
            if leap {
                29
            } else {
                28
            }
        } else if m == 4 || m == 6 || m == 9 || m == 11 {
            30
        } else {
            31
        };
        if rest < len {
            break;
        }
        proof {
            lemma_months_fill_year(y as int, m as int);
        }
        rest = rest - len;
        m = m + 1;
    }
    (y as u32, m as u32, (rest + 1) as u32)
}

/// The text of a time: the date of its day and the time of day to the microsecond.
pub open spec fn rfc3339_text(micros: int, y: int, m: int, d: int) -> Seq<char> {
    let of_day = micros / 1_000_000 % 86400;
    padded_text(y as nat, 4) + "-"@ + padded_text(m as nat, 2) + "-"@ + padded_text(d as nat, 2)
        + "T"@ + padded_text((of_day / 3600) as nat, 2) + ":"@ + padded_text(
        (of_day % 3600 / 60) as nat,
        2,
    ) + ":"@ + padded_text((of_day % 60) as nat, 2) + "."@ + padded_text(
        (micros % 1_000_000) as nat,
        6,
    ) + "Z"@
}

/// The text is that of a time in microseconds since the Unix epoch.
pub open spec fn is_time_text(t: Seq<char>, micros: u64) -> bool {
    exists|y: int, m: int, d: int|
        valid_date(y, m, d) && day_number(y, m, d) == micros / 86_400_000_000 && t
            == #[trigger] rfc3339_text(micros as int, y, m, d)
}

/// Writes a time in microseconds since the Unix epoch.
pub fn micros_to_rfc3339(micros: u64) -> (r: String)
    ensures
        is_time_text(r@, micros),
{
    let secs: u64 = micros / 1_000_000;
    let frac: u64 = micros % 1_000_000;
    let days: u64 = secs / 86400;
    let of_day: u64 = secs % 86400;
    let (year, month, day) = days_to_ymd(days);
    let mut out = padded(year as u64, 4);
    out.append("-");
    out.append(padded(month as u64, 2).as_str());
    out.append("-");
    out.append(padded(day as u64, 2).as_str());
    out.append("T");
    out.append(padded(of_day / 3600, 2).as_str());
    out.append(":");
    out.append(padded(of_day % 3600 / 60, 2).as_str());
    out.append(":");
    out.append(padded(of_day % 60, 2).as_str());
    out.append(".");
    out.append(padded(frac, 6).as_str());
    out.append("Z");
    proof {
        assert(micros / 1_000_000 / 86400 == micros / 86_400_000_000);
        assert(out@ == rfc3339_text(micros as int, year as int, month as int, day as int));
    }
    out
}

/// A time has one text.
pub proof fn law_time_text_is_unique(a: Seq<char>, b: Seq<char>, micros: u64)
    requires
        is_time_text(a, micros),
        is_time_text(b, micros),
    ensures
        a == b,
{
    let (y, m, d) = choose|y: int, m: int, d: int|
        valid_date(y, m, d) && day_number(y, m, d) == micros / 86_400_000_000 && a
            == #[trigger] rfc3339_text(micros as int, y, m, d);
    let (y2, m2, d2) = choose|y: int, m: int, d: int|
        valid_date(y, m, d) && day_number(y, m, d) == micros / 86_400_000_000 && b
            == #[trigger] rfc3339_text(micros as int, y, m, d);
    if y < y2 || y == y2 && (m < m2 || m == m2 && d < d2) {
        law_day_numbers_are_ordered(y, m, d, y2, m2, d2);
    }
    if y2 < y || y2 == y && (m2 < m || m2 == m && d2 < d) {
        law_day_numbers_are_ordered(y2, m2, d2, y, m, d);
    }
}

/// Each day is followed by the next: within a month, over the end of a month and over the end of a
/// year. The count starts on the first of January 1970.
pub proof fn law_days_follow_one_another(y: int, m: int, d: int)
    requires
        valid_date(y, m, d),
    ensures
        day_number(1970, 1, 1) == 0,
        d < month_len(y, m) ==> day_number(y, m, d + 1) == day_number(y, m, d) + 1,
        d == month_len(y, m) && m < 12 ==> day_number(y, m + 1, 1) == day_number(y, m, d) + 1,
        d == month_len(y, m) && m == 12 ==> day_number(y + 1, 1, 1) == day_number(y, m, d) + 1,
        month_len(y, 1) == 31 && month_len(y, 3) == 31 && month_len(y, 4) == 30 && month_len(y, 5)
            == 31 && month_len(y, 6) == 30 && month_len(y, 7) == 31 && month_len(y, 8) == 31
            && month_len(y, 9) == 30 && month_len(y, 10) == 31 && month_len(y, 11) == 30
            && month_len(y, 12) == 31,
        month_len(y, 2) == 29 <==> y % 400 == 0 || y % 4 == 0 && y % 100 != 0,
        month_len(y, 2) == 28 || month_len(y, 2) == 29,
{
    lemma_year_step(y);
    lemma_months_fill_year(y, 12);
    reveal_with_fuel(days_before_month, 2);
}

/// The time of day in a text is that of the time: hours, minutes and seconds of its day, and the
/// microseconds of its second.
pub proof fn law_text_shows_the_time_of_day(
    y: int,
    m: int,
    d: int,
    days: int,
    hour: int,
    minute: int,
    second: int,
    micro: int,
)
    requires
        0 <= days,
        0 <= hour < 24,
        0 <= minute < 60,
        0 <= second < 60,
        0 <= micro < 1_000_000,
    ensures
        rfc3339_text(
            (((days * 24 + hour) * 60 + minute) * 60 + second) * 1_000_000 + micro,
            y,
            m,
            d,
        ) == padded_text(y as nat, 4) + "-"@ + padded_text(m as nat, 2) + "-"@ + padded_text(
            d as nat,
            2,
        ) + "T"@ + padded_text(hour as nat, 2) + ":"@ + padded_text(minute as nat, 2) + ":"@
            + padded_text(second as nat, 2) + "."@ + padded_text(micro as nat, 6) + "Z"@,
{
    lemma_time_of_day(days, hour, minute, second, micro);
}

proof fn lemma_time_of_day(days: int, hour: int, minute: int, second: int, micro: int)
    requires
        0 <= days,
        0 <= hour < 24,
        0 <= minute < 60,
        0 <= second < 60,
        0 <= micro < 1_000_000,
    ensures
        ({
            let t = (((days * 24 + hour) * 60 + minute) * 60 + second) * 1_000_000 + micro;
            let of_day = t / 1_000_000 % 86400;
            &&& of_day / 3600 == hour
            &&& of_day % 3600 / 60 == minute
            &&& of_day % 60 == second
            &&& t % 1_000_000 == micro
        }),
{
    let secs = ((days * 24 + hour) * 60 + minute) * 60 + second;
    let t = secs * 1_000_000 + micro;
    assert(t / 1_000_000 == secs && t % 1_000_000 == micro);
    assert(secs == days * 86400 + (hour * 3600 + minute * 60 + second));
    assert(secs % 86400 == hour * 3600 + minute * 60 + second);
}

} // verus!
