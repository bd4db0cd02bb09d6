//! The proleptic Gregorian calendar.

use vstd::prelude::*;

verus! {

/// Whether `year` has a 29th of February.
pub open spec fn leap_year(year: int) -> bool {
    (year % 4 == 0 && year % 100 != 0) || year % 400 == 0
}

/// The number of days in `year`.
pub open spec fn year_length(year: int) -> int {
    if leap_year(year) { 366 } else { 365 }
}

/// The number of days in `month` of `year`, zero when there is no such month.
pub open spec fn month_length(year: int, month: int) -> int {
    if month == 2 {
        if leap_year(year) { 29 } else { 28 }
    } else if month == 4 || month == 6 || month == 9 || month == 11 {
        30
    } else if 1 <= month <= 12 {
        31
    } else {
        0
    }
}

/// The number of days from 1 January 1970 to 1 January of `year`.
pub open spec fn days_to_year(year: int) -> int
    decreases (if year >= 1970 { year - 1970 } else { 1970 - year }),
{
    if year == 1970 {
        0
    } else if year > 1970 {
        days_to_year(year - 1) + year_length(year - 1)
    } else {
        days_to_year(year + 1) - year_length(year)
    }
}

/// The number of days of `year` that precede `month`.
pub open spec fn days_to_month(year: int, month: int) -> int
    decreases month,
{
    if month <= 1 {
        0
    } else {
        days_to_month(year, month - 1) + month_length(year, month - 1)
    }
}

/// Whether the calendar has this date.
pub open spec fn valid_date(year: int, month: int, day: int) -> bool {
    1 <= month <= 12 && 1 <= day <= month_length(year, month)
}

/// The number of days from 1 January 1970 to the given date.
pub open spec fn day_number(year: int, month: int, day: int) -> int {
    days_to_year(year) + days_to_month(year, month) + day - 1
}

/// Whether `date` (year, month, day) is the date `days` days after 1 January 1970.
pub open spec fn is_date_of(date: (int, int, int), days: int) -> bool {
    valid_date(date.0, date.1, date.2) && day_number(date.0, date.1, date.2) == days
}

/// The date (year, month, day) that lies `days` days after 1 January 1970.
pub open spec fn civil_date(days: int) -> (int, int, int) {
    choose|date: (int, int, int)| is_date_of(date, days)
}

/// `days_to_year` in closed form.
pub(crate) proof fn lemma_days_to_year(year: int)
    ensures
        days_to_year(year) == 365 * year + (year - 1) / 4 - (year - 1) / 100 + (year - 1) / 400
            - 719_527,
    decreases (if year >= 1970 { year - 1970 } else { 1970 - year }),
{
    if year > 1970 {
        lemma_days_to_year(year - 1);
        let y = year - 1;
        assert(y / 4 - (y - 1) / 4 == if y % 4 == 0 { 1int } else { 0 });
        assert(y / 100 - (y - 1) / 100 == if y % 100 == 0 { 1int } else { 0 });
        assert(y / 400 - (y - 1) / 400 == if y % 400 == 0 { 1int } else { 0 });
    } else if year < 1970 {
        lemma_days_to_year(year + 1);
        let y = year;
        assert(y / 4 - (y - 1) / 4 == if y % 4 == 0 { 1int } else { 0 });
        assert(y / 100 - (y - 1) / 100 == if y % 100 == 0 { 1int } else { 0 });
        assert(y / 400 - (y - 1) / 400 == if y % 400 == 0 { 1int } else { 0 });
    }
}

/// The number of days from 1 January 1970 to 1 March of a year.
proof fn lemma_march(year: int)
    ensures
        days_to_year(year) + days_to_month(year, 3) == 365 * year + year / 4 - year / 100 + year
            / 400 - 719_468,
        days_to_year(year + 1) == days_to_year(year) + days_to_month(year, 3) + 306,
{
    lemma_days_to_year(year);
    lemma_days_to_year(year + 1);
    lemma_months(year);
    assert(year / 4 - (year - 1) / 4 == if year % 4 == 0 { 1int } else { 0 });
    assert(year / 100 - (year - 1) / 100 == if year % 100 == 0 { 1int } else { 0 });
    assert(year / 400 - (year - 1) / 400 == if year % 400 == 0 { 1int } else { 0 });
}

/// `days_to_month`, month by month.
proof fn lemma_months(year: int)
    ensures
        days_to_month(year, 1) == 0,
        days_to_month(year, 2) == 31,
        days_to_month(year, 3) == month_length(year, 2) + 31,
        days_to_month(year, 4) == days_to_month(year, 3) + 31,
        days_to_month(year, 5) == days_to_month(year, 3) + 61,
        days_to_month(year, 6) == days_to_month(year, 3) + 92,
        days_to_month(year, 7) == days_to_month(year, 3) + 122,
        days_to_month(year, 8) == days_to_month(year, 3) + 153,
        days_to_month(year, 9) == days_to_month(year, 3) + 184,
        days_to_month(year, 10) == days_to_month(year, 3) + 214,
        days_to_month(year, 11) == days_to_month(year, 3) + 245,
        days_to_month(year, 12) == days_to_month(year, 3) + 275,
{
    reveal_with_fuel(days_to_month, 13);
}

/// Inside a 400-year era that starts on 1 March, day `doe` falls in the March-based year `yoe`.
proof fn lemma_year_of_era(doe: int, yoe: int)
    requires
        0 <= doe <= 146_096,
        yoe == (doe - doe / 1460 + doe / 36_524 - doe / 146_096) / 365,
    ensures
        0 <= yoe <= 399,
        0 <= doe - (365 * yoe + yoe / 4 - yoe / 100) <= 365,
        doe - (365 * yoe + yoe / 4 - yoe / 100) == 365 ==> leap_year(yoe + 1),
{
    let b = doe / 36_524;
    if b == 0 {
        assert(doe / 146_096 == 0);
    } else if b == 1 {
        assert(doe / 146_096 == 0);
    } else if b == 2 {
        assert(doe / 146_096 == 0);
    } else if b == 3 {
        assert(doe / 146_096 == 0);
    } else {
        assert(doe == 146_096);
    }
}


/// A date lies inside its year.
pub(crate) proof fn lemma_day_of_year(year: int, month: int, day: int)
    requires
        valid_date(year, month, day),
    ensures
        0 <= days_to_month(year, month) + day - 1 < year_length(year),
{
    lemma_months(year);
}

/// Later years start later.
pub(crate) proof fn lemma_years_ascend(first: int, second: int)
    requires
        first < second,
    ensures
        days_to_year(first) + year_length(first) <= days_to_year(second),
    decreases second - first,
{
    lemma_days_to_year(first);
    lemma_days_to_year(first + 1);
    assert(first / 4 - (first - 1) / 4 == if first % 4 == 0 { 1int } else { 0 });
    assert(first / 100 - (first - 1) / 100 == if first % 100 == 0 { 1int } else { 0 });
    assert(first / 400 - (first - 1) / 400 == if first % 400 == 0 { 1int } else { 0 });
    assert(days_to_year(first) + year_length(first) == days_to_year(first + 1));
    if first + 1 < second {
        lemma_years_ascend(first + 1, second);
    }
}

/// No two dates of the calendar share a day number.
pub proof fn dates_are_unique(first: (int, int, int), second: (int, int, int), days: int)
    requires
        is_date_of(first, days),
        is_date_of(second, days),
    ensures
        first == second,
{
    lemma_day_of_year(first.0, first.1, first.2);
    lemma_day_of_year(second.0, second.1, second.2);
    if first.0 < second.0 {
        lemma_years_ascend(first.0, second.0);
    } else if second.0 < first.0 {
        lemma_years_ascend(second.0, first.0);
    }
    lemma_months(first.0);
}

/// A day counted from 1 March of year 0, its era and its place in the era name its date.
proof fn lemma_civil(days: int, era: int, doe: int, yoe: int, doy: int, mp: int)
    requires
        days + 719_468 == era * 146_097 + doe,
        0 <= doe <= 146_096,
        yoe == (doe - doe / 1460 + doe / 36_524 - doe / 146_096) / 365,
        doy == doe - (365 * yoe + yoe / 4 - yoe / 100),
        mp == (5 * doy + 2) / 153,
    ensures
        0 <= yoe <= 399,
        0 <= doy <= 365,
        0 <= mp <= 11,
        ({
            let month = if mp < 10 { mp + 3 } else { mp - 9 };
            let year = yoe + era * 400 + if month <= 2 { 1int } else { 0 };
            is_date_of((year, month, doy - (153 * mp + 2) / 5 + 1), days)
        }),
{
    lemma_year_of_era(doe, yoe);
    let march_year = yoe + era * 400;
    lemma_march(march_year);
    lemma_months(march_year);
    lemma_months(march_year + 1);
    assert(march_year / 4 == yoe / 4 + 100 * era);
    assert(march_year / 100 == yoe / 100 + 4 * era);
    assert(march_year / 400 == era);
    assert(leap_year(march_year + 1) == leap_year(yoe + 1));
    assert(days == days_to_year(march_year) + days_to_month(march_year, 3) + doy);
}

/// The date that a day's place in its era names is the date of the day.
proof fn lemma_named_date(days: int, era: int, doe: int, yoe: int, doy: int, mp: int)
    requires
        days + 719_468 == era * 146_097 + doe,
        0 <= doe <= 146_096,
        yoe == (doe - doe / 1460 + doe / 36_524 - doe / 146_096) / 365,
        doy == doe - (365 * yoe + yoe / 4 - yoe / 100),
        mp == (5 * doy + 2) / 153,
    ensures
        0 <= yoe <= 399,
        0 <= doy <= 365,
        0 <= mp <= 11,
        ({
            let month = if mp < 10 { mp + 3 } else { mp - 9 };
            let year = yoe + era * 400 + if month <= 2 { 1int } else { 0 };
            &&& civil_date(days) == (year, month, doy - (153 * mp + 2) / 5 + 1)
            &&& is_date_of(civil_date(days), days)
        }),
{
    lemma_civil(days, era, doe, yoe, doy, mp);
    let month = if mp < 10 { mp + 3 } else { mp - 9 };
    let year = yoe + era * 400 + if month <= 2 { 1int } else { 0 };
    let date = (year, month, doy - (153 * mp + 2) / 5 + 1);
    assert(is_date_of(date, days));
    dates_are_unique(civil_date(days), date, days);
}

/// Every day has its date.
pub proof fn every_day_has_a_date(days: int)
    ensures
        is_date_of(civil_date(days), days),
{
    let era = (days + 719_468) / 146_097;
    let doe = days + 719_468 - era * 146_097;
    let yoe = (doe - doe / 1460 + doe / 36_524 - doe / 146_096) / 365;
    let doy = doe - (365 * yoe + yoe / 4 - yoe / 100);
    let mp = (5 * doy + 2) / 153;
    lemma_named_date(days, era, doe, yoe, doy, mp);
}

/// The date that lies `days` days after 1 January 1970. The year is reduced to 32 bits, which
/// keeps it for every day within five million years of the epoch.
pub fn civil_from_days(days: i64) -> (date: (i32, u32, u32))
    requires
        days <= i64::MAX - 719_468,
    ensures
        date.0 == civil_date(days as int).0 as i32,
        date.1 == civil_date(days as int).1,
        date.2 == civil_date(days as int).2,
{
    let ghost start = days as int;
    let days: i64 = days + 719_468;
    let era: i64 = (if days >= 0 { days } else { days - 146_096 }) / 146_097;
    let doe: i64 = days - era * 146_097;
    assert(0 <= doe <= 146_096);
    let yoe: i64 = (doe - doe / 1460 + doe / 36_524 - doe / 146_096) / 365;
    assert(0 <= yoe <= 400);
    let ghost place = doe - (365 * yoe + yoe / 4 - yoe / 100);
    proof {
        lemma_named_date(start, era as int, doe as int, yoe as int, place, (5 * place + 2) / 153);
    }
    let mut year: i64 = yoe + era * 400;
    let doy: i64 = doe - (365 * yoe + yoe / 4 - yoe / 100);
    let mp: i64 = (5 * doy + 2) / 153;
    let day: i64 = doy - (153 * mp + 2) / 5 + 1;
    let month: i64 = mp + if mp < 10 { 3 } else { -9 };
    year += if month <= 2 { 1 } else { 0 };
    (year as i32, month as u32, day as u32)
}

/// 1 March of a year, counted from the start of the year's 400-year era.
proof fn lemma_march_of_era(march_year: int, era: int, yoe: int)
    requires
        march_year == yoe + era * 400,
        0 <= yoe <= 399,
    ensures
        days_to_year(march_year) + days_to_month(march_year, 3) == era * 146_097 + 365 * yoe + yoe
            / 4 - yoe / 100 - 719_468,
{
    lemma_march(march_year);
    assert(march_year / 4 == yoe / 4 + 100 * era);
    assert(march_year / 100 == yoe / 100 + 4 * era);
    assert(march_year / 400 == era);
}

/// A date, counted from the 1 March before it.
proof fn lemma_since_march(year: int, month: int, day: int, march_year: int, mp: int)
    requires
        valid_date(year, month, day),
        march_year == if month <= 2 { year - 1 } else { year },
        mp == if month <= 2 { month + 9 } else { month - 3 },
    ensures
        day_number(year, month, day) == days_to_year(march_year) + days_to_month(march_year, 3)
            + (153 * mp + 2) / 5 + day - 1,
        1 <= day <= 31,
{
    lemma_march(march_year);
    lemma_months(march_year);
    lemma_months(year);
}

/// The number of days from 1 January 1970 to the given date.
pub(crate) fn days_from_civil(year: i32, month: u32, day: u32) -> (days: i64)
    requires
        valid_date(year as int, month as int, day as int),
        i32::MIN + 719_468 <= day_number(year as int, month as int, day as int) <= i32::MAX
            - 719_468,
    ensures
        days == day_number(year as int, month as int, day as int),
{
    proof {
        lemma_days_to_year(year as int);
        lemma_day_of_year(year as int, month as int, day as int);
    }
    let ghost date = (year as int, month as int, day as int);
    let mut year: i32 = year;
    year -= if month <= 2 { 1 } else { 0 };
    let era: i32 = (if year >= 0 { year } else { year - 399 }) / 400;
    let yoe: i32 = year - era * 400;
    assert(0 <= yoe <= 399);
    let month: i32 = month as i32;
    let mp: i32 = month + if month > 2 { -3 } else { 9 };
    proof {
        lemma_since_march(date.0, date.1, date.2, year as int, mp as int);
        lemma_march_of_era(year as int, era as int, yoe as int);
    }
    let doy: i32 = (153 * mp + 2) / 5 + day as i32 - 1;
    let doe: i32 = yoe * 365 + yoe / 4 - yoe / 100 + doy;
    (era * 146_097 + doe - 719_468) as i64
}

/// Whether `year` has a 29th of February.
pub fn is_leap_year(year: i32) -> (leap: bool)
    ensures
        leap == leap_year(year as int),
{
    (year % 4 == 0 && year % 100 != 0) || year % 400 == 0
}

/// The number of days in `month` of `year`, zero when there is no such month.
pub fn days_in_month(year: i32, month: u32) -> (days: u32)
    ensures
        days == month_length(year as int, month as int),
{
    match month {
        1 | 3 | 5 | 7 | 8 | 10 | 12 => 31,
        4 | 6 | 9 | 11 => 30,
        2 => if is_leap_year(year) { 29 } else { 28 },
        _ => 0,
    }
}

/// The first of January 1970 is the day from which days are counted.
pub proof fn days_are_counted_from_1970()
    ensures
        day_number(1970, 1, 1) == 0,
{
}

/// Every fourth year is a leap year, but of those that end a century only every fourth.
pub proof fn leap_years_are_these(year: int)
    ensures
        leap_year(year) <==> if year % 100 == 0 {
            year % 400 == 0
        } else {
            year % 4 == 0
        },
{
}

/// The months have their lengths.
pub proof fn months_have_their_lengths(year: int)
    ensures
        month_length(year, 1) == 31,
        month_length(year, 2) == if leap_year(year) {
            29int
        } else {
            28
        },
        month_length(year, 3) == 31,
        month_length(year, 4) == 30,
        month_length(year, 5) == 31,
        month_length(year, 6) == 30,
        month_length(year, 7) == 31,
        month_length(year, 8) == 31,
        month_length(year, 9) == 30,
        month_length(year, 10) == 31,
        month_length(year, 11) == 30,
        month_length(year, 12) == 31,
        forall|month: int| month < 1 || month > 12 ==> #[trigger] month_length(year, month) == 0,
{
}

/// Days follow each other: the day behind a date is the next of the month, the first of the next
/// month, or the first of January.
pub proof fn days_follow_each_other(year: int, month: int, day: int)
    requires
        valid_date(year, month, day),
    ensures
        day < month_length(year, month) ==> valid_date(year, month, day + 1) && day_number(
            year,
            month,
            day + 1,
        ) == day_number(year, month, day) + 1,
        day == month_length(year, month) && month < 12 ==> valid_date(year, month + 1, 1)
            && day_number(year, month + 1, 1) == day_number(year, month, day) + 1,
        day == month_length(year, month) && month == 12 ==> valid_date(year + 1, 1, 1)
            && day_number(year + 1, 1, 1) == day_number(year, month, day) + 1,
{
    lemma_months(year);
}

/// Each day has the date that is counted to it.
pub proof fn dates_are_those_of_their_days(days: int)
    ensures
        ({
            let date = civil_date(days);
            valid_date(date.0, date.1, date.2) && day_number(date.0, date.1, date.2) == days
        }),
{
    every_day_has_a_date(days);
}

} // verus!
