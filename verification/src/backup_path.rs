//! Where a backup of the database goes: a directory for each day.
use crate::paths::{join_path, joined_path};
use crate::text::{padded, padded_text};
use vstd::prelude::*;

verus! {

/// Whether a year of the Gregorian calendar has a 29th of February.
pub open spec fn is_leap_year(year: int) -> bool {
    year % 4 == 0 && (year % 100 != 0 || year % 400 == 0)
}

/// How many days a month has.
pub open spec fn days_in_month(year: int, month: int) -> int {
    if month == 2 {
        if is_leap_year(year) {
            29
        } else {
            28
        }
    } else if month == 4 || month == 6 || month == 9 || month == 11 {
        30
    } else {
        31
    }
}

/// Whether there is such a date.
pub open spec fn is_date(year: int, month: int, day: int) -> bool {
    1 <= month <= 12 && 1 <= day <= days_in_month(year, month)
}

/// How many days lie between the beginning of the year zero and the beginning of a year.
pub open spec fn days_before_year(year: int) -> int {
    365 * year + (year + 3) / 4 - (year + 99) / 100 + (year + 399) / 400
}

/// How many days of a year lie before a month.
pub open spec fn days_before_month(year: int, month: int) -> int
    decreases month,
{
    if month <= 1 {
        0
    } else {
        days_before_month(year, month - 1) + days_in_month(year, month - 1)
    }
}

/// The number of a date: how many days it lies after the first of January 1970.
pub open spec fn day_number(year: int, month: int, day: int) -> int {
    days_before_year(year) + days_before_month(year, month) + day - 1 - days_before_year(1970)
}

/// A year has 365 days, a leap year 366.
pub proof fn year_lengths(year: int)
    ensures
        days_before_year(year + 1) - days_before_year(year) == (if is_leap_year(year) {
            366int
        } else {
            365int
        }),
        days_before_month(year, 13) == (if is_leap_year(year) {
            366int
        } else {
            365int
        }),
{
    lemma_months(year);
}

proof fn lemma_months(year: int)
    ensures
        days_before_month(year, 1) == 0,
        days_before_month(year, 2) == 31,
        days_before_month(year, 3) == 31 + days_in_month(year, 2),
        days_before_month(year, 4) == 62 + days_in_month(year, 2),
        days_before_month(year, 5) == 92 + days_in_month(year, 2),
        days_before_month(year, 6) == 123 + days_in_month(year, 2),
        days_before_month(year, 7) == 153 + days_in_month(year, 2),
        days_before_month(year, 8) == 184 + days_in_month(year, 2),
        days_before_month(year, 9) == 215 + days_in_month(year, 2),
        days_before_month(year, 10) == 245 + days_in_month(year, 2),
        days_before_month(year, 11) == 276 + days_in_month(year, 2),
        days_before_month(year, 12) == 306 + days_in_month(year, 2),
        days_before_month(year, 13) == 337 + days_in_month(year, 2),
{
    reveal_with_fuel(days_before_month, 14);
}

/// The year within an era of 400 years that starts in March, and the day within that year.
proof fn lemma_year_of_era(day_of_era: int, year_of_era: int, day_of_year: int)
    requires
        0 <= day_of_era <= 146_096,
        year_of_era == (day_of_era - day_of_era / 1_460 + day_of_era / 36_524 - day_of_era / 146_096) / 365,
        day_of_year == day_of_era - (365 * year_of_era + year_of_era / 4 - year_of_era / 100),
    ensures
        0 <= year_of_era <= 399,
        0 <= day_of_year <= 365,
        day_of_year == 365 ==> is_leap_year(year_of_era + 1),
{
}

/// The day within a year that starts in March is the day of a month.
proof fn lemma_month_of_year(day_of_year: int, month: int, day: int)
    requires
        0 <= day_of_year <= 365,
        month == (5 * day_of_year + 2) / 153,
        day == day_of_year - (153 * month + 2) / 5 + 1,
    ensures
        0 <= month <= 11,
        1 <= day <= 31,
        month == 1 || month == 3 || month == 6 || month == 8 ==> day <= 30,
        month == 11 ==> day <= 29,
        month == 11 && day == 29 ==> day_of_year == 365,
{
}

/// The calendar repeats every 400 years.
proof fn lemma_era(era: int, year: int)
    ensures
        days_before_year(year + era * 400) == days_before_year(year) + era * 146_097,
        is_leap_year(year + era * 400) == is_leap_year(year),
{
    assert((year + era * 400 + 3) / 4 == (year + 3) / 4 + era * 100);
    assert((year + era * 400 + 99) / 100 == (year + 99) / 100 + era * 4);
    assert((year + era * 400 + 399) / 400 == (year + 399) / 400 + era);
    assert((year + era * 400) % 4 == year % 4);
    assert((year + era * 400) % 100 == year % 100);
    assert((year + era * 400) % 400 == year % 400);
}

/// How many days lie before the first of March of a year in the first era.
proof fn lemma_march(year: int)
    requires
        0 <= year <= 399,
    ensures
        days_before_year(year) + 31 + days_in_month(year, 2) == 365 * year + year / 4 - year / 100 + 60,
{
}

/// The date of a day, given the day within a year that starts in March.
proof fn lemma_date(year: int, day_of_year: int, march_month: int, day: int)
    requires
        0 <= day_of_year <= 365,
        day_of_year == 365 ==> is_leap_year(year + 1),
        march_month == (5 * day_of_year + 2) / 153,
        day == day_of_year - (153 * march_month + 2) / 5 + 1,
    ensures
        0 <= march_month <= 11,
        1 <= day <= 31,
        ({
            let y = if march_month < 10 {
                year
            } else {
                year + 1
            };
            let m = if march_month < 10 {
                march_month + 3
            } else {
                march_month - 9
            };
            &&& is_date(y, m, day)
            &&& day_number(y, m, day) == days_before_year(year) + 31 + days_in_month(year, 2) + day_of_year
                - days_before_year(1970)
        }),
{
    lemma_month_of_year(day_of_year, march_month, day);
    lemma_months(year);
    lemma_months(year + 1);
    year_lengths(year);
    let before = (153 * march_month + 2) / 5;
    if march_month == 0 {
    } else if march_month == 1 {
    } else if march_month == 2 {
    } else if march_month == 3 {
    } else if march_month == 4 {
    } else if march_month == 5 {
    } else if march_month == 6 {
    } else if march_month == 7 {
    } else if march_month == 8 {
    } else if march_month == 9 {
    } else if march_month == 10 {
    } else {
        assert(march_month == 11);
    }
}

/// The era of a day, and the day within it.
fn era_and_day(shifted: i64) -> (split: (i64, i64))
    requires
        -784_353_000_000_000 <= shifted <= 784_353_000_000_000,
    ensures
        split.0 * 146_097 + split.1 == shifted,
        0 <= split.1 <= 146_096,
        -6_000_000_000 <= split.0 <= 6_000_000_000,
{
    let era: i64 = if shifted >= 0 {
        shifted / 146_097
    } else {
        -((146_096 - shifted) / 146_097)
    };
    (era, shifted - era * 146_097)
}

/// The year within an era, and the day within that year.
fn year_and_day(day_of_era: i64) -> (split: (i64, i64))
    requires
        0 <= day_of_era <= 146_096,
    ensures
        0 <= split.0 <= 399,
        0 <= split.1 <= 365,
        split.1 == 365 ==> is_leap_year(split.0 + 1),
        day_of_era == 365 * split.0 + split.0 / 4 - split.0 / 100 + split.1,
{
    let year: i64 = (day_of_era - day_of_era / 1_460 + day_of_era / 36_524 - day_of_era / 146_096) / 365;
    proof {
        let y = year as int;
        lemma_year_of_era(day_of_era as int, y, day_of_era - (365 * y + y / 4 - y / 100));
    }
    (year, day_of_era - (365 * year + year / 4 - year / 100))
}

/// The date that lies so many days after the first of January 1970, as year, month and day.
///
/// The days are those whose years fit into 32 bits.
pub fn civil_date_from_days(days: i64) -> (date: (i32, u32, u32))
    requires
        -784_353_015_833 <= days <= 784_351_576_776,
    ensures
        is_date(date.0 as int, date.1 as int, date.2 as int),
        day_number(date.0 as int, date.1 as int, date.2 as int) == days,
{
    let (era, day_of_era) = era_and_day(days + 719_468);
    let (year_of_era, day_of_year) = year_and_day(day_of_era);
    let march_year: i64 = year_of_era + era * 400;
    let march_month: i64 = (5 * day_of_year + 2) / 153;
    proof {
        lemma_month_of_year(
            day_of_year as int,
            march_month as int,
            day_of_year - (153 * march_month + 2) / 5 + 1,
        );
    }
    let day: i64 = day_of_year - (153 * march_month + 2) / 5 + 1;
    let year: i64 = march_year + (if march_month < 10 { 0 } else { 1 });
    let month: i64 = if march_month < 10 { march_month + 3 } else { march_month - 9 };
    proof {
        lemma_era(era as int, year_of_era as int);
        lemma_era(era as int, year_of_era + 1);
        lemma_march(year_of_era as int);
        lemma_date(march_year as int, day_of_year as int, march_month as int, day as int);
        assert(days_in_month(march_year as int, 2) == days_in_month(year_of_era as int, 2));
        assert(days_before_year(1970) == 719_528);
        assert(day_number(year as int, month as int, day as int) == days);
        lemma_year_fits(year as int, month as int, day as int);
    }
    (year as i32, month as u32, day as u32)
}

proof fn lemma_year_fits(year: int, month: int, day: int)
    requires
        is_date(year, month, day),
        -784_353_015_833 <= day_number(year, month, day) <= 784_351_576_776,
    ensures
        i32::MIN <= year <= i32::MAX,
{
    lemma_months(year);
    year_lengths(year);
    assert(0 <= days_before_month(year, month) + day - 1 <= 365);
}

/// A day has one date only.
pub proof fn dates_are_unique(y1: int, m1: int, d1: int, y2: int, m2: int, d2: int)
    requires
        is_date(y1, m1, d1),
        is_date(y2, m2, d2),
        day_number(y1, m1, d1) == day_number(y2, m2, d2),
    ensures
        y1 == y2,
        m1 == m2,
        d1 == d2,
{
    lemma_day_of_year(y1, m1, d1);
    lemma_day_of_year(y2, m2, d2);
    if y1 < y2 {
        lemma_years_apart(y1, y2);
    }
    if y2 < y1 {
        lemma_years_apart(y2, y1);
    }
    if m1 < m2 {
        lemma_months_apart(y1, m1, m2);
    }
    if m2 < m1 {
        lemma_months_apart(y1, m2, m1);
    }
}

proof fn lemma_day_of_year(year: int, month: int, day: int)
    requires
        is_date(year, month, day),
    ensures
        0 <= days_before_month(year, month) + day - 1 < days_before_month(year, 13),
{
    lemma_months(year);
}

proof fn lemma_years_apart(earlier: int, later: int)
    requires
        earlier < later,
    ensures
        days_before_year(earlier) + days_before_month(earlier, 13) <= days_before_year(later),
    decreases later - earlier,
{
    year_lengths(earlier);
    if earlier + 1 < later {
        year_lengths(later - 1);
        lemma_years_apart(earlier, later - 1);
    }
}

proof fn lemma_months_apart(year: int, earlier: int, later: int)
    requires
        1 <= earlier < later <= 12,
    ensures
        days_before_month(year, earlier) + days_in_month(year, earlier) <= days_before_month(year, later),
    decreases later - earlier,
{
    if earlier + 1 < later {
        lemma_months_apart(year, earlier, later - 1);
    }
}

/// The path of the backup of a date.
pub open spec fn backup_path(root: Seq<char>, year: nat, month: nat, day: nat) -> Seq<char> {
    joined_path(
        joined_path(joined_path(joined_path(root, padded(year, 4)), padded(month, 2)), padded(day, 2)),
        "main.db"@,
    )
}

/// Whether the backup of a moment, in seconds since the beginning of 1970, goes to a path: the one for
/// its date.
pub open spec fn backup_goes_to(root: Seq<char>, seconds: u64, destination: Seq<char>) -> bool {
    exists|year: int, month: int, day: int|
        is_date(year, month, day) && #[trigger] day_number(year, month, day) == seconds / 86_400 && destination
            == backup_path(root, year as nat, month as nat, day as nat)
}

/// Where the backup of a moment goes. The moment is given in seconds since the beginning of 1970.
pub fn dated_backup_destination(root: &str, seconds: u64) -> (destination: String)
    requires
        seconds / 86_400 <= 784_351_576_776,
    ensures
        backup_goes_to(root@, seconds, destination@),
{
    let days: u64 = seconds / 86_400;
    let (year, month, day) = civil_date_from_days(days as i64);
    proof {
        lemma_not_before_1970(year as int, month as int, day as int);
    }
    let of_year = join_path(root, padded_text(year as u64, 4).as_str());
    let of_month = join_path(of_year.as_str(), padded_text(month as u64, 2).as_str());
    let of_day = join_path(of_month.as_str(), padded_text(day as u64, 2).as_str());
    let destination = join_path(of_day.as_str(), "main.db");
    assert(day_number(year as int, month as int, day as int) == days);
    destination
}

proof fn lemma_not_before_1970(year: int, month: int, day: int)
    requires
        is_date(year, month, day),
        day_number(year, month, day) >= 0,
    ensures
        year >= 1970,
{
    lemma_day_of_year(year, month, day);
    if year < 1970 {
        lemma_years_apart(year, 1970);
    }
}

} // verus!
