//! Proleptic Gregorian calendar arithmetic: the civil date of a day count
//! since 1970-01-01.

use vstd::prelude::*;

verus! {

/// The Gregorian leap-year rule.
pub open spec fn is_leap_year(year: int) -> bool {
    year % 4 == 0 && (year % 100 != 0 || year % 400 == 0)
}

/// The number of days in `month` (1 to 12) of `year`.
pub open spec fn days_in_month(year: int, month: int) -> int {
    if month == 2 {
        if is_leap_year(year) { 29 } else { 28 }
    } else if month == 4 || month == 6 || month == 9 || month == 11 {
        30
    } else {
        31
    }
}

/// The number of days of `year` that come before the first of `month`.
pub open spec fn days_before_month(year: int, month: int) -> int
    decreases month,
{
    if month <= 1 {
        0
    } else {
        days_before_month(year, month - 1) + days_in_month(year, month - 1)
    }
}

/// The number of days from 1970-01-01 to January 1 of `year`, for years
/// from 1970 on.
pub open spec fn days_before_year(year: int) -> int
    decreases year - 1970,
{
    if year <= 1970 {
        0
    } else {
        days_before_year(year - 1) + if is_leap_year(year - 1) { 366int } else { 365 }
    }
}

/// A real calendar date.
pub open spec fn is_valid_date(year: int, month: int, day: int) -> bool {
    &&& 1 <= month <= 12
    &&& 1 <= day <= days_in_month(year, month)
}

/// The number of days from 1970-01-01 to the given date.
pub open spec fn days_from_civil(year: int, month: int, day: int) -> int {
    days_before_year(year) + days_before_month(year, month) + day - 1
}

/// Leap years among the years 1 to `y` (a closed form of the leap-year rule).
spec fn leap_years_through(y: int) -> int {
    y / 4 - y / 100 + y / 400
}

proof fn lemma_leap_years_step(y: int)
    ensures
        leap_years_through(y) == leap_years_through(y - 1) + if is_leap_year(y) { 1int } else { 0 },
{
}

proof fn lemma_days_before_year_closed(year: int)
    requires
        year >= 1970,
    ensures
        days_before_year(year) == 365 * (year - 1970) + leap_years_through(year - 1) - 477,
    decreases year - 1970,
{
    if year > 1970 {
        lemma_days_before_year_closed(year - 1);
        lemma_leap_years_step(year - 1);
    }
}

proof fn lemma_days_before_month_table(year: int, month: int)
    requires
        1 <= month <= 12,
    ensures
        days_before_month(year, month) == (if month == 1 { 0int } else if month == 2 { 31 } else if month
            == 3 { 59 } else if month == 4 { 90 } else if month == 5 { 120 } else if month == 6 {
            151
        } else if month == 7 { 181 } else if month == 8 { 212 } else if month == 9 { 243 } else if month
            == 10 { 273 } else if month == 11 { 304 } else { 334 }) + if month > 2 && is_leap_year(
            year,
        ) {
            1int
        } else {
            0
        },
{
    reveal_with_fuel(days_before_month, 12);
}

/// Whether the March-based year `yoe` of a 400-year era ends with a
/// February 29.
spec fn march_year_has_leap_day(yoe: int) -> bool {
    (yoe + 1) % 4 == 0 && ((yoe + 1) % 100 != 0 || yoe + 1 == 400)
}

spec fn year_of_era(doe: int) -> int {
    (doe - doe / 1460 + doe / 36524 - doe / 146096) / 365
}

spec fn march_year_start(yoe: int) -> int {
    365 * yoe + yoe / 4 - yoe / 100
}

/// Within a 400-year era counted from a March 1, day `doe` falls in the
/// March-based year `year_of_era(doe)`: after that year's start, and
/// before its end.
#[verifier::spinoff_prover]
#[verifier::rlimit(40)]
proof fn lemma_year_of_era(doe: int)
    requires
        0 <= doe < 146097,
    ensures
        0 <= year_of_era(doe) <= 399,
        march_year_start(year_of_era(doe)) <= doe,
        doe - march_year_start(year_of_era(doe)) <= 364 + (if march_year_has_leap_day(
            year_of_era(doe),
        ) {
            1int
        } else {
            0
        }),
{
}

/// Days before March-based month position `mp` (0 is March, 11 is February).
spec fn march_month_start(mp: int) -> int {
    (153 * mp + 2) / 5
}

spec fn civil_month(mp: int) -> int {
    if mp < 10 { mp + 3 } else { mp - 9 }
}

/// Day `doy` of a March-based year falls in the month that the
/// `(5 * doy + 2) / 153` rule gives, on a real day of that month.
proof fn lemma_month_of_day(doy: int, leap_day: bool)
    requires
        0 <= doy <= 364 + if leap_day { 1int } else { 0 },
    ensures
        ({
            let mp = (5 * doy + 2) / 153;
            let month = civil_month(mp);
            let day = doy - march_month_start(mp) + 1;
            &&& 0 <= mp <= 11
            &&& 1 <= month <= 12
            &&& 1 <= day
            &&& month == 2 ==> day <= 28 + if leap_day { 1int } else { 0 }
            &&& month != 2 ==> day <= days_in_month(0, month)
            &&& month >= 3 ==> march_month_start(mp) + 59 == days_before_month(1, month)
            &&& month <= 2 ==> march_month_start(mp) == 306 + days_before_month(1, month)
        }),
{
    let mp = (5 * doy + 2) / 153;
    assert(0 <= mp <= 11);
    lemma_days_before_month_table(1, civil_month(mp));
    assert(march_month_start(mp) <= doy);
}

proof fn lemma_leap_years_era_shift(era: int, k: int)
    requires
        era >= 0,
        -1 <= k <= 400,
    ensures
        leap_years_through(400 * era + k) == 97 * era + leap_years_through(k),
        is_leap_year(400 * era + k) == is_leap_year(k),
{
}

/// The era, year, month and day found for a day count give that day count
/// back, counted from 1970-01-01 by whole years and months.
proof fn lemma_assemble(era: int, yoe: int, doy: int, month: int, day: int)
    requires
        era >= 4,
        0 <= yoe <= 399,
        0 <= doy <= 365,
        146097 * era + march_year_start(yoe) + doy >= 719468,
        1 <= month <= 12,
        1 <= day <= 31,
        month >= 3 ==> doy == days_before_month(1, month) - 59 + day - 1,
        month <= 2 ==> doy == 306 + days_before_month(1, month) + day - 1,
    ensures
        ({
            let y = 400 * era + yoe + if month <= 2 { 1int } else { 0 };
            &&& y >= 1970
            &&& days_from_civil(y, month, day) == 146097 * era + march_year_start(yoe) + doy - 719468
            &&& is_leap_year(y) == (month <= 2 && march_year_has_leap_day(yoe) || month > 2
                && is_leap_year(yoe))
        }),
{
    let y = 400 * era + yoe + if month <= 2 { 1int } else { 0 };
    lemma_days_before_month_table(1, month);
    assert(y >= 1970);
    lemma_days_before_year_closed(y);
    lemma_days_before_month_table(y, month);
    lemma_leap_years_step(yoe);
    if month <= 2 {
        lemma_leap_years_era_shift(era, yoe);
        lemma_leap_years_era_shift(era, yoe + 1);
        assert(days_before_month(y, month) == days_before_month(1, month));
        assert(days_before_year(y) == 365 * (400 * era + yoe + 1 - 1970) + 97 * era
            + leap_years_through(yoe) - 477);
    } else {
        lemma_leap_years_era_shift(era, yoe - 1);
        lemma_leap_years_era_shift(era, yoe);
        assert(days_before_year(y) == 365 * (400 * era + yoe - 1970) + 97 * era
            + leap_years_through(yoe - 1) - 477);
    }
}

/// The length of `year` in days.
pub open spec fn year_length(year: int) -> int {
    if is_leap_year(year) { 366 } else { 365 }
}

/// The date of a day count since 1970-01-01, for day counts from 0 on.
pub open spec fn civil_date(days: int) -> (int, int, int) {
    choose|date: (int, int, int)|
        date.0 >= 1970 && is_valid_date(date.0, date.1, date.2) && days_from_civil(date.0, date.1, date.2)
            == days
}

proof fn lemma_day_of_year_range(year: int, month: int, day: int)
    requires
        is_valid_date(year, month, day),
    ensures
        0 <= days_before_month(year, month) + day - 1 < year_length(year),
{
    lemma_days_before_month_table(year, month);
}

proof fn lemma_day_of_year_injective(year: int, m1: int, d1: int, m2: int, d2: int)
    requires
        is_valid_date(year, m1, d1),
        is_valid_date(year, m2, d2),
        days_before_month(year, m1) + d1 == days_before_month(year, m2) + d2,
    ensures
        m1 == m2 && d1 == d2,
{
    lemma_days_before_month_table(year, m1);
    lemma_days_before_month_table(year, m2);
}

proof fn lemma_days_before_year_gap(y1: int, y2: int)
    requires
        1970 <= y1 < y2,
    ensures
        days_before_year(y2) >= days_before_year(y1) + year_length(y1),
    decreases y2 - y1,
{
    if y2 > y1 + 1 {
        lemma_days_before_year_gap(y1, y2 - 1);
    }
}

/// Two dates from 1970 on with the same day count are the same date.
pub proof fn lemma_days_from_civil_injective(a: (int, int, int), b: (int, int, int))
    requires
        a.0 >= 1970,
        b.0 >= 1970,
        is_valid_date(a.0, a.1, a.2),
        is_valid_date(b.0, b.1, b.2),
        days_from_civil(a.0, a.1, a.2) == days_from_civil(b.0, b.1, b.2),
    ensures
        a == b,
{
    lemma_day_of_year_range(a.0, a.1, a.2);
    lemma_day_of_year_range(b.0, b.1, b.2);
    if a.0 < b.0 {
        lemma_days_before_year_gap(a.0, b.0);
    } else if b.0 < a.0 {
        lemma_days_before_year_gap(b.0, a.0);
    } else {
        lemma_day_of_year_injective(a.0, a.1, a.2, b.1, b.2);
    }
}

/// Day counts before 10000-01-01 fall in years of at most four digits.
pub proof fn lemma_four_digit_years(days: int)
    requires
        0 <= days < 2_932_897,
    ensures
        civil_date(days).0 <= 9999,
{
    lemma_civil_date(days);
    let date = civil_date(days);
    if date.0 >= 10000 {
        lemma_days_before_year_closed(10000);
        if date.0 > 10000 {
            lemma_days_before_year_gap(10000, date.0);
        }
        lemma_days_before_month_table(date.0, date.1);
    }
}

/// Every day count from 0 on has a date: `civil_date` is that date.
pub proof fn lemma_civil_date(days: int)
    requires
        days >= 0,
    ensures
        civil_date(days).0 >= 1970,
        is_valid_date(civil_date(days).0, civil_date(days).1, civil_date(days).2),
        days_from_civil(civil_date(days).0, civil_date(days).1, civil_date(days).2) == days,
{
    let shifted = days + 719468;
    let era = shifted / 146097;
    let doe = shifted - era * 146097;
    lemma_year_of_era(doe);
    let yoe = year_of_era(doe);
    let doy = doe - march_year_start(yoe);
    lemma_month_of_day(doy, march_year_has_leap_day(yoe));
    let mp = (5 * doy + 2) / 153;
    let month = civil_month(mp);
    let day = doy - march_month_start(mp) + 1;
    lemma_assemble(era, yoe, doy, month, day);
    let year = 400 * era + yoe + if month <= 2 { 1int } else { 0 };
    let witness = (year, month, day);
    assert(witness.0 >= 1970 && is_valid_date(witness.0, witness.1, witness.2) && days_from_civil(
        witness.0,
        witness.1,
        witness.2,
    ) == days);
}

/// The civil date `days_since_epoch` days after 1970-01-01, as
/// (year, month, day).
pub fn civil_from_days(days_since_epoch: u64) -> (date: (u64, u64, u64))
    requires
        days_since_epoch <= u64::MAX - 719_468,
    ensures
        date.0 >= 1970,
        is_valid_date(date.0 as int, date.1 as int, date.2 as int),
        days_from_civil(date.0 as int, date.1 as int, date.2 as int) == days_since_epoch,
        (date.0 as int, date.1 as int, date.2 as int) == civil_date(days_since_epoch as int),
{
    let shifted = days_since_epoch + 719_468;
    let era = shifted / 146_097;
    let day_of_era = shifted - era * 146_097;
    proof {
        lemma_year_of_era(day_of_era as int);
    }
    let year_of_era =
        (day_of_era - day_of_era / 1460 + day_of_era / 36_524 - day_of_era / 146_096) / 365;
    let year = year_of_era + era * 400;
    let day_of_year = day_of_era - (365 * year_of_era + year_of_era / 4 - year_of_era / 100);
    proof {
        lemma_month_of_day(day_of_year as int, march_year_has_leap_day(year_of_era as int));
    }
    let month_position = (5 * day_of_year + 2) / 153;
    let day = day_of_year - (153 * month_position + 2) / 5 + 1;
    let month = if month_position < 10 {
        month_position + 3
    } else {
        month_position - 9
    };
    let civil_year = if month <= 2 { year + 1 } else { year };
    proof {
        lemma_assemble(era as int, year_of_era as int, day_of_year as int, month as int, day as int);
        let found = (civil_year as int, month as int, day as int);
        let chosen = civil_date(days_since_epoch as int);
        assert(found.0 >= 1970 && is_valid_date(found.0, found.1, found.2) && days_from_civil(
            found.0,
            found.1,
            found.2,
        ) == days_since_epoch);
        lemma_days_from_civil_injective(found, chosen);
    }
    (civil_year, month, day)
}

} // verus!
