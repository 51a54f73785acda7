//! Dates and times of day as display text.
use vstd::prelude::*;
use vstd::arithmetic::div_mod::*;
use crate::numbers;
use crate::numbers::write_padded;
use crate::text::string_of;

verus! {

/// Whether `y` is a leap year of the Gregorian calendar.
pub open spec fn is_leap(y: int) -> bool {
    y % 4 == 0 && (y % 100 != 0 || y % 400 == 0)
}

/// The days of year `y`.
pub open spec fn year_len(y: int) -> int {
    if is_leap(y) {
        366
    } else {
        365
    }
}

/// The days of month `m` of year `y`.
pub open spec fn month_len(y: int, m: int) -> int {
    if m == 2 {
        if is_leap(y) {
            29
        } else {
            28
        }
    } else if m == 4 || m == 6 || m == 9 || m == 11 {
        30
    } else {
        31
    }
}

/// The days of year `y` before month `m`.
pub open spec fn days_before_month(y: int, m: int) -> int
    decreases m,
{
    if m <= 1 {
        0
    } else {
        days_before_month(y, m - 1) + month_len(y, m - 1)
    }
}

/// The leap days of the years 1 to `y`.
pub open spec fn leap_days(y: int) -> int {
    y / 4 - y / 100 + y / 400
}

/// The days from 1970-01-01 to the first day of year `y`.
pub open spec fn days_before_year(y: int) -> int {
    365 * (y - 1970) + leap_days(y - 1) - leap_days(1969)
}

/// The days from 1970-01-01 to the given day.
pub open spec fn day_number(y: int, m: int, d: int) -> int {
    days_before_year(y) + days_before_month(y, m) + d - 1
}

/// Whether the Gregorian calendar has the day `y`-`m`-`d`.
pub open spec fn is_date(y: int, m: int, d: int) -> bool {
    1 <= m <= 12 && 1 <= d <= month_len(y, m)
}

/// `year-month-day hour:minute:second`, the year in at least `width` digits, the others in two.
pub open spec fn stamp(width: int, y: int, mo: int, d: int, h: int, mi: int, s: int) -> Seq<char> {
    numbers::zero_padded(numbers::decimal(y), width) + seq!['-'] + numbers::two_digits(mo) + seq!['-'] + numbers::two_digits(d) + seq![
        ' ',
    ] + numbers::two_digits(h) + seq![':'] + numbers::two_digits(mi) + seq![':'] + numbers::two_digits(s)
}

/// The text for a time given in seconds since 1970-01-01, on the date `y`-`mo`-`d`.
pub open spec fn clock_stamp(width: int, y: int, mo: int, d: int, secs: int) -> Seq<char> {
    stamp(width, y, mo, d, (secs / 3600) % 24, (secs / 60) % 60, secs % 60)
}

/// Two days with the same number are the same day.
pub proof fn day_numbers_are_unique(y1: int, m1: int, d1: int, y2: int, m2: int, d2: int)
    requires
        is_date(y1, m1, d1),
        is_date(y2, m2, d2),
        day_number(y1, m1, d1) == day_number(y2, m2, d2),
    ensures
        y1 == y2,
        m1 == m2,
        d1 == d2,
{
    lemma_day_of_year(y1, m1, d1);
    lemma_day_of_year(y2, m2, d2);
    if y1 < y2 {
        lemma_years_in_order(y1, y2);
    } else if y2 < y1 {
        lemma_years_in_order(y2, y1);
    }
    reveal_with_fuel(days_before_month, 13);
}

proof fn lemma_day_of_year(y: int, m: int, d: int)
    requires
        is_date(y, m, d),
    ensures
        0 <= days_before_month(y, m) + d - 1 < year_len(y),
{
    reveal_with_fuel(days_before_month, 13);
}

/// A quotient grows by one at the multiples of its divisor, and stays elsewhere.
proof fn lemma_quotient_step(y: int, d: int)
    requires
        d > 0,
    ensures
        y / d == (y - 1) / d + (if y % d == 0 {
            1int
        } else {
            0int
        }),
{
    lemma_fundamental_div_mod(y, d);
    let q = y / d;
    if y % d == 0 {
        assert(y - 1 == (q - 1) * d + (d - 1)) by (nonlinear_arith)
            requires
                y == d * q,
        ;
        lemma_fundamental_div_mod_converse(y - 1, d, q - 1, d - 1);
    } else {
        assert(y - 1 == q * d + (y % d - 1)) by (nonlinear_arith)
            requires
                y == d * q + y % d,
        ;
        lemma_fundamental_div_mod_converse(y - 1, d, q, y % d - 1);
    }
}

/// Whatever divides into hundreds divides into fours, and so on.
proof fn lemma_multiples(y: int)
    ensures
        y % 400 == 0 ==> y % 100 == 0,
        y % 100 == 0 ==> y % 4 == 0,
{
    if y % 400 == 0 {
        lemma_fundamental_div_mod(y, 400);
        lemma_fundamental_div_mod_converse(y, 100, 4 * (y / 400), 0);
    }
    if y % 100 == 0 {
        lemma_fundamental_div_mod(y, 100);
        lemma_fundamental_div_mod_converse(y, 4, 25 * (y / 100), 0);
    }
}

/// The leap days up to a year are those up to the year before, and its own.
proof fn lemma_leap_day(y: int)
    ensures
        leap_days(y) == leap_days(y - 1) + (if is_leap(y) {
            1int
        } else {
            0int
        }),
{
    lemma_quotient_step(y, 4);
    lemma_quotient_step(y, 100);
    lemma_quotient_step(y, 400);
    lemma_multiples(y);
}

proof fn lemma_next_year(y: int)
    ensures
        days_before_year(y + 1) == days_before_year(y) + year_len(y),
{
    lemma_leap_day(y);
}

proof fn lemma_years_in_order(a: int, b: int)
    requires
        a < b,
    ensures
        days_before_year(a) + year_len(a) <= days_before_year(b),
    decreases b - a,
{
    lemma_next_year(b - 1);
    lemma_next_year(a);
    if a < b - 1 {
        lemma_years_in_order(a, b - 1);
    }
}

/// Appends `b` to `a`.
fn extend(a: &mut Vec<char>, b: Vec<char>)
    ensures
        final(a)@ == old(a)@ + b@,
{
    let mut b: Vec<char> = b;
    a.append(&mut b);
}

/// Writes a date and a time of day.
pub fn write_stamp(width: usize, y: u64, mo: u64, d: u64, h: u64, mi: u64, s: u64) -> (r: String)
    ensures
        r@ == stamp(width as int, y as int, mo as int, d as int, h as int, mi as int, s as int),
{
    let mut v: Vec<char> = write_padded(y, 10, width);
    let ghost a0 = v@;
    v.push('-');
    extend(&mut v, write_padded(mo, 10, 2));
    v.push('-');
    extend(&mut v, write_padded(d, 10, 2));
    v.push(' ');
    extend(&mut v, write_padded(h, 10, 2));
    v.push(':');
    extend(&mut v, write_padded(mi, 10, 2));
    v.push(':');
    extend(&mut v, write_padded(s, 10, 2));
    assert(v@ =~= stamp(
        width as int,
        y as int,
        mo as int,
        d as int,
        h as int,
        mi as int,
        s as int,
    ));
    string_of(v.as_slice())
}

/// Whether `y` is a leap year.
fn leap(y: u64) -> (r: bool)
    ensures
        r == is_leap(y as int),
{
    y % 4 == 0 && (y % 100 != 0 || y % 400 == 0)
}

/// The days of month `m` of year `y`.
fn days_in_month(y: u64, m: u64) -> (r: u64)
    ensures
        r == month_len(y as int, m as int),
{
    if m == 2 {
        if leap(y) {
            29
        } else {
            28
        }
    } else if m == 4 || m == 6 || m == 9 || m == 11 {
        30
    } else {
        31
    }
}

/// The date and time of a moment given in seconds since 1970-01-01 00:00:00.
pub fn unix_secs_to_string(secs: u64) -> (r: String)
    ensures
        exists|y: int, m: int, d: int|
            #![trigger clock_stamp(1, y, m, d, secs as int)]
            is_date(y, m, d) && day_number(y, m, d) == secs as int / 86400 && r@ == clock_stamp(
                1,
                y,
                m,
                d,
                secs as int,
            ),
{
    let s: u64 = secs % 60;
    let mins: u64 = secs / 60;
    let m: u64 = mins % 60;
    let hours: u64 = mins / 60;
    let h: u64 = hours % 24;
    let mut days: u64 = hours / 24;
    let ghost all = days as int;
    assert(all == secs as int / 86400);
    assert(h == (secs as int / 3600) % 24);
    let mut year: u64 = 1970;
    loop
        invariant
            all <= u64::MAX as int / 86400,
            1970 <= year,
            days_before_year(year as int) + days == all,
        ensures
            1970 <= year,
            days_before_year(year as int) + days == all,
            days < year_len(year as int),
        decreases days,
    {
        let dy: u64 = if leap(year) {
            366
        } else {
            365
        };
        if days < dy {
            break;
        }
        days -= dy;
        proof {
            lemma_next_year(year as int);
            assert(days_before_year(year as int) >= 365 * (year - 1970)) by {
                assert(leap_days(year - 1) >= leap_days(1969)) by {
                    lemma_leap_days_grow(1969, year - 1);
                }
            }
        }
        year += 1;
    }
    let mut month: u64 = 1;
    let ghost doy = days as int;
    proof {
        reveal_with_fuel(days_before_month, 13);
    }
    while month <= 12 && days >= days_in_month(year, month)
        invariant
            1 <= month <= 12,
            doy < year_len(year as int),
            doy == days_before_month(year as int, month as int) + days,
        decreases 13 - month,
    {
        let md: u64 = days_in_month(year, month);
        proof {
            reveal_with_fuel(days_before_month, 13);
        }
        days -= md;
        month += 1;
    }
    let r: String = write_stamp(1, year, month, days + 1, h, m, s);
    proof {
        assert(is_date(year as int, month as int, days + 1));
        assert(day_number(year as int, month as int, days + 1) == all);
        assert(r@ == clock_stamp(1, year as int, month as int, days + 1, secs as int));
    }
    r
}

proof fn lemma_leap_days_grow(a: int, b: int)
    requires
        a <= b,
    ensures
        leap_days(a) <= leap_days(b),
    decreases b - a,
{
    if a < b {
        lemma_leap_days_grow(a, b - 1);
        lemma_leap_day(b);
    }
}

/// The days of a 400-year era, counted from a 1 March, before its year `yoe`.
spec fn era_days(yoe: int) -> int {
    365 * yoe + yoe / 4 - yoe / 100
}

proof fn lemma_year_of_era(doe: int, yoe: int)
    requires
        0 <= doe < 146_097,
        yoe == (doe - doe / 1460 + doe / 36524 - doe / 146_096) / 365,
    ensures
        0 <= yoe <= 399,
        0 <= doe - era_days(yoe) <= 365,
        doe - era_days(yoe) == 365 ==> is_leap(yoe + 1),
{
}

proof fn lemma_month_of_year(doy: int, mp: int)
    requires
        0 <= doy <= 365,
        mp == (5 * doy + 2) / 153,
    ensures
        0 <= mp <= 11,
        0 <= doy - (153 * mp + 2) / 5,
        doy < (153 * (mp + 1) + 2) / 5,
{
}

proof fn lemma_whole_eras(era: int, yoe: int)
    ensures
        is_leap(yoe + era * 400) == is_leap(yoe),
        leap_days(yoe + era * 400) == era * 97 + leap_days(yoe),
{
    lemma_hoist_over_denominator(yoe, era * 100, 4);
    lemma_hoist_over_denominator(yoe, era * 4, 100);
    lemma_hoist_over_denominator(yoe, era, 400);
    lemma_mod_multiples_vanish(era * 100, yoe, 4);
    lemma_mod_multiples_vanish(era * 4, yoe, 100);
    lemma_mod_multiples_vanish(era, yoe, 400);
    assert(yoe + era * 100 * 4 == yoe + era * 400);
    assert(yoe + era * 4 * 100 == yoe + era * 400);
}

/// The day of the calendar year for the day `doy` of a year that begins on 1 March of year `y`.
proof fn lemma_march_year(y: int, doy: int, mp: int)
    requires
        0 <= doy <= 365,
        doy == 365 ==> is_leap(y + 1),
        mp == (5 * doy + 2) / 153,
    ensures
        mp < 10 ==> is_date(y, mp + 3, doy - (153 * mp + 2) / 5 + 1) && days_before_month(y, mp + 3) + doy
            - (153 * mp + 2) / 5 == doy + year_len(y) - 306,
        mp >= 10 ==> is_date(y + 1, mp - 9, doy - (153 * mp + 2) / 5 + 1) && days_before_month(
            y + 1,
            mp - 9,
        ) + doy - (153 * mp + 2) / 5 == doy - 306,
{
    lemma_month_of_year(doy, mp);
    reveal_with_fuel(days_before_month, 13);
    assert(mp == 0 || mp == 1 || mp == 2 || mp == 3 || mp == 4 || mp == 5 || mp == 6 || mp == 7 || mp
        == 8 || mp == 9 || mp == 10 || mp == 11);
}

proof fn lemma_civil(era: int, yoe: int, doy: int, mp: int, y: int, m: int, d: int)
    requires
        0 <= yoe <= 399,
        0 <= doy <= 365,
        doy == 365 ==> is_leap(yoe + 1),
        mp == (5 * doy + 2) / 153,
        d == doy - (153 * mp + 2) / 5 + 1,
        m == (if mp < 10 {
            mp + 3
        } else {
            mp - 9
        }),
        y == yoe + era * 400 + (if m <= 2 {
            1int
        } else {
            0int
        }),
    ensures
        is_date(y, m, d),
        day_number(y, m, d) == era * 146_097 + era_days(yoe) + doy - 719_468,
{
    lemma_month_of_year(doy, mp);
    let b = yoe + era * 400;
    lemma_whole_eras(era, yoe);
    lemma_whole_eras(era, yoe + 1);
    assert(yoe + 1 + era * 400 == b + 1);
    lemma_march_year(b, doy, mp);
    lemma_next_year(b);
    assert(leap_days(b) == era * 97 + yoe / 4 - yoe / 100);
    assert(days_before_year(b + 1) == 365 * (b + 1 - 1970) + leap_days(b) - 477);
}

/// The date of a day given by its number, counted from 1970-01-01.
pub fn civil_from_days(days: u64) -> (r: (u64, u64, u64))
    requires
        days <= 0xffff_ffff_ffff,
    ensures
        is_date(r.0 as int, r.1 as int, r.2 as int),
        day_number(r.0 as int, r.1 as int, r.2 as int) == days,
{
    let z: u64 = days + 719_468;
    let era: u64 = z / 146_097;
    let doe: u64 = z % 146_097;
    let yoe: u64 = (doe - doe / 1460 + doe / 36524 - doe / 146_096) / 365;
    proof {
        lemma_year_of_era(doe as int, yoe as int);
    }
    let b: u64 = yoe + era * 400;
    let doy: u64 = doe - (365 * yoe + yoe / 4 - yoe / 100);
    let mp: u64 = (5 * doy + 2) / 153;
    proof {
        lemma_month_of_year(doy as int, mp as int);
    }
    let d: u64 = doy - (153 * mp + 2) / 5 + 1;
    let m: u64 = if mp < 10 {
        mp + 3
    } else {
        mp - 9
    };
    let y: u64 = if m <= 2 {
        b + 1
    } else {
        b
    };
    proof {
        lemma_civil(
            era as int,
            yoe as int,
            doy as int,
            mp as int,
            y as int,
            m as int,
            d as int,
        );
    }
    (y, m, d)
}

/// Days are counted one by one from the first of 1970: a day after another of its month, the first
/// of a month after the last of the one before, and the first of a year after the last of December.
pub proof fn days_are_counted_one_by_one(y: int, m: int, d: int)
    requires
        1 <= m <= 12,
    ensures
        day_number(1970, 1, 1) == 0,
        day_number(y, m, d + 1) == day_number(y, m, d) + 1,
        day_number(y + 1, 1, 1) == day_number(y, 12, 31) + 1,
        m == 2 && y % 4 != 0 ==> day_number(y, 3, 1) == day_number(y, 2, 28) + 1,
        m == 2 && y % 4 == 0 && y % 100 != 0 ==> day_number(y, 3, 1) == day_number(y, 2, 29) + 1,
        m == 2 && y % 100 == 0 && y % 400 != 0 ==> day_number(y, 3, 1) == day_number(y, 2, 28) + 1,
        m == 2 && y % 400 == 0 ==> day_number(y, 3, 1) == day_number(y, 2, 29) + 1,
        m == 4 || m == 6 || m == 9 || m == 11 ==> day_number(y, m + 1, 1) == day_number(y, m, 30)
            + 1,
        m == 1 || m == 3 || m == 5 || m == 7 || m == 8 || m == 10 ==> day_number(y, m + 1, 1)
            == day_number(y, m, 31) + 1,
{
    lemma_months(y);
    lemma_quotients(y, 4);
    lemma_quotients(y, 100);
    lemma_quotients(y, 400);
    assert(y % 100 == 0 ==> y % 4 == 0);
    assert(y % 400 == 0 ==> y % 100 == 0);
    assert(days_before_month(1970, 1) == 0);
    assert(days_before_month(y + 1, 1) == 0);
    assert(days_before_month(y, m + 1) == days_before_month(y, m) + month_len(y, m));
    assert(days_before_month(y, 3) == days_before_month(y, 2) + month_len(y, 2));
}

/// The days before December.
proof fn lemma_months(y: int)
    ensures
        days_before_month(y, 12) == if is_leap(y) {
            335int
        } else {
            334
        },
{
    reveal_with_fuel(days_before_month, 13);
}

/// A quotient grows by one at each multiple.
proof fn lemma_quotients(y: int, n: int)
    requires
        n == 4 || n == 100 || n == 400,
    ensures
        y / n - (y - 1) / n == if y % n == 0 {
            1int
        } else {
            0
        },
{
}

} // verus!
