//! Calendar model: dates in the proleptic Gregorian calendar, their
//! ordering, day numbering and weekdays.
//!
//! Every date carried through the audit is derived from a directory name of
//! the form `<prefix>YYYY-MM-DD`, so the model only covers the four-digit
//! years 1 through 9999.

use vstd::prelude::*;

verus! {

/// A calendar date, valid when `date_valid` holds.
#[derive(Clone, Copy, PartialEq, Eq, Structural, Debug, Hash)]
pub struct Date {
    pub year: i32,
    pub month: u32,
    pub day: u32,
}

pub open spec fn is_leap_year(y: int) -> bool {
    (y % 4 == 0 && y % 100 != 0) || y % 400 == 0
}

pub open spec fn days_in_month_of(y: int, m: int) -> int {
    if m == 2 {
        if is_leap_year(y) {
            29
        } else {
            28
        }
    } else if m == 4 || m == 6 || m == 9 || m == 11 {
        30
    } else {
        31
    }
}

pub open spec fn date_valid(d: Date) -> bool {
    &&& 1 <= d.year <= 9999
    &&& 1 <= d.month <= 12
    &&& 1 <= d.day <= days_in_month_of(d.year as int, d.month as int)
}

/// Number of days since 0000-03-01 of the proleptic Gregorian calendar,
/// counting in eras of 400 years (146097 days each).
pub open spec fn day_number_of(d: Date) -> int {
    let y: int = if d.month <= 2 {
        d.year - 1
    } else {
        d.year as int
    };
    let era: int = y / 400;
    let yoe: int = y - era * 400;
    let mp: int = if d.month > 2 {
        d.month - 3
    } else {
        d.month + 9
    };
    let doy: int = (153 * mp + 2) / 5 + d.day - 1;
    let doe: int = yoe * 365 + yoe / 4 - yoe / 100 + doy;
    era * 146097 + doe
}

/// Weekday of a date: Monday is 1, Sunday is 7.
pub open spec fn weekday_of(d: Date) -> int {
    (day_number_of(d) + 2) % 7 + 1
}

pub open spec fn is_business_day(d: Date) -> bool {
    weekday_of(d) <= 5
}

/// `a` is on or before `b` in calendar order.
pub open spec fn date_le(a: Date, b: Date) -> bool {
    ||| a.year < b.year
    ||| (a.year == b.year && a.month < b.month)
    ||| (a.year == b.year && a.month == b.month && a.day <= b.day)
}

/// `a` is strictly before `b` in calendar order.
pub open spec fn date_lt(a: Date, b: Date) -> bool {
    date_le(a, b) && a != b
}

/// The day after `d`.
pub open spec fn next_date_of(d: Date) -> Date {
    if d.day < days_in_month_of(d.year as int, d.month as int) {
        Date { year: d.year, month: d.month, day: (d.day + 1) as u32 }
    } else if d.month < 12 {
        Date { year: d.year, month: (d.month + 1) as u32, day: 1 }
    } else {
        Date { year: (d.year + 1) as i32, month: 1, day: 1 }
    }
}

pub fn days_in_month(year: i32, month: u32) -> (n: u32)
    requires
        1 <= year,
        1 <= month <= 12,
    ensures
        n == days_in_month_of(year as int, month as int),
{
    if month == 2 {
        if (year % 4 == 0 && year % 100 != 0) || year % 400 == 0 {
            29
        } else {
            28
        }
    } else if month == 4 || month == 6 || month == 9 || month == 11 {
        30
    } else {
        31
    }
}

pub fn date_is_valid(d: &Date) -> (r: bool)
    ensures
        r == date_valid(*d),
{
    1 <= d.year && d.year <= 9999 && 1 <= d.month && d.month <= 12 && 1 <= d.day && d.day
        <= days_in_month(d.year, d.month)
}

pub fn date_before_eq(a: &Date, b: &Date) -> (r: bool)
    ensures
        r == date_le(*a, *b),
{
    a.year < b.year || (a.year == b.year && (a.month < b.month || (a.month == b.month && a.day
        <= b.day)))
}

pub fn date_before(a: &Date, b: &Date) -> (r: bool)
    ensures
        r == date_lt(*a, *b),
{
    a.year < b.year || (a.year == b.year && (a.month < b.month || (a.month == b.month && a.day
        < b.day)))
}

/// Day number of a date, computable at run time.
pub fn day_number(d: &Date) -> (n: u64)
    requires
        date_valid(*d),
    ensures
        n == day_number_of(*d),
{
    let y: u64 = if d.month <= 2 {
        (d.year - 1) as u64
    } else {
        d.year as u64
    };
    let era: u64 = y / 400;
    let yoe: u64 = y - era * 400;
    let mp: u64 = if d.month > 2 {
        d.month as u64 - 3
    } else {
        d.month as u64 + 9
    };
    let doy: u64 = (153 * mp + 2) / 5 + d.day as u64 - 1;
    let doe: u64 = yoe * 365 + yoe / 4 - yoe / 100 + doy;
    era * 146097 + doe
}

/// Weekday of a date: Monday is 1, Sunday is 7.
pub fn weekday(d: &Date) -> (w: u32)
    requires
        date_valid(*d),
    ensures
        1 <= w <= 7,
        w == weekday_of(*d),
{
    let n = day_number(d);
    ((n + 2) % 7 + 1) as u32
}

/// The day after `d`.
pub fn next_day(d: &Date) -> (r: Date)
    requires
        date_valid(*d),
        !(d.year == 9999 && d.month == 12 && d.day == 31),
    ensures
        r == next_date_of(*d),
        date_valid(r),
        date_lt(*d, r),
{
    let dim = days_in_month(d.year, d.month);
    if d.day < dim {
        Date { year: d.year, month: d.month, day: d.day + 1 }
    } else if d.month < 12 {
        Date { year: d.year, month: d.month + 1, day: 1 }
    } else {
        Date { year: d.year + 1, month: 1, day: 1 }
    }
}

/// The result of reading a ten-character `YYYY-MM-DD` string: the encoded
/// date, provided the shape is right and the date is a valid calendar day.
pub open spec fn parse_date_chars(s: Seq<char>) -> Option<Date> {
    if s.len() == 10 && crate::text::is_digit_char(s[0]) && crate::text::is_digit_char(s[1])
        && crate::text::is_digit_char(s[2]) && crate::text::is_digit_char(s[3]) && s[4] == '-'
        && crate::text::is_digit_char(s[5]) && crate::text::is_digit_char(s[6]) && s[7] == '-'
        && crate::text::is_digit_char(s[8]) && crate::text::is_digit_char(s[9]) {
        let y = crate::text::digit_val(s[0]) * 1000 + crate::text::digit_val(s[1]) * 100
            + crate::text::digit_val(s[2]) * 10 + crate::text::digit_val(s[3]);
        let m = crate::text::digit_val(s[5]) * 10 + crate::text::digit_val(s[6]);
        let d = crate::text::digit_val(s[8]) * 10 + crate::text::digit_val(s[9]);
        let dt = Date { year: y as i32, month: m as u32, day: d as u32 };
        if date_valid(dt) {
            Some(dt)
        } else {
            None
        }
    } else {
        None
    }
}

/// Reads a digit character, or reports that it is not one.
fn digit_of(c: char) -> (r: Option<u32>)
    ensures
        r is Some <==> crate::text::is_digit_char(c),
        r is Some ==> r->0 == crate::text::digit_val(c) && r->0 <= 9,
{
    let v = c as u32;
    if 48 <= v && v <= 57 {
        Some(v - 48)
    } else {
        None
    }
}

/// Parses a strict ten-character `YYYY-MM-DD` date.
pub fn parse_ymd(s: &str) -> (r: Option<Date>)
    ensures
        r == parse_date_chars(s@),
        r is Some ==> date_valid(r->0),
{
    if s.unicode_len() != 10 {
        return None;
    }
    if s.get_char(4) != '-' || s.get_char(7) != '-' {
        return None;
    }
    let d0 = digit_of(s.get_char(0));
    let d1 = digit_of(s.get_char(1));
    let d2 = digit_of(s.get_char(2));
    let d3 = digit_of(s.get_char(3));
    let d5 = digit_of(s.get_char(5));
    let d6 = digit_of(s.get_char(6));
    let d8 = digit_of(s.get_char(8));
    let d9 = digit_of(s.get_char(9));
    match (d0, d1, d2, d3, d5, d6, d8, d9) {
        (
            Some(y0),
            Some(y1),
            Some(y2),
            Some(y3),
            Some(m0),
            Some(m1),
            Some(a0),
            Some(a1),
        ) => {
            let year = (y0 * 1000 + y1 * 100 + y2 * 10 + y3) as i32;
            let month = m0 * 10 + m1;
            let day = a0 * 10 + a1;
            let dt = Date { year, month, day };
            if date_is_valid(&dt) {
                Some(dt)
            } else {
                None
            }
        },
        _ => None,
    }
}

/// There is no valid date strictly between a date and its successor: any
/// valid date after `d` is on or after `next_date_of(d)`.
pub proof fn lemma_next_day_tight(d: Date, e: Date)
    requires
        date_valid(d),
        date_valid(e),
        date_lt(d, e),
    ensures
        date_le(next_date_of(d), e),
{
}

/// Floor division by `k` advances exactly at the multiples of `k`.
proof fn lemma_div_step(y: int, k: int)
    requires
        1 <= y,
        1 <= k,
    ensures
        y % k == 0 ==> y / k == (y - 1) / k + 1,
        y % k != 0 ==> y / k == (y - 1) / k,
{
    vstd::arithmetic::div_mod::lemma_fundamental_div_mod(y, k);
    let q = y / k;
    let r = y % k;
    assert(y == k * q + r);
    if r == 0 {
        assert(y - 1 == (q - 1) * k + (k - 1)) by (nonlinear_arith)
            requires
                y == k * q + 0,
                1 <= k,
        ;
        vstd::arithmetic::div_mod::lemma_fundamental_div_mod_converse_div(y - 1, k, q - 1, k - 1);
    } else {
        assert(y - 1 == q * k + (r - 1)) by (nonlinear_arith)
            requires
                y == k * q + r,
        ;
        vstd::arithmetic::div_mod::lemma_fundamental_div_mod_converse_div(y - 1, k, q, r - 1);
    }
}

/// Days contributed by the whole years up to March 1 of year `y`, counted
/// from 0000-03-01.
pub open spec fn year_days(y: int) -> int {
    365 * y + y / 4 - y / 100 + y / 400
}

/// The era/year-of-era split in `day_number_of` adds up to `year_days`.
proof fn lemma_era_form(y: int)
    requires
        0 <= y,
    ensures
        ({
            let era = y / 400;
            let yoe = y - era * 400;
            era * 146097 + yoe * 365 + yoe / 4 - yoe / 100 == year_days(y)
        }),
{
    let era = y / 400;
    let yoe = y - era * 400;
    vstd::arithmetic::div_mod::lemma_fundamental_div_mod(y, 400);
    vstd::arithmetic::div_mod::lemma_fundamental_div_mod(y, 4);
    vstd::arithmetic::div_mod::lemma_fundamental_div_mod(y, 100);
    let q4 = y / 4;
    let r4 = y % 4;
    let q100 = y / 100;
    let r100 = y % 100;
    assert(yoe == 4 * (q4 - 100 * era) + r4);
    vstd::arithmetic::div_mod::lemma_fundamental_div_mod_converse_div(yoe, 4, q4 - 100 * era, r4);
    assert(yoe == 100 * (q100 - 4 * era) + r100);
    vstd::arithmetic::div_mod::lemma_fundamental_div_mod_converse_div(
        yoe,
        100,
        q100 - 4 * era,
        r100,
    );
    assert(yoe / 4 == q4 - 100 * era);
    assert(yoe / 100 == q100 - 4 * era);
}

/// Moving from year `y - 1` to year `y` adds 365 days, or 366 when `y` is
/// a leap year.
proof fn lemma_year_days_step(y: int)
    requires
        1 <= y,
    ensures
        year_days(y) == year_days(y - 1) + 365 + (if is_leap_year(y) {
            1int
        } else {
            0int
        }),
{
    lemma_div_step(y, 4);
    lemma_div_step(y, 100);
    lemma_div_step(y, 400);
    if y % 400 == 0 {
        assert(y == 400 * (y / 400));
        assert(y == 100 * (4 * (y / 400)));
        vstd::arithmetic::div_mod::lemma_fundamental_div_mod_converse_mod(y, 100, 4 * (y / 400), 0);
        assert(y % 100 == 0);
    }
    if y % 100 == 0 {
        assert(y == 100 * (y / 100));
        assert(y == 4 * (25 * (y / 100)));
        vstd::arithmetic::div_mod::lemma_fundamental_div_mod_converse_mod(y, 4, 25 * (y / 100), 0);
        assert(y % 4 == 0);
    }
}

/// The successor of a date has the next day number.
pub proof fn lemma_day_number_next(d: Date)
    requires
        date_valid(d),
        !(d.year == 9999 && d.month == 12 && d.day == 31),
    ensures
        day_number_of(next_date_of(d)) == day_number_of(d) + 1,
{
    let n = next_date_of(d);
    if d.day < days_in_month_of(d.year as int, d.month as int) {
        // same month, next day: only the day-of-year term moves
    } else if d.month == 2 {
        // the last day of February: the year base switches from
        // `year - 1` to `year`
        lemma_era_form(d.year - 1);
        lemma_era_form(d.year as int);
        lemma_year_days_step(d.year as int);
        assert(day_number_of(d) == year_days(d.year - 1) + 337 + d.day - 1);
        assert(day_number_of(n) == year_days(d.year as int));
    } else {
        // the last day of any other month: both dates share the same
        // year base, so only the day-of-year terms matter
        if d.month == 1 {
            assert(day_number_of(n) == day_number_of(d) + 1);
        } else if d.month == 3 {
            assert(day_number_of(n) == day_number_of(d) + 1);
        } else if d.month == 4 {
            assert(day_number_of(n) == day_number_of(d) + 1);
        } else if d.month == 5 {
            assert(day_number_of(n) == day_number_of(d) + 1);
        } else if d.month == 6 {
            assert(day_number_of(n) == day_number_of(d) + 1);
        } else if d.month == 7 {
            assert(day_number_of(n) == day_number_of(d) + 1);
        } else if d.month == 8 {
            assert(day_number_of(n) == day_number_of(d) + 1);
        } else if d.month == 9 {
            assert(day_number_of(n) == day_number_of(d) + 1);
        } else if d.month == 10 {
            assert(day_number_of(n) == day_number_of(d) + 1);
        } else if d.month == 11 {
            assert(day_number_of(n) == day_number_of(d) + 1);
        } else {
            assert(d.month == 12);
            assert(day_number_of(n) == day_number_of(d) + 1);
        }
    }
}

/// Day numbers respect calendar order.
pub proof fn lemma_day_number_monotone(a: Date, b: Date)
    requires
        date_valid(a),
        date_valid(b),
        date_le(a, b),
    ensures
        day_number_of(a) <= day_number_of(b),
        date_lt(a, b) ==> day_number_of(a) < day_number_of(b),
    decreases b.year - a.year, 12 - a.month, 31 - a.day,
{
    if a == b {
    } else {
        assert(date_lt(a, b));
        assert(!(a.year == 9999 && a.month == 12 && a.day == 31));
        let n = next_date_of(a);
        lemma_day_number_next(a);
        lemma_next_day_tight(a, b);
        lemma_day_number_monotone(n, b);
    }
}

} // verus!
