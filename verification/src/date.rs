//! Calendar dates and times of day as plain values.
//!
//! A `Date` is a proleptic-Gregorian calendar date held as year, month and
//! day fields; the model covers the years 1 through 9999. Every date maps
//! to a day index: the number of days since January 1 of year 1. The index
//! gives the engine a linear timeline, so that "one day earlier" and
//! "window of the last 30 days" are plain integer arithmetic.

use vstd::prelude::*;
use vstd::arithmetic::div_mod::{
    lemma_div_is_ordered, lemma_div_is_ordered_by_denominator, lemma_div_pos_is_pos,
    lemma_fundamental_div_mod, lemma_fundamental_div_mod_converse, lemma_mod_multiples_basic,
};

verus! {

/// First year of the calendar model.
pub const MIN_YEAR: i32 = 1;

/// Last year of the calendar model.
pub const MAX_YEAR: i32 = 9999;

/// Strict upper bound on every day index of the model.
pub const DAY_INDEX_LIMIT: i64 = 3660000;

/// A year has an extra day in February when it is divisible by 4,
/// except century years, which must be divisible by 400.
pub open spec fn is_leap_year(y: int) -> bool {
    y % 4 == 0 && (y % 100 != 0 || y % 400 == 0)
}

/// Number of days of month `m` in year `y`.
pub open spec fn spec_days_in_month(y: int, m: int) -> int {
    if m == 2 {
        if is_leap_year(y) {
            29
        } else {
            28
        }
    } else if m == 4 || m == 6 || m == 9 || m == 11 {
        30
    } else {
        31
    }
}

/// Number of days of year `y` that lie before month `m`.
pub open spec fn spec_days_before_month(y: int, m: int) -> int {
    let base: int = if m == 1 {
        0
    } else if m == 2 {
        31
    } else if m == 3 {
        59
    } else if m == 4 {
        90
    } else if m == 5 {
        120
    } else if m == 6 {
        151
    } else if m == 7 {
        181
    } else if m == 8 {
        212
    } else if m == 9 {
        243
    } else if m == 10 {
        273
    } else if m == 11 {
        304
    } else {
        334
    };
    base + if m > 2 && is_leap_year(y) {
        1int
    } else {
        0int
    }
}

/// Number of leap years among the years 1 through `y - 1`.
pub open spec fn leap_years_before(y: int) -> int {
    (y - 1) / 4 - (y - 1) / 100 + (y - 1) / 400
}

/// Days since January 1 of year 1, so that that day has index 0.
pub open spec fn spec_day_index(y: int, m: int, d: int) -> int {
    365 * (y - 1) + leap_years_before(y) + spec_days_before_month(y, m) + (d - 1)
}

/// A calendar date, no time zone attached.
#[derive(Clone, Copy, PartialEq, Eq, Structural, Debug)]
pub struct Date {
    pub year: i32,
    pub month: u8,
    pub day: u8,
}

/// A wall-clock time of day, to the second, no date attached.
#[derive(Clone, Copy, PartialEq, Eq, Structural, Debug)]
pub struct TimeOfDay {
    pub hour: u8,
    pub minute: u8,
    pub second: u8,
}

impl Date {
    /// The date denotes a real calendar day within the model's year range.
    pub open spec fn wf(self) -> bool {
        &&& MIN_YEAR <= self.year <= MAX_YEAR
        &&& 1 <= self.month <= 12
        &&& 1 <= self.day <= spec_days_in_month(self.year as int, self.month as int)
    }

    pub open spec fn spec_index_of(self) -> int {
        spec_day_index(self.year as int, self.month as int, self.day as int)
    }

    /// Whether the date denotes a real calendar day within the model.
    pub fn is_valid(&self) -> (r: bool)
        ensures
            r == self.wf(),
    {
        MIN_YEAR <= self.year && self.year <= MAX_YEAR && 1 <= self.month && self.month <= 12
            && 1 <= self.day && self.day <= days_in_month(self.year, self.month)
    }

    /// Days since January 1 of year 1.
    pub fn day_index(&self) -> (r: i64)
        requires
            self.wf(),
        ensures
            r as int == self.spec_index_of(),
            0 <= r < DAY_INDEX_LIMIT,
    {
        proof {
            lemma_day_index_in_range(*self);
        }
        let y = (self.year - 1) as i64;
        365 * y + y / 4 - y / 100 + y / 400 + days_before_month(self.year, self.month) as i64
            + self.day as i64 - 1
    }
}

impl TimeOfDay {
    /// The fields denote a real time of day.
    pub open spec fn wf(self) -> bool {
        self.hour < 24 && self.minute < 60 && self.second < 60
    }

    /// Whether the fields denote a real time of day.
    pub fn is_valid(&self) -> (r: bool)
        ensures
            r == self.wf(),
    {
        self.hour < 24 && self.minute < 60 && self.second < 60
    }
}

/// Whether year `y` is a leap year.
pub fn is_leap(year: i32) -> (r: bool)
    requires
        year >= 1,
    ensures
        r == is_leap_year(year as int),
{
    year % 4 == 0 && (year % 100 != 0 || year % 400 == 0)
}

/// Number of days of month `month` in year `year`.
pub fn days_in_month(year: i32, month: u8) -> (r: u8)
    requires
        year >= 1,
        1 <= month <= 12,
    ensures
        r as int == spec_days_in_month(year as int, month as int),
{
    if month == 2 {
        if is_leap(year) {
            29
        } else {
            28
        }
    } else if month == 4 || month == 6 || month == 9 || month == 11 {
        30
    } else {
        31
    }
}

/// Number of days of year `year` that lie before month `month`.
fn days_before_month(year: i32, month: u8) -> (r: u16)
    requires
        year >= 1,
        1 <= month <= 12,
    ensures
        r as int == spec_days_before_month(year as int, month as int),
{
    let base: u16 = match month {
        1 => 0,
        2 => 31,
        3 => 59,
        4 => 90,
        5 => 120,
        6 => 151,
        7 => 181,
        8 => 212,
        9 => 243,
        10 => 273,
        11 => 304,
        _ => 334,
    };
    if month > 2 && is_leap(year) {
        base + 1
    } else {
        base
    }
}

/// Every well-formed date's index is nonnegative and below the model's limit.
pub proof fn lemma_day_index_in_range(d: Date)
    requires
        d.wf(),
    ensures
        0 <= d.spec_index_of() < DAY_INDEX_LIMIT,
{
    let y = d.year as int;
    lemma_div_pos_is_pos(y - 1, 4);
    lemma_div_pos_is_pos(y - 1, 100);
    lemma_div_pos_is_pos(y - 1, 400);
    lemma_div_is_ordered_by_denominator(y - 1, 4, 100);
    lemma_div_is_ordered(y - 1, 9998, 4);
    lemma_div_is_ordered(y - 1, 9998, 400);
}

/// Stepping the numerator down by one lowers the quotient exactly on multiples.
proof fn lemma_div_step(n: int, k: int)
    requires
        n >= 1,
        k >= 1,
    ensures
        n / k - (n - 1) / k == if n % k == 0 {
            1int
        } else {
            0int
        },
{
    lemma_fundamental_div_mod(n, k);
    let q = n / k;
    let r = n % k;
    if r == 0 {
        assert(n - 1 == (q - 1) * k + (k - 1)) by (nonlinear_arith)
            requires
                n == k * q + r,
                r == 0,
        ;
        lemma_fundamental_div_mod_converse(n - 1, k, q - 1, k - 1);
    } else {
        assert(n - 1 == q * k + (r - 1)) by (nonlinear_arith)
            requires
                n == k * q + r,
        ;
        lemma_fundamental_div_mod_converse(n - 1, k, q, r - 1);
    }
}

/// A year divisible by 400 is divisible by 100, and one divisible by 100 by 4.
proof fn lemma_divisibility_chain(n: int)
    requires
        n >= 0,
    ensures
        n % 400 == 0 ==> n % 100 == 0,
        n % 100 == 0 ==> n % 4 == 0,
{
    if n % 400 == 0 {
        lemma_fundamental_div_mod(n, 400);
        let t = n / 400;
        assert(n == (4 * t) * 100);
        lemma_mod_multiples_basic(4 * t, 100);
    }
    if n % 100 == 0 {
        lemma_fundamental_div_mod(n, 100);
        let t = n / 100;
        assert(n == (25 * t) * 4);
        lemma_mod_multiples_basic(25 * t, 4);
    }
}

/// Going from year `y - 1` to year `y` adds one leap year exactly when
/// `y - 1` is a leap year.
proof fn lemma_leap_count_step(y: int)
    requires
        y >= 2,
    ensures
        leap_years_before(y) - leap_years_before(y - 1) == if is_leap_year(y - 1) {
            1int
        } else {
            0int
        },
{
    let n = y - 1;
    lemma_div_step(n, 4);
    lemma_div_step(n, 100);
    lemma_div_step(n, 400);
    lemma_divisibility_chain(n);
}

/// The days before month `m + 1` are the days before month `m` plus month
/// `m`'s own days.
proof fn lemma_month_step(y: int, m: int)
    requires
        1 <= m <= 11,
    ensures
        spec_days_before_month(y, m + 1) == spec_days_before_month(y, m) + spec_days_in_month(
            y,
            m,
        ),
{
}

/// January 1 of year `y` comes 365 or 366 days after January 1 of `y - 1`.
proof fn lemma_year_start_step(y: int)
    requires
        y >= 2,
    ensures
        spec_day_index(y, 1, 1) == spec_day_index(y - 1, 1, 1) + 365 + if is_leap_year(y - 1) {
            1int
        } else {
            0int
        },
{
    lemma_leap_count_step(y);
}

/// Within its year, a date lies at most 365 days after January 1.
pub proof fn lemma_days_into_year(d: Date)
    requires
        d.wf(),
    ensures
        0 <= d.spec_index_of() - spec_day_index(d.year as int, 1, 1) <= 365,
{
}

/// January 1 indices never decrease as the year grows.
pub proof fn lemma_year_start_mono(y1: int, y2: int)
    requires
        1 <= y1 <= y2,
    ensures
        spec_day_index(y1, 1, 1) <= spec_day_index(y2, 1, 1),
    decreases y2 - y1,
{
    if y1 < y2 {
        lemma_year_start_mono(y1, y2 - 1);
        lemma_year_start_step(y2);
    }
}

/// Months lying earlier in the year cover earlier day ranges.
proof fn lemma_days_before_month_mono(y: int, m1: int, m2: int)
    requires
        1 <= m1 < m2 <= 12,
    ensures
        spec_days_before_month(y, m1) + spec_days_in_month(y, m1) <= spec_days_before_month(
            y,
            m2,
        ),
    decreases m2 - m1,
{
    lemma_month_step(y, m2 - 1);
    if m1 < m2 - 1 {
        lemma_days_before_month_mono(y, m1, m2 - 1);
    }
}

/// A date lexicographically earlier than another has a strictly smaller index.
proof fn lemma_day_index_lex(a: Date, b: Date)
    requires
        a.wf(),
        b.wf(),
        (a.year, a.month, a.day) != (b.year, b.month, b.day),
        a.year < b.year || (a.year == b.year && a.month < b.month) || (a.year == b.year && a.month
            == b.month && a.day < b.day),
    ensures
        a.spec_index_of() < b.spec_index_of(),
{
    let ya = a.year as int;
    let yb = b.year as int;
    if ya < yb {
        lemma_days_into_year(a);
        lemma_year_start_step(ya + 1);
        lemma_year_start_mono(ya + 1, yb);
        lemma_days_into_year(b);
    } else if a.month < b.month {
        lemma_days_before_month_mono(ya, a.month as int, b.month as int);
    }
}

/// The day index identifies a well-formed date uniquely.
pub proof fn lemma_day_index_injective(a: Date, b: Date)
    requires
        a.wf(),
        b.wf(),
        a.spec_index_of() == b.spec_index_of(),
    ensures
        a == b,
{
    if a.year < b.year || (a.year == b.year && a.month < b.month) || (a.year == b.year && a.month
        == b.month && a.day < b.day) {
        lemma_day_index_lex(a, b);
    }
    if b.year < a.year || (b.year == a.year && b.month < a.month) || (b.year == a.year && b.month
        == a.month && b.day < a.day) {
        lemma_day_index_lex(b, a);
    }
}

/// The calendar day directly before `d`.
pub fn prev_day(d: &Date) -> (r: Date)
    requires
        d.wf(),
        d.spec_index_of() >= 1,
    ensures
        r.wf(),
        r.spec_index_of() == d.spec_index_of() - 1,
{
    if d.day > 1 {
        Date { year: d.year, month: d.month, day: d.day - 1 }
    } else if d.month > 1 {
        let pm = d.month - 1;
        let pd = days_in_month(d.year, pm);
        proof {
            lemma_month_step(d.year as int, pm as int);
        }
        Date { year: d.year, month: pm, day: pd }
    } else {
        proof {
            lemma_leap_count_step(d.year as int);
        }
        Date { year: d.year - 1, month: 12, day: 31 }
    }
}

} // verus!
