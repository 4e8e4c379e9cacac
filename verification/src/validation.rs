//! Validation of user-entered date, time and distance strings, and the
//! canonical formatting of dates, times and distances.
//!
//! Dates are accepted as ISO `YYYY-MM-DD` or the US variants `MM/DD/YYYY`
//! and `MM-DD-YYYY`; times as 24-hour `HH:MM[:SS]` or 12-hour `HH:MM[:SS]`
//! with an `AM`/`PM` marker; a distance as a plain decimal number of miles,
//! read to hundredths of a mile. The grammar of each field is stated by the
//! spec predicates below, and each parser returns an error exactly when no
//! reading of its input exists.

use vstd::prelude::*;
use vstd::string::StringExecFns;
use crate::date::{Date, TimeOfDay, days_in_month, spec_days_in_month};

verus! {

/// Why a user-entered field was rejected.
#[derive(Clone, Copy, PartialEq, Eq, Structural, Debug)]
pub enum ValidationError {
    /// The distance field was left empty.
    DistanceRequired,
    /// The distance field is not a plain decimal number.
    InvalidDistance,
    /// The distance is zero or negative.
    DistanceNotPositive,
    /// The distance is over 200 miles.
    DistanceUnrealistic,
    /// The date field matches none of the accepted formats.
    InvalidDate,
    /// The time field matches none of the accepted formats.
    InvalidTime,
}

impl ValidationError {
    /// The message shown to the user for this rejection.
    pub fn message(&self) -> (r: String)
        ensures
            r@ == match self {
                ValidationError::DistanceRequired => "Distance is required"@,
                ValidationError::InvalidDistance => "Invalid distance. Enter a number (e.g., 3.5)"@,
                ValidationError::DistanceNotPositive => "Distance must be positive"@,
                ValidationError::DistanceUnrealistic => "Distance seems unrealistic (>200 miles)"@,
                ValidationError::InvalidDate => "Invalid date format. Use YYYY-MM-DD"@,
                ValidationError::InvalidTime => "Invalid time format. Use HH:MM or HH:MM:SS"@,
            },
    {
        match self {
            ValidationError::DistanceRequired => "Distance is required".to_owned(),
            ValidationError::InvalidDistance => "Invalid distance. Enter a number (e.g., 3.5)".to_owned(),
            ValidationError::DistanceNotPositive => "Distance must be positive".to_owned(),
            ValidationError::DistanceUnrealistic => "Distance seems unrealistic (>200 miles)".to_owned(),
            ValidationError::InvalidDate => "Invalid date format. Use YYYY-MM-DD".to_owned(),
            ValidationError::InvalidTime => "Invalid time format. Use HH:MM or HH:MM:SS".to_owned(),
        }
    }
}

pub open spec fn is_digit(c: char) -> bool {
    '0' <= c && c <= '9'
}

pub open spec fn digit_val(c: char) -> int {
    c as int - '0' as int
}

/// Value of a sequence of decimal digits, most significant first.
pub open spec fn digits_value(s: Seq<char>) -> int
    decreases s.len(),
{
    if s.len() == 0 {
        0
    } else {
        digits_value(s.drop_last()) * 10 + digit_val(s.last())
    }
}

pub open spec fn all_digits(s: Seq<char>) -> bool {
    forall|i: int| 0 <= i < s.len() ==> is_digit(#[trigger] s[i])
}

/// `s` is three digit fields separated by `sep` at positions `i` and `j`.
pub open spec fn split3(s: Seq<char>, sep: char, i: int, j: int) -> bool {
    &&& 0 <= i < j < s.len()
    &&& s[i] == sep
    &&& s[j] == sep
    &&& all_digits(s.subrange(0, i))
    &&& all_digits(s.subrange(i + 1, j))
    &&& all_digits(s.subrange(j + 1, s.len() as int))
}

/// `s` is two digit fields separated by `sep` at position `i`.
pub open spec fn split2(s: Seq<char>, sep: char, i: int) -> bool {
    &&& 0 <= i < s.len()
    &&& s[i] == sep
    &&& all_digits(s.subrange(0, i))
    &&& all_digits(s.subrange(i + 1, s.len() as int))
}

/// `s` reads `YYYY-MM-DD`: a four-digit year, then month and day of one or
/// two digits each.
pub open spec fn matches_ymd(s: Seq<char>, y: int, m: int, d: int) -> bool {
    exists|i: int, j: int|
        {
            &&& #[trigger] split3(s, '-', i, j)
            &&& i == 4
            &&& 1 <= j - i - 1 <= 2
            &&& 1 <= s.len() - j - 1 <= 2
            &&& y == digits_value(s.subrange(0, i))
            &&& m == digits_value(s.subrange(i + 1, j))
            &&& d == digits_value(s.subrange(j + 1, s.len() as int))
        }
}

/// `s` reads `MM<sep>DD<sep>YYYY`: month and day of one or two digits each,
/// then a four-digit year.
pub open spec fn matches_mdy(s: Seq<char>, sep: char, m: int, d: int, y: int) -> bool {
    exists|i: int, j: int|
        {
            &&& #[trigger] split3(s, sep, i, j)
            &&& 1 <= i <= 2
            &&& 1 <= j - i - 1 <= 2
            &&& s.len() - j - 1 == 4
            &&& m == digits_value(s.subrange(0, i))
            &&& d == digits_value(s.subrange(i + 1, j))
            &&& y == digits_value(s.subrange(j + 1, s.len() as int))
        }
}

/// The text denotes this date under one of the accepted formats.
pub open spec fn date_text_denotes(s: Seq<char>, date: Date) -> bool {
    ||| matches_ymd(s, date.year as int, date.month as int, date.day as int)
    ||| matches_mdy(s, '/', date.month as int, date.day as int, date.year as int)
    ||| matches_mdy(s, '-', date.month as int, date.day as int, date.year as int)
}

/// The fields denote a real calendar day within the model's year range.
pub open spec fn spec_valid_ymd(y: int, m: int, d: int) -> bool {
    1 <= y <= 9999 && 1 <= m <= 12 && 1 <= d <= spec_days_in_month(y, m)
}

/// What one pass over `s[from..to]` found: how many separators (capped at
/// three), where the first three stand, and whether every other character
/// is a digit.
struct SepScan {
    count: usize,
    p1: usize,
    p2: usize,
    p3: usize,
    digits_ok: bool,
}

/// Whether a character is a decimal digit.
fn is_digit_exec(c: char) -> (b: bool)
    ensures
        b == is_digit(c),
{
    let u = c as u32;
    48 <= u && u <= 57
}

/// One pass over `s[from..to]`, recording the separator positions and
/// whether all other characters are digits.
fn scan_separators(s: &str, from: usize, to: usize, sep: char) -> (r: SepScan)
    requires
        from <= to <= s@.len(),
        !is_digit(sep),
    ensures
        r.count <= 3,
        r.count >= 1 ==> from <= r.p1 < to && s@[r.p1 as int] == sep,
        r.count >= 2 ==> r.p1 < r.p2 < to && s@[r.p2 as int] == sep,
        r.count >= 3 ==> r.p2 < r.p3 < to && s@[r.p3 as int] == sep,
        forall|k: int|
            from <= k < to && (#[trigger] s@[k]) == sep ==> ((r.count >= 1 && k == r.p1) || (
            r.count >= 2 && k == r.p2) || (r.count >= 3 && k >= r.p3)),
        r.digits_ok <==> (forall|k: int|
            from <= k < to ==> (#[trigger] s@[k]) == sep || is_digit(s@[k])),
{
    let mut count: usize = 0;
    let mut p1: usize = 0;
    let mut p2: usize = 0;
    let mut p3: usize = 0;
    let mut digits_ok: bool = true;
    let mut k = from;
    while k < to
        invariant
            from <= k <= to <= s@.len(),
            count <= 3,
            count >= 1 ==> from <= p1 < k && s@[p1 as int] == sep,
            count >= 2 ==> p1 < p2 < k && s@[p2 as int] == sep,
            count >= 3 ==> p2 < p3 < k && s@[p3 as int] == sep,
            forall|k2: int|
                from <= k2 < k && (#[trigger] s@[k2]) == sep ==> ((count >= 1 && k2 == p1) || (
                count >= 2 && k2 == p2) || (count >= 3 && k2 >= p3)),
            digits_ok <==> (forall|k2: int|
                from <= k2 < k ==> (#[trigger] s@[k2]) == sep || is_digit(s@[k2])),
        decreases to - k,
    {
        let c = s.get_char(k);
        if c == sep {
            if count == 0 {
                p1 = k;
                count = 1;
            } else if count == 1 {
                p2 = k;
                count = 2;
            } else if count == 2 {
                p3 = k;
                count = 3;
            }
        } else if !is_digit_exec(c) {
            digits_ok = false;
        }
        k = k + 1;
    }
    SepScan { count, p1, p2, p3, digits_ok }
}

/// Powers of ten.
pub open spec fn pow10(n: int) -> int
    decreases n,
{
    if n <= 0 {
        1
    } else {
        10 * pow10(n - 1)
    }
}

/// Reads the decimal digits `s[from..to]` as a number of at most four digits.
fn parse_digits(s: &str, from: usize, to: usize) -> (v: u32)
    requires
        from <= to <= s@.len(),
        to - from <= 4,
        all_digits(s@.subrange(from as int, to as int)),
    ensures
        v as int == digits_value(s@.subrange(from as int, to as int)),
        v <= 9999,
{
    proof {
        reveal_with_fuel(pow10, 5);
    }
    let mut v: u32 = 0;
    let mut k = from;
    while k < to
        invariant
            from <= k <= to <= s@.len(),
            to - from <= 4,
            all_digits(s@.subrange(from as int, to as int)),
            v as int == digits_value(s@.subrange(from as int, k as int)),
            (v as int) < pow10((k - from) as int),
            pow10(4) == 10000,
            pow10(3) == 1000,
            pow10(2) == 100,
            pow10(1) == 10,
            pow10(0) == 1,
        decreases to - k,
    {
        let c = s.get_char(k);
        proof {
            assert(s@.subrange(from as int, to as int)[k - from] == s@[k as int]);
            assert(is_digit(s@[k as int]));
            assert(s@.subrange(from as int, k as int + 1).drop_last() =~= s@.subrange(
                from as int,
                k as int,
            ));
            assert(s@.subrange(from as int, k as int + 1).last() == s@[k as int]);
        }
        let d = (c as u32) - 48;
        v = v * 10 + d;
        k = k + 1;
    }
    v
}

/// Builds a date from parsed fields exactly when they denote a real day.
fn checked_date(y: u32, m: u32, d: u32) -> (r: Option<Date>)
    ensures
        r is Some <==> spec_valid_ymd(y as int, m as int, d as int),
        r is Some ==> {
            let date = r->0;
            &&& date.wf()
            &&& date.year as int == y
            &&& date.month as int == m
            &&& date.day as int == d
        },
{
    if 1 <= y && y <= 9999 && 1 <= m && m <= 12 {
        let dim = days_in_month(y as i32, m as u8);
        if 1 <= d && d <= dim as u32 {
            return Some(Date { year: y as i32, month: m as u8, day: d as u8 });
        }
    }
    None
}

/// Two readings of `s` as three digit fields use the same separators.
proof fn lemma_split3_unique(s: Seq<char>, sep: char, i: int, j: int, i2: int, j2: int)
    requires
        !is_digit(sep),
        split3(s, sep, i, j),
        split3(s, sep, i2, j2),
    ensures
        i == i2 && j == j2,
{
    if i2 < i {
        assert(is_digit(s.subrange(0, i)[i2]));
        assert(s.subrange(0, i)[i2] == s[i2]);
    } else if i < i2 && i2 < j {
        assert(is_digit(s.subrange(i + 1, j)[i2 - i - 1]));
    } else if j < i2 {
        assert(is_digit(s.subrange(j + 1, s.len() as int)[i2 - j - 1]));
    } else if i2 == j {
        if j2 < j {
            assert(false) by {
                if i < j2 {
                    assert(is_digit(s.subrange(i + 1, j)[j2 - i - 1]));
                } else if j2 < i {
                    assert(is_digit(s.subrange(0, i)[j2]));
                }
            }
        } else {
            assert(is_digit(s.subrange(j + 1, s.len() as int)[j2 - j - 1]));
        }
    }
    if j2 < j && i < j2 {
        assert(is_digit(s.subrange(i + 1, j)[j2 - i - 1]));
    } else if j < j2 {
        assert(is_digit(s.subrange(j + 1, s.len() as int)[j2 - j - 1]));
    }
}

/// Every position of a three-field reading other than its separators holds
/// a digit.
proof fn lemma_split3_covers(s: Seq<char>, sep: char, i: int, j: int, p: int)
    requires
        split3(s, sep, i, j),
        0 <= p < s.len(),
        p != i,
        p != j,
    ensures
        is_digit(s[p]),
{
    if p < i {
        assert(s.subrange(0, i)[p] == s[p]);
    } else if p < j {
        assert(s.subrange(i + 1, j)[p - i - 1] == s[p]);
    } else {
        assert(s.subrange(j + 1, s.len() as int)[p - j - 1] == s[p]);
    }
}

/// Parses a user-entered date string.
///
/// An empty string defaults to `today`. Otherwise the string is accepted
/// exactly when it reads, under one of the three formats, as a real
/// calendar day; any other input is rejected as an invalid date.
pub fn parse_date(date_str: &str, today: &Date) -> (r: Result<Date, ValidationError>)
    requires
        today.wf(),
    ensures
        date_str@.len() == 0 ==> r == Result::<Date, ValidationError>::Ok(*today),
        date_str@.len() > 0 ==> match r {
            Ok(date) => date.wf() && date_text_denotes(date_str@, date),
            Err(e) => {
                &&& e == ValidationError::InvalidDate
                &&& forall|d2: Date| d2.wf() ==> !date_text_denotes(date_str@, d2)
            },
        },
{
    let len = date_str.unicode_len();
    if len == 0 {
        return Ok(*today);
    }
    let s = date_str;
    let dash = scan_separators(s, 0, len, '-');
    if dash.count == 2 && dash.digits_ok {
        let i = dash.p1;
        let j = dash.p2;
        proof {
            assert forall|k2: int| 0 <= k2 < i implies is_digit(#[trigger] s@.subrange(
                0,
                i as int,
            )[k2]) by {
                assert(s@.subrange(0, i as int)[k2] == s@[k2]);
            }
            assert forall|k2: int| 0 <= k2 < j - i - 1 implies is_digit(#[trigger] s@.subrange(
                i as int + 1,
                j as int,
            )[k2]) by {
                assert(s@.subrange(i as int + 1, j as int)[k2] == s@[k2 + i + 1]);
            }
            assert forall|k2: int| 0 <= k2 < len - j - 1 implies is_digit(#[trigger] s@.subrange(
                j as int + 1,
                len as int,
            )[k2]) by {
                assert(s@.subrange(j as int + 1, len as int)[k2] == s@[k2 + j + 1]);
            }
            assert(split3(s@, '-', i as int, j as int));
        }
        if i == 4 && j - i >= 2 && j - i <= 3 && len - j >= 2 && len - j <= 3 {
            let y = parse_digits(s, 0, i);
            let m = parse_digits(s, i + 1, j);
            let d = parse_digits(s, j + 1, len);
            match checked_date(y, m, d) {
                Some(date) => {
                    proof {
                        assert(matches_ymd(s@, y as int, m as int, d as int));
                    }
                    Ok(date)
                },
                None => {
                    proof {
                        assert forall|d2: Date| d2.wf() implies !date_text_denotes(s@, d2) by {
                            if matches_ymd(s@, d2.year as int, d2.month as int, d2.day as int) {
                                let (i2, j2) = choose|i2: int, j2: int|
                                    {
                                        &&& #[trigger] split3(s@, '-', i2, j2)
                                        &&& i2 == 4
                                        &&& 1 <= j2 - i2 - 1 <= 2
                                        &&& 1 <= s@.len() - j2 - 1 <= 2
                                        &&& d2.year as int == digits_value(s@.subrange(0, i2))
                                        &&& d2.month as int == digits_value(
                                            s@.subrange(i2 + 1, j2),
                                        )
                                        &&& d2.day as int == digits_value(
                                            s@.subrange(j2 + 1, s@.len() as int),
                                        )
                                    };
                                lemma_split3_unique(s@, '-', i as int, j as int, i2, j2);
                                assert(false);
                            }
                            if matches_mdy(s@, '-', d2.month as int, d2.day as int, d2.year as int) {
                                let (i2, j2) = choose|i2: int, j2: int|
                                    {
                                        &&& #[trigger] split3(s@, '-', i2, j2)
                                        &&& 1 <= i2 <= 2
                                        &&& 1 <= j2 - i2 - 1 <= 2
                                        &&& s@.len() - j2 - 1 == 4
                                        &&& d2.month as int == digits_value(s@.subrange(0, i2))
                                        &&& d2.day as int == digits_value(s@.subrange(i2 + 1, j2))
                                        &&& d2.year as int == digits_value(
                                            s@.subrange(j2 + 1, s@.len() as int),
                                        )
                                    };
                                lemma_split3_unique(s@, '-', i as int, j as int, i2, j2);
                                assert(false);
                            }
                            if matches_mdy(s@, '/', d2.month as int, d2.day as int, d2.year as int) {
                                let (i2, j2) = choose|i2: int, j2: int|
                                    {
                                        &&& #[trigger] split3(s@, '/', i2, j2)
                                        &&& 1 <= i2 <= 2
                                        &&& 1 <= j2 - i2 - 1 <= 2
                                        &&& s@.len() - j2 - 1 == 4
                                        &&& d2.month as int == digits_value(s@.subrange(0, i2))
                                        &&& d2.day as int == digits_value(s@.subrange(i2 + 1, j2))
                                        &&& d2.year as int == digits_value(
                                            s@.subrange(j2 + 1, s@.len() as int),
                                        )
                                    };
                                if i as int != i2 && i as int != j2 {
                                    lemma_split3_covers(s@, '/', i2, j2, i as int);
                                }
                                assert(false);
                            }
                        }
                    }
                    Err(ValidationError::InvalidDate)
                },
            }
        } else if i >= 1 && i <= 2 && j - i >= 2 && j - i <= 3 && len - j == 5 {
            let m = parse_digits(s, 0, i);
            let d = parse_digits(s, i + 1, j);
            let y = parse_digits(s, j + 1, len);
            match checked_date(y, m, d) {
                Some(date) => {
                    proof {
                        assert(matches_mdy(s@, '-', m as int, d as int, y as int));
                    }
                    Ok(date)
                },
                None => {
                    proof {
                        lemma_no_other_date_reading(s@, '-', i as int, j as int);
                        assert forall|d2: Date| d2.wf() implies !date_text_denotes(s@, d2) by {
                            if matches_mdy(s@, '-', d2.month as int, d2.day as int, d2.year as int) {
                                let (i2, j2) = choose|i2: int, j2: int|
                                    {
                                        &&& #[trigger] split3(s@, '-', i2, j2)
                                        &&& 1 <= i2 <= 2
                                        &&& 1 <= j2 - i2 - 1 <= 2
                                        &&& s@.len() - j2 - 1 == 4
                                        &&& d2.month as int == digits_value(s@.subrange(0, i2))
                                        &&& d2.day as int == digits_value(s@.subrange(i2 + 1, j2))
                                        &&& d2.year as int == digits_value(
                                            s@.subrange(j2 + 1, s@.len() as int),
                                        )
                                    };
                                lemma_split3_unique(s@, '-', i as int, j as int, i2, j2);
                                assert(false);
                            }
                        }
                    }
                    Err(ValidationError::InvalidDate)
                },
            }
        } else {
            proof {
                lemma_no_other_date_reading(s@, '-', i as int, j as int);
                assert forall|d2: Date| d2.wf() implies !date_text_denotes(s@, d2) by {
                    if matches_ymd(s@, d2.year as int, d2.month as int, d2.day as int) {
                        let (i2, j2) = choose|i2: int, j2: int|
                            {
                                &&& #[trigger] split3(s@, '-', i2, j2)
                                &&& i2 == 4
                                &&& 1 <= j2 - i2 - 1 <= 2
                                &&& 1 <= s@.len() - j2 - 1 <= 2
                            };
                        lemma_split3_unique(s@, '-', i as int, j as int, i2, j2);
                        assert(false);
                    }
                    if matches_mdy(s@, '-', d2.month as int, d2.day as int, d2.year as int) {
                        let (i2, j2) = choose|i2: int, j2: int|
                            {
                                &&& #[trigger] split3(s@, '-', i2, j2)
                                &&& 1 <= i2 <= 2
                                &&& 1 <= j2 - i2 - 1 <= 2
                                &&& s@.len() - j2 - 1 == 4
                            };
                        lemma_split3_unique(s@, '-', i as int, j as int, i2, j2);
                        assert(false);
                    }
                }
            }
            Err(ValidationError::InvalidDate)
        }
    } else {
        proof {
            assert forall|i2: int, j2: int| !split3(s@, '-', i2, j2) by {
                if split3(s@, '-', i2, j2) {
                    if !dash.digits_ok {
                        let k0 = choose|k: int|
                            0 <= k < len && !((#[trigger] s@[k]) == '-' || is_digit(s@[k]));
                        if k0 != i2 && k0 != j2 {
                            lemma_split3_covers(s@, '-', i2, j2, k0);
                        }
                        assert(false);
                    } else {
                        if dash.count >= 3 {
                            if dash.p1 as int != i2 && dash.p1 as int != j2 {
                                lemma_split3_covers(s@, '-', i2, j2, dash.p1 as int);
                            }
                            if dash.p2 as int != i2 && dash.p2 as int != j2 {
                                lemma_split3_covers(s@, '-', i2, j2, dash.p2 as int);
                            }
                            if dash.p3 as int != i2 && dash.p3 as int != j2 {
                                lemma_split3_covers(s@, '-', i2, j2, dash.p3 as int);
                            }
                        }
                        assert(false);
                    }
                }
            }
        }
        let slash = scan_separators(s, 0, len, '/');
        if slash.count == 2 && slash.digits_ok {
            let i = slash.p1;
            let j = slash.p2;
            proof {
                assert forall|k2: int| 0 <= k2 < i implies is_digit(#[trigger] s@.subrange(
                    0,
                    i as int,
                )[k2]) by {
                    assert(s@.subrange(0, i as int)[k2] == s@[k2]);
                }
                assert forall|k2: int| 0 <= k2 < j - i - 1 implies is_digit(#[trigger] s@.subrange(
                    i as int + 1,
                    j as int,
                )[k2]) by {
                    assert(s@.subrange(i as int + 1, j as int)[k2] == s@[k2 + i + 1]);
                }
                assert forall|k2: int| 0 <= k2 < len - j - 1 implies is_digit(
                    #[trigger] s@.subrange(j as int + 1, len as int)[k2],
                ) by {
                    assert(s@.subrange(j as int + 1, len as int)[k2] == s@[k2 + j + 1]);
                }
                assert(split3(s@, '/', i as int, j as int));
            }
            if i >= 1 && i <= 2 && j - i >= 2 && j - i <= 3 && len - j == 5 {
                let m = parse_digits(s, 0, i);
                let d = parse_digits(s, i + 1, j);
                let y = parse_digits(s, j + 1, len);
                match checked_date(y, m, d) {
                    Some(date) => {
                        proof {
                            assert(matches_mdy(s@, '/', m as int, d as int, y as int));
                        }
                        Ok(date)
                    },
                    None => {
                        proof {
                            assert forall|d2: Date| d2.wf() implies !date_text_denotes(s@, d2) by {
                                if matches_mdy(
                                    s@,
                                    '/',
                                    d2.month as int,
                                    d2.day as int,
                                    d2.year as int,
                                ) {
                                    let (i2, j2) = choose|i2: int, j2: int|
                                        {
                                            &&& #[trigger] split3(s@, '/', i2, j2)
                                            &&& 1 <= i2 <= 2
                                            &&& 1 <= j2 - i2 - 1 <= 2
                                            &&& s@.len() - j2 - 1 == 4
                                            &&& d2.month as int == digits_value(s@.subrange(0, i2))
                                            &&& d2.day as int == digits_value(
                                                s@.subrange(i2 + 1, j2),
                                            )
                                            &&& d2.year as int == digits_value(
                                                s@.subrange(j2 + 1, s@.len() as int),
                                            )
                                        };
                                    lemma_split3_unique(s@, '/', i as int, j as int, i2, j2);
                                    assert(false);
                                }
                            }
                        }
                        Err(ValidationError::InvalidDate)
                    },
                }
            } else {
                proof {
                    assert forall|d2: Date| d2.wf() implies !date_text_denotes(s@, d2) by {
                        if matches_mdy(s@, '/', d2.month as int, d2.day as int, d2.year as int) {
                            let (i2, j2) = choose|i2: int, j2: int|
                                {
                                    &&& #[trigger] split3(s@, '/', i2, j2)
                                    &&& 1 <= i2 <= 2
                                    &&& 1 <= j2 - i2 - 1 <= 2
                                    &&& s@.len() - j2 - 1 == 4
                                };
                            lemma_split3_unique(s@, '/', i as int, j as int, i2, j2);
                            assert(false);
                        }
                    }
                }
                Err(ValidationError::InvalidDate)
            }
        } else {
            proof {
                assert forall|i2: int, j2: int| !split3(s@, '/', i2, j2) by {
                    if split3(s@, '/', i2, j2) {
                        if !slash.digits_ok {
                            let k0 = choose|k: int|
                                0 <= k < len && !((#[trigger] s@[k]) == '/' || is_digit(s@[k]));
                            if k0 != i2 && k0 != j2 {
                                lemma_split3_covers(s@, '/', i2, j2, k0);
                            }
                            assert(false);
                        } else {
                            if slash.count >= 3 {
                                if slash.p1 as int != i2 && slash.p1 as int != j2 {
                                    lemma_split3_covers(s@, '/', i2, j2, slash.p1 as int);
                                }
                                if slash.p2 as int != i2 && slash.p2 as int != j2 {
                                    lemma_split3_covers(s@, '/', i2, j2, slash.p2 as int);
                                }
                                if slash.p3 as int != i2 && slash.p3 as int != j2 {
                                    lemma_split3_covers(s@, '/', i2, j2, slash.p3 as int);
                                }
                            }
                            assert(false);
                        }
                    }
                }
            }
            Err(ValidationError::InvalidDate)
        }
    }
}

/// A string that reads as month-day-year under `sep` admits no other
/// placement of its separators; stated for reuse at rejection sites.
proof fn lemma_no_other_date_reading(s: Seq<char>, sep: char, i: int, j: int)
    requires
        !is_digit(sep),
        split3(s, sep, i, j),
    ensures
        forall|i2: int, j2: int| #[trigger] split3(s, sep, i2, j2) ==> i2 == i && j2 == j,
{
    assert forall|i2: int, j2: int| #[trigger] split3(s, sep, i2, j2) implies i2 == i && j2
        == j by {
        lemma_split3_unique(s, sep, i, j, i2, j2);
    }
}

/// Every position of a two-field reading other than its separator holds a
/// digit.
proof fn lemma_split2_covers(s: Seq<char>, sep: char, i: int, p: int)
    requires
        split2(s, sep, i),
        0 <= p < s.len(),
        p != i,
    ensures
        is_digit(s[p]),
{
    if p < i {
        assert(s.subrange(0, i)[p] == s[p]);
    } else {
        assert(s.subrange(i + 1, s.len() as int)[p - i - 1] == s[p]);
    }
}

/// Two readings of `s` as two digit fields use the same separator.
proof fn lemma_split2_unique(s: Seq<char>, sep: char, i: int, i2: int)
    requires
        !is_digit(sep),
        split2(s, sep, i),
        split2(s, sep, i2),
    ensures
        i == i2,
{
    if i != i2 {
        lemma_split2_covers(s, sep, i, i2);
    }
}

/// A string that reads as two digit fields under a separator does not also
/// read as three.
proof fn lemma_split2_split3_exclusive(s: Seq<char>, sep: char, i2: int)
    requires
        !is_digit(sep),
        split2(s, sep, i2),
    ensures
        forall|i3: int, j3: int| !(#[trigger] split3(s, sep, i3, j3)),
{
    assert forall|i3: int, j3: int| !(#[trigger] split3(s, sep, i3, j3)) by {
        if split3(s, sep, i3, j3) {
            if i3 != i2 {
                lemma_split2_covers(s, sep, i2, i3);
            }
            if j3 != i2 {
                lemma_split2_covers(s, sep, i2, j3);
            }
        }
    }
}

/// A character that is neither a digit nor a colon rules out every reading
/// of the string as colon-separated digit fields.
proof fn lemma_nondigit_kills_time_splits(s: Seq<char>, p: int)
    requires
        0 <= p < s.len(),
        s[p] != ':',
        !is_digit(s[p]),
    ensures
        forall|i: int| !(#[trigger] split2(s, ':', i)),
        forall|i: int, j: int| !(#[trigger] split3(s, ':', i, j)),
{
    assert forall|i: int| !(#[trigger] split2(s, ':', i)) by {
        if split2(s, ':', i) {
            if p != i {
                lemma_split2_covers(s, ':', i, p);
            }
        }
    }
    assert forall|i: int, j: int| !(#[trigger] split3(s, ':', i, j)) by {
        if split3(s, ':', i, j) {
            if p != i && p != j {
                lemma_split3_covers(s, ':', i, j, p);
            }
        }
    }
}

/// `s` reads `HH:MM:SS`, each field of one or two digits.
pub open spec fn matches_hms(s: Seq<char>, h: int, mi: int, sec: int) -> bool {
    exists|i: int, j: int|
        {
            &&& #[trigger] split3(s, ':', i, j)
            &&& 1 <= i <= 2
            &&& 1 <= j - i - 1 <= 2
            &&& 1 <= s.len() - j - 1 <= 2
            &&& h == digits_value(s.subrange(0, i))
            &&& mi == digits_value(s.subrange(i + 1, j))
            &&& sec == digits_value(s.subrange(j + 1, s.len() as int))
        }
}

/// `s` reads `HH:MM`, each field of one or two digits.
pub open spec fn matches_hm(s: Seq<char>, h: int, mi: int) -> bool {
    exists|i: int|
        {
            &&& #[trigger] split2(s, ':', i)
            &&& 1 <= i <= 2
            &&& 1 <= s.len() - i - 1 <= 2
            &&& h == digits_value(s.subrange(0, i))
            &&& mi == digits_value(s.subrange(i + 1, s.len() as int))
        }
}

/// Both readings of `s` as hour-minute-second give the same values.
proof fn lemma_hms_values_unique(s: Seq<char>, a1: int, b1: int, c1: int, a2: int, b2: int, c2: int)
    requires
        matches_hms(s, a1, b1, c1),
        matches_hms(s, a2, b2, c2),
    ensures
        a1 == a2 && b1 == b2 && c1 == c2,
{
    let (i1, j1) = choose|i: int, j: int|
        {
            &&& #[trigger] split3(s, ':', i, j)
            &&& 1 <= i <= 2
            &&& 1 <= j - i - 1 <= 2
            &&& 1 <= s.len() - j - 1 <= 2
            &&& a1 == digits_value(s.subrange(0, i))
            &&& b1 == digits_value(s.subrange(i + 1, j))
            &&& c1 == digits_value(s.subrange(j + 1, s.len() as int))
        };
    let (i2, j2) = choose|i: int, j: int|
        {
            &&& #[trigger] split3(s, ':', i, j)
            &&& 1 <= i <= 2
            &&& 1 <= j - i - 1 <= 2
            &&& 1 <= s.len() - j - 1 <= 2
            &&& a2 == digits_value(s.subrange(0, i))
            &&& b2 == digits_value(s.subrange(i + 1, j))
            &&& c2 == digits_value(s.subrange(j + 1, s.len() as int))
        };
    lemma_split3_unique(s, ':', i1, j1, i2, j2);
}

/// Both readings of `s` as hour-minute give the same values.
proof fn lemma_hm_values_unique(s: Seq<char>, a1: int, b1: int, a2: int, b2: int)
    requires
        matches_hm(s, a1, b1),
        matches_hm(s, a2, b2),
    ensures
        a1 == a2 && b1 == b2,
{
    let i1 = choose|i: int|
        {
            &&& #[trigger] split2(s, ':', i)
            &&& 1 <= i <= 2
            &&& 1 <= s.len() - i - 1 <= 2
            &&& a1 == digits_value(s.subrange(0, i))
            &&& b1 == digits_value(s.subrange(i + 1, s.len() as int))
        };
    let i2 = choose|i: int|
        {
            &&& #[trigger] split2(s, ':', i)
            &&& 1 <= i <= 2
            &&& 1 <= s.len() - i - 1 <= 2
            &&& a2 == digits_value(s.subrange(0, i))
            &&& b2 == digits_value(s.subrange(i + 1, s.len() as int))
        };
    lemma_split2_unique(s, ':', i1, i2);
}

/// A string that reads with a seconds field does not also read without one.
proof fn lemma_hm_hms_exclusive(s: Seq<char>, a1: int, b1: int)
    requires
        matches_hm(s, a1, b1),
    ensures
        forall|a2: int, b2: int, c2: int| !matches_hms(s, a2, b2, c2),
{
    let i1 = choose|i: int|
        {
            &&& #[trigger] split2(s, ':', i)
            &&& 1 <= i <= 2
            &&& 1 <= s.len() - i - 1 <= 2
            &&& a1 == digits_value(s.subrange(0, i))
            &&& b1 == digits_value(s.subrange(i + 1, s.len() as int))
        };
    lemma_split2_split3_exclusive(s, ':', i1);
    assert forall|a2: int, b2: int, c2: int| !matches_hms(s, a2, b2, c2) by {
        if matches_hms(s, a2, b2, c2) {
            let (i2, j2) = choose|i: int, j: int| #[trigger] split3(s, ':', i, j) && 1 <= i <= 2;
            assert(false);
        }
    }
}

/// The meridiem letter of the 12-hour formats.
pub open spec fn is_meridiem(c: char, pm: bool) -> bool {
    if pm {
        c == 'P' || c == 'p'
    } else {
        c == 'A' || c == 'a'
    }
}

/// `s` ends in a space, a meridiem letter and an `M`, upper or lower case.
pub open spec fn has_meridiem_suffix(s: Seq<char>, pm: bool) -> bool {
    &&& s.len() >= 4
    &&& s[s.len() - 3] == ' '
    &&& is_meridiem(s[s.len() - 2], pm)
    &&& (s[s.len() - 1] == 'M' || s[s.len() - 1] == 'm')
}

/// The 24-hour reading of a 12-hour clock value.
pub open spec fn hour_from_12(h12: int, pm: bool) -> int {
    if pm {
        if h12 == 12 {
            12
        } else {
            h12 + 12
        }
    } else {
        if h12 == 12 {
            0
        } else {
            h12
        }
    }
}

/// The text denotes this time of day under one of the accepted formats.
pub open spec fn time_text_denotes(s: Seq<char>, t: TimeOfDay) -> bool {
    ||| matches_hms(s, t.hour as int, t.minute as int, t.second as int)
    ||| (matches_hm(s, t.hour as int, t.minute as int) && t.second == 0)
    ||| (exists|h12: int, pm: bool|
        {
            &&& #[trigger] hour_from_12(h12, pm) == t.hour as int
            &&& 1 <= h12 <= 12
            &&& has_meridiem_suffix(s, pm)
            &&& {
                let body = s.take(s.len() - 3);
                (matches_hm(body, h12, t.minute as int) && t.second == 0) || matches_hms(
                    body,
                    h12,
                    t.minute as int,
                    t.second as int,
                )
            }
        })
}

/// Reads colon-separated digit fields: the hour-like field, the minute, the
/// second (zero without a seconds field), and whether seconds were present.
fn parse_time_fields(s: &str) -> (r: Option<(u32, u32, u32, bool)>)
    ensures
        match r {
            Some(f) => {
                if f.3 {
                    matches_hms(s@, f.0 as int, f.1 as int, f.2 as int)
                } else {
                    matches_hm(s@, f.0 as int, f.1 as int) && f.2 == 0
                }
            },
            None => {
                &&& forall|a: int, b: int, c: int| !matches_hms(s@, a, b, c)
                &&& forall|a: int, b: int| !matches_hm(s@, a, b)
            },
        },
{
    let len = s.unicode_len();
    let colon = scan_separators(s, 0, len, ':');
    if colon.count == 2 && colon.digits_ok {
        let i = colon.p1;
        let j = colon.p2;
        proof {
            assert forall|k2: int| 0 <= k2 < i implies is_digit(#[trigger] s@.subrange(
                0,
                i as int,
            )[k2]) by {
                assert(s@.subrange(0, i as int)[k2] == s@[k2]);
            }
            assert forall|k2: int| 0 <= k2 < j - i - 1 implies is_digit(#[trigger] s@.subrange(
                i as int + 1,
                j as int,
            )[k2]) by {
                assert(s@.subrange(i as int + 1, j as int)[k2] == s@[k2 + i + 1]);
            }
            assert forall|k2: int| 0 <= k2 < len - j - 1 implies is_digit(#[trigger] s@.subrange(
                j as int + 1,
                len as int,
            )[k2]) by {
                assert(s@.subrange(j as int + 1, len as int)[k2] == s@[k2 + j + 1]);
            }
            assert(split3(s@, ':', i as int, j as int));
        }
        if i >= 1 && i <= 2 && j - i >= 2 && j - i <= 3 && len - j >= 2 && len - j <= 3 {
            let h = parse_digits(s, 0, i);
            let mi = parse_digits(s, i + 1, j);
            let sec = parse_digits(s, j + 1, len);
            proof {
                assert(matches_hms(s@, h as int, mi as int, sec as int));
            }
            Some((h, mi, sec, true))
        } else {
            proof {
                lemma_no_other_date_reading(s@, ':', i as int, j as int);
                assert forall|a: int, b: int, c: int| !matches_hms(s@, a, b, c) by {
                    if matches_hms(s@, a, b, c) {
                        let (i2, j2) = choose|i2: int, j2: int|
                            {
                                &&& #[trigger] split3(s@, ':', i2, j2)
                                &&& 1 <= i2 <= 2
                                &&& 1 <= j2 - i2 - 1 <= 2
                                &&& 1 <= s@.len() - j2 - 1 <= 2
                            };
                        assert(false);
                    }
                }
                assert forall|a: int, b: int| !matches_hm(s@, a, b) by {
                    if matches_hm(s@, a, b) {
                        let i2 = choose|i2: int| #[trigger] split2(s@, ':', i2) && 1 <= i2 <= 2;
                        lemma_split2_split3_exclusive(s@, ':', i2);
                    }
                }
            }
            None
        }
    } else if colon.count == 1 && colon.digits_ok {
        let i = colon.p1;
        proof {
            assert forall|k2: int| 0 <= k2 < i implies is_digit(#[trigger] s@.subrange(
                0,
                i as int,
            )[k2]) by {
                assert(s@.subrange(0, i as int)[k2] == s@[k2]);
            }
            assert forall|k2: int| 0 <= k2 < len - i - 1 implies is_digit(#[trigger] s@.subrange(
                i as int + 1,
                len as int,
            )[k2]) by {
                assert(s@.subrange(i as int + 1, len as int)[k2] == s@[k2 + i + 1]);
            }
            assert(split2(s@, ':', i as int));
            assert forall|a: int, b: int, c: int| !matches_hms(s@, a, b, c) by {
                if matches_hms(s@, a, b, c) {
                    let (i2, j2) = choose|i2: int, j2: int| #[trigger] split3(s@, ':', i2, j2)
                        && 1 <= i2 <= 2;
                    lemma_split2_split3_exclusive(s@, ':', i as int);
                }
            }
        }
        if i >= 1 && i <= 2 && len - i >= 2 && len - i <= 3 {
            let h = parse_digits(s, 0, i);
            let mi = parse_digits(s, i + 1, len);
            proof {
                assert(matches_hm(s@, h as int, mi as int));
            }
            Some((h, mi, 0, false))
        } else {
            proof {
                assert forall|a: int, b: int| !matches_hm(s@, a, b) by {
                    if matches_hm(s@, a, b) {
                        let i2 = choose|i2: int| #[trigger] split2(s@, ':', i2) && 1 <= i2 <= 2
                            && 1 <= s@.len() - i2 - 1 <= 2;
                        lemma_split2_unique(s@, ':', i as int, i2);
                        assert(false);
                    }
                }
            }
            None
        }
    } else {
        proof {
            assert forall|i2: int, j2: int| !(#[trigger] split3(s@, ':', i2, j2)) by {
                if split3(s@, ':', i2, j2) {
                    if !colon.digits_ok {
                        let k0 = choose|k: int|
                            0 <= k < len && !((#[trigger] s@[k]) == ':' || is_digit(s@[k]));
                        if k0 != i2 && k0 != j2 {
                            lemma_split3_covers(s@, ':', i2, j2, k0);
                        }
                        assert(false);
                    } else {
                        if colon.count >= 3 {
                            if colon.p1 as int != i2 && colon.p1 as int != j2 {
                                lemma_split3_covers(s@, ':', i2, j2, colon.p1 as int);
                            }
                            if colon.p2 as int != i2 && colon.p2 as int != j2 {
                                lemma_split3_covers(s@, ':', i2, j2, colon.p2 as int);
                            }
                            if colon.p3 as int != i2 && colon.p3 as int != j2 {
                                lemma_split3_covers(s@, ':', i2, j2, colon.p3 as int);
                            }
                        }
                        assert(false);
                    }
                }
            }
            assert forall|i2: int| !(#[trigger] split2(s@, ':', i2)) by {
                if split2(s@, ':', i2) {
                    if !colon.digits_ok {
                        let k0 = choose|k: int|
                            0 <= k < len && !((#[trigger] s@[k]) == ':' || is_digit(s@[k]));
                        if k0 != i2 {
                            lemma_split2_covers(s@, ':', i2, k0);
                        }
                        assert(false);
                    } else {
                        if colon.count >= 2 {
                            if colon.p1 as int != i2 {
                                lemma_split2_covers(s@, ':', i2, colon.p1 as int);
                            }
                            if colon.p2 as int != i2 {
                                lemma_split2_covers(s@, ':', i2, colon.p2 as int);
                            }
                        }
                        assert(false);
                    }
                }
            }
            assert forall|a: int, b: int, c: int| !matches_hms(s@, a, b, c) by {
                if matches_hms(s@, a, b, c) {
                    let (i2, j2) = choose|i2: int, j2: int| #[trigger] split3(s@, ':', i2, j2)
                        && 1 <= i2 <= 2;
                    assert(false);
                }
            }
            assert forall|a: int, b: int| !matches_hm(s@, a, b) by {
                if matches_hm(s@, a, b) {
                    let i2 = choose|i2: int| #[trigger] split2(s@, ':', i2) && 1 <= i2 <= 2;
                    assert(false);
                }
            }
        }
        None
    }
}

/// Parses a user-entered time string.
///
/// An empty string defaults to `now`. Otherwise the string is accepted
/// exactly when it reads, under one of the four formats, as a real time of
/// day; any other input is rejected as an invalid time.
pub fn parse_time(time_str: &str, now: &TimeOfDay) -> (r: Result<TimeOfDay, ValidationError>)
    requires
        now.wf(),
    ensures
        time_str@.len() == 0 ==> r == Result::<TimeOfDay, ValidationError>::Ok(*now),
        time_str@.len() > 0 ==> match r {
            Ok(t) => t.wf() && time_text_denotes(time_str@, t),
            Err(e) => {
                &&& e == ValidationError::InvalidTime
                &&& forall|t2: TimeOfDay| t2.wf() ==> !time_text_denotes(time_str@, t2)
            },
        },
{
    let len = time_str.unicode_len();
    if len == 0 {
        return Ok(*now);
    }
    let s = time_str;
    let mut has_suffix: bool = false;
    let mut pm: bool = false;
    if len >= 4 {
        let c1 = s.get_char(len - 3);
        let c2 = s.get_char(len - 2);
        let c3 = s.get_char(len - 1);
        if c1 == ' ' && (c3 == 'M' || c3 == 'm') {
            if c2 == 'A' || c2 == 'a' {
                has_suffix = true;
                pm = false;
            } else if c2 == 'P' || c2 == 'p' {
                has_suffix = true;
                pm = true;
            }
        }
    }
    if has_suffix {
        let body = s.substring_char(0, len - 3);
        proof {
            assert(body@ =~= s@.take(s@.len() - 3));
            lemma_nondigit_kills_time_splits(s@, len - 3);
        }
        match parse_time_fields(body) {
            Some((h12, mi, sec, _)) => {
                if 1 <= h12 && h12 <= 12 && mi <= 59 && sec <= 59 {
                    let hour: u32 = if pm {
                        if h12 == 12 {
                            12
                        } else {
                            h12 + 12
                        }
                    } else {
                        if h12 == 12 {
                            0
                        } else {
                            h12
                        }
                    };
                    let t = TimeOfDay { hour: hour as u8, minute: mi as u8, second: sec as u8 };
                    proof {
                        assert(hour_from_12(h12 as int, pm) == t.hour as int);
                        assert(has_meridiem_suffix(s@, pm));
                    }
                    Ok(t)
                } else {
                    proof {
                        assert forall|t2: TimeOfDay| t2.wf() implies !time_text_denotes(
                            s@,
                            t2,
                        ) by {
                            lemma_refute_24h(s@, t2);
                            if exists|h12x: int, pm2: bool|
                                {
                                    &&& #[trigger] hour_from_12(h12x, pm2) == t2.hour as int
                                    &&& 1 <= h12x <= 12
                                    &&& has_meridiem_suffix(s@, pm2)
                                    &&& {
                                        let body2 = s@.take(s@.len() - 3);
                                        (matches_hm(body2, h12x, t2.minute as int) && t2.second
                                            == 0) || matches_hms(
                                            body2,
                                            h12x,
                                            t2.minute as int,
                                            t2.second as int,
                                        )
                                    }
                                } {
                                let (h12x, pm2) = choose|h12x: int, pm2: bool|
                                    {
                                        &&& #[trigger] hour_from_12(h12x, pm2) == t2.hour as int
                                        &&& 1 <= h12x <= 12
                                        &&& has_meridiem_suffix(s@, pm2)
                                        &&& {
                                            let body2 = s@.take(s@.len() - 3);
                                            (matches_hm(body2, h12x, t2.minute as int) && t2.second
                                                == 0) || matches_hms(
                                                body2,
                                                h12x,
                                                t2.minute as int,
                                                t2.second as int,
                                            )
                                        }
                                    };
                                if matches_hm(body@, h12x, t2.minute as int) {
                                    if matches_hms(body@, h12 as int, mi as int, sec as int) {
                                        lemma_hm_hms_exclusive(body@, h12x, t2.minute as int);
                                    } else {
                                        lemma_hm_values_unique(
                                            body@,
                                            h12x,
                                            t2.minute as int,
                                            h12 as int,
                                            mi as int,
                                        );
                                    }
                                } else {
                                    if matches_hms(body@, h12 as int, mi as int, sec as int) {
                                        lemma_hms_values_unique(
                                            body@,
                                            h12x,
                                            t2.minute as int,
                                            t2.second as int,
                                            h12 as int,
                                            mi as int,
                                            sec as int,
                                        );
                                    } else {
                                        lemma_hm_hms_exclusive(body@, h12 as int, mi as int);
                                    }
                                }
                                assert(false);
                            }
                        }
                    }
                    Err(ValidationError::InvalidTime)
                }
            },
            None => {
                proof {
                    assert forall|t2: TimeOfDay| t2.wf() implies !time_text_denotes(s@, t2) by {
                        lemma_refute_24h(s@, t2);
                    }
                }
                Err(ValidationError::InvalidTime)
            },
        }
    } else {
        match parse_time_fields(s) {
            Some((h, mi, sec, has_sec)) => {
                if h <= 23 && mi <= 59 && sec <= 59 {
                    let t = TimeOfDay { hour: h as u8, minute: mi as u8, second: sec as u8 };
                    Ok(t)
                } else {
                    proof {
                        assert forall|t2: TimeOfDay| t2.wf() implies !time_text_denotes(
                            s@,
                            t2,
                        ) by {
                            lemma_refute_meridiem(s@, t2, len as int);
                            if matches_hms(s@, t2.hour as int, t2.minute as int, t2.second as int) {
                                if has_sec {
                                    lemma_hms_values_unique(
                                        s@,
                                        t2.hour as int,
                                        t2.minute as int,
                                        t2.second as int,
                                        h as int,
                                        mi as int,
                                        sec as int,
                                    );
                                } else {
                                    lemma_hm_hms_exclusive(s@, h as int, mi as int);
                                }
                                assert(false);
                            }
                            if matches_hm(s@, t2.hour as int, t2.minute as int) {
                                if has_sec {
                                    lemma_hm_hms_exclusive(s@, t2.hour as int, t2.minute as int);
                                } else {
                                    lemma_hm_values_unique(
                                        s@,
                                        t2.hour as int,
                                        t2.minute as int,
                                        h as int,
                                        mi as int,
                                    );
                                }
                                assert(false);
                            }
                        }
                    }
                    Err(ValidationError::InvalidTime)
                }
            },
            None => {
                proof {
                    assert forall|t2: TimeOfDay| t2.wf() implies !time_text_denotes(s@, t2) by {
                        lemma_refute_meridiem(s@, t2, len as int);
                    }
                }
                Err(ValidationError::InvalidTime)
            },
        }
    }
}

/// With a space three places from the end, the string has no 24-hour
/// reading.
proof fn lemma_refute_24h(s: Seq<char>, t2: TimeOfDay)
    requires
        s.len() >= 4,
        s[s.len() - 3] == ' ',
    ensures
        !matches_hms(s, t2.hour as int, t2.minute as int, t2.second as int),
        !matches_hm(s, t2.hour as int, t2.minute as int),
{
    lemma_nondigit_kills_time_splits(s, s.len() - 3);
    if matches_hms(s, t2.hour as int, t2.minute as int, t2.second as int) {
        let (i2, j2) = choose|i2: int, j2: int| #[trigger] split3(s, ':', i2, j2) && 1 <= i2 <= 2;
        assert(false);
    }
    if matches_hm(s, t2.hour as int, t2.minute as int) {
        let i2 = choose|i2: int| #[trigger] split2(s, ':', i2) && 1 <= i2 <= 2;
        assert(false);
    }
}

/// Without the closing ` AM`/` PM` characters, the string has no 12-hour
/// reading.
proof fn lemma_refute_meridiem(s: Seq<char>, t2: TimeOfDay, len: int)
    requires
        s.len() == len,
        len >= 4 ==> !(s[len - 3] == ' ' && (s[len - 1] == 'M' || s[len - 1] == 'm') && (s[len - 2]
            == 'A' || s[len - 2] == 'a' || s[len - 2] == 'P' || s[len - 2] == 'p')),
    ensures
        !(exists|h12x: int, pm2: bool|
            {
                &&& #[trigger] hour_from_12(h12x, pm2) == t2.hour as int
                &&& 1 <= h12x <= 12
                &&& has_meridiem_suffix(s, pm2)
                &&& {
                    let body2 = s.take(s.len() - 3);
                    (matches_hm(body2, h12x, t2.minute as int) && t2.second == 0) || matches_hms(
                        body2,
                        h12x,
                        t2.minute as int,
                        t2.second as int,
                    )
                }
            }),
{
}

/// ASCII whitespace, as trimmed from the ends of a distance entry.
pub open spec fn is_space(c: char) -> bool {
    c == ' ' || c == '\t' || c == '\n' || c == '\r'
}

/// `s[a..b]` is `s` with its surrounding whitespace removed.
pub open spec fn trimmed_bounds(s: Seq<char>, a: int, b: int) -> bool {
    &&& 0 <= a <= b <= s.len()
    &&& (forall|i: int| 0 <= i < a ==> is_space(#[trigger] s[i]))
    &&& (forall|i: int| b <= i < s.len() ==> is_space(#[trigger] s[i]))
    &&& (a < b ==> !is_space(s[a]) && !is_space(s[b - 1]))
}

/// The leading fractional digits read as hundredths; digits past the second
/// are ignored.
pub open spec fn frac_centi(fp: Seq<char>) -> int {
    if fp.len() == 0 {
        0
    } else if fp.len() == 1 {
        digit_val(fp[0]) * 10
    } else {
        digit_val(fp[0]) * 10 + digit_val(fp[1])
    }
}

/// `body` is decimal digits with at most one point, standing at `p`
/// (`p == body.len()` when there is none), and at least one digit.
pub open spec fn decimal_split(body: Seq<char>, p: int) -> bool {
    &&& 0 <= p <= body.len()
    &&& (p < body.len() ==> body[p] == '.')
    &&& all_digits(body.subrange(0, p))
    &&& (p < body.len() ==> all_digits(body.subrange(p + 1, body.len() as int)))
    &&& (p >= 1 || (p < body.len() && body.len() - p - 1 >= 1))
}

/// The value of such a body in hundredths, truncated past the second
/// fractional digit.
pub open spec fn decimal_value_centi(body: Seq<char>, p: int) -> int {
    digits_value(body.subrange(0, p)) * 100 + if p < body.len() {
        frac_centi(body.subrange(p + 1, body.len() as int))
    } else {
        0int
    }
}

/// The (sign-stripped) core denotes `v` hundredths of a mile.
pub open spec fn signed_decimal(core: Seq<char>, v: int) -> bool {
    exists|p: int|
        #![trigger decimal_split(core.skip(1), p)]
        #![trigger decimal_split(core, p)]
        {
            ||| (core.len() >= 1 && core[0] == '-' && decimal_split(core.skip(1), p) && v
                == -decimal_value_centi(core.skip(1), p))
            ||| (core.len() >= 1 && core[0] == '+' && decimal_split(core.skip(1), p) && v
                == decimal_value_centi(core.skip(1), p))
            ||| (decimal_split(core, p) && v == decimal_value_centi(core, p))
        }
}

/// The text, once trimmed, is a plain signed decimal worth `v` hundredths
/// of a mile.
pub open spec fn distance_text_denotes(s: Seq<char>, v: int) -> bool {
    exists|a: int, b: int| #[trigger] trimmed_bounds(s, a, b) && signed_decimal(s.subrange(a, b), v)
}

/// Magnitudes are capped at this many hundredths of a mile (10000 miles),
/// far beyond the largest accepted distance.
pub const DISTANCE_SATURATION_CENTIMILES: i64 = 1000000;

/// `v` clamped to the saturation cap.
pub open spec fn sat_centi(v: int) -> int {
    if v > DISTANCE_SATURATION_CENTIMILES {
        DISTANCE_SATURATION_CENTIMILES as int
    } else if v < -DISTANCE_SATURATION_CENTIMILES {
        -(DISTANCE_SATURATION_CENTIMILES as int)
    } else {
        v
    }
}

/// Every position of a decimal body other than its point holds a digit.
proof fn lemma_decimal_split_covers(body: Seq<char>, p: int, q: int)
    requires
        decimal_split(body, p),
        0 <= q < body.len(),
        q != p,
    ensures
        is_digit(body[q]),
{
    if q < p {
        assert(body.subrange(0, p)[q] == body[q]);
    } else {
        assert(body.subrange(p + 1, body.len() as int)[q - p - 1] == body[q]);
    }
}

/// Two nonempty trimmings of one string agree.
pub proof fn lemma_trim_unique(s: Seq<char>, a: int, b: int, a2: int, b2: int)
    requires
        trimmed_bounds(s, a, b),
        trimmed_bounds(s, a2, b2),
        a < b,
    ensures
        a2 < b2 ==> a2 == a && b2 == b,
        a2 == b2 ==> false,
{
    if a2 == b2 {
        assert(is_space(s[a]));
    } else {
        if a2 < a {
            assert(is_space(s[a2]));
        }
        if a < a2 {
            assert(is_space(s[a]));
        }
        if b < b2 {
            assert(is_space(s[b2 - 1]));
        }
        if b2 < b {
            assert(is_space(s[b - 1]));
        }
    }
}

/// A sequence of digits reads as a nonnegative number.
proof fn lemma_digits_value_nonneg(s: Seq<char>)
    requires
        all_digits(s),
    ensures
        digits_value(s) >= 0,
    decreases s.len(),
{
    if s.len() > 0 {
        assert(all_digits(s.drop_last())) by {
            assert forall|i: int| 0 <= i < s.len() - 1 implies is_digit(
                #[trigger] s.drop_last()[i],
            ) by {
                assert(s.drop_last()[i] == s[i]);
            }
        }
        lemma_digits_value_nonneg(s.drop_last());
    }
}

/// Whether a character is ASCII whitespace.
fn is_space_exec(c: char) -> (b: bool)
    ensures
        b == is_space(c),
{
    c == ' ' || c == '\t' || c == '\n' || c == '\r'
}

/// Parses a user-entered distance string into hundredths of a mile.
///
/// The input, once trimmed of surrounding whitespace, must be a plain
/// decimal number with an optional sign; digits past the second fractional
/// digit are truncated, and magnitudes cap at the saturation bound (far
/// beyond any distance a run record accepts). An empty field is a missing
/// required entry; any other unreadable input is an invalid distance.
#[verifier::rlimit(100)]
#[verifier::spinoff_prover]
pub fn parse_distance(distance_str: &str) -> (r: Result<i64, ValidationError>)
    ensures
        distance_str@.len() == 0 ==> r == Result::<i64, ValidationError>::Err(
            ValidationError::DistanceRequired,
        ),
        distance_str@.len() > 0 ==> match r {
            Ok(v) => exists|w: int|
                #[trigger] distance_text_denotes(distance_str@, w) && v as int == sat_centi(w),
            Err(e) => {
                &&& e == ValidationError::InvalidDistance
                &&& forall|w: int| !distance_text_denotes(distance_str@, w)
            },
        },
{
    let len = distance_str.unicode_len();
    if len == 0 {
        return Err(ValidationError::DistanceRequired);
    }
    let s = distance_str;
    let mut a: usize = 0;
    while a < len && is_space_exec(s.get_char(a))
        invariant
            a <= len,
            len == s@.len(),
            forall|i: int| 0 <= i < a ==> is_space(#[trigger] s@[i]),
        decreases len - a,
    {
        a = a + 1;
    }
    if a == len {
        proof {
            assert forall|w: int| !distance_text_denotes(s@, w) by {
                if distance_text_denotes(s@, w) {
                    let (a2, b2) = choose|a2: int, b2: int|
                        #[trigger] trimmed_bounds(s@, a2, b2) && signed_decimal(
                            s@.subrange(a2, b2),
                            w,
                        );
                    if a2 < b2 {
                        assert(is_space(s@[a2]));
                        assert(false);
                    } else {
                        let core = s@.subrange(a2, b2);
                        assert(core.len() == 0);
                        assert(false);
                    }
                }
            }
        }
        return Err(ValidationError::InvalidDistance);
    }
    let mut b: usize = len;
    while b > a && is_space_exec(s.get_char(b - 1))
        invariant
            a < len,
            a <= b <= len,
            len == s@.len(),
            !is_space(s@[a as int]),
            forall|i: int| b <= i < len ==> is_space(#[trigger] s@[i]),
        decreases b,
    {
        b = b - 1;
    }
    proof {
        assert(trimmed_bounds(s@, a as int, b as int));
    }
    let c0 = s.get_char(a);
    let neg = c0 == '-';
    let has_sign = c0 == '-' || c0 == '+';
    let start = if has_sign {
        a + 1
    } else {
        a
    };
    let ghost core = s@.subrange(a as int, b as int);
    let ghost body = s@.subrange(start as int, b as int);
    proof {
        if has_sign {
            assert(core.skip(1) =~= body);
        } else {
            assert(core =~= body);
        }
    }
    let dot = scan_separators(s, start, b, '.');
    let p_glob: usize;
    if dot.count == 0 && dot.digits_ok && b - start >= 1 {
        p_glob = b;
    } else if dot.count == 1 && dot.digits_ok && (dot.p1 > start || b - dot.p1 >= 2) {
        p_glob = dot.p1;
    } else {
        proof {
            assert forall|w: int| !distance_text_denotes(s@, w) by {
                if distance_text_denotes(s@, w) {
                    let (a2, b2) = choose|a2: int, b2: int|
                        #[trigger] trimmed_bounds(s@, a2, b2) && signed_decimal(
                            s@.subrange(a2, b2),
                            w,
                        );
                    lemma_trim_unique(s@, a as int, b as int, a2, b2);
                    assert(s@.subrange(a2, b2) =~= core);
                    assert(signed_decimal(core, w));
                    let p = choose|p: int|
                        #![trigger decimal_split(core.skip(1), p)]
                        #![trigger decimal_split(core, p)]
                        {
                            ||| (core.len() >= 1 && core[0] == '-' && decimal_split(core.skip(1), p)
                                && w == -decimal_value_centi(core.skip(1), p))
                            ||| (core.len() >= 1 && core[0] == '+' && decimal_split(core.skip(1), p)
                                && w == decimal_value_centi(core.skip(1), p))
                            ||| (decimal_split(core, p) && w == decimal_value_centi(core, p))
                        };
                    if !has_sign && core[0] == '-' {
                        assert(false);
                    }
                    if !has_sign && core[0] == '+' {
                        assert(false);
                    }
                    if !has_sign {
                        assert(decimal_split(core, p) || decimal_split(core.skip(1), p));
                        assert(decimal_split(body, p)) by {
                            assert(core =~= body);
                        }
                    } else {
                        assert(core[0] == c0);
                        if decimal_split(core, p) {
                            if p >= 1 {
                                assert(core.subrange(0, p)[0] == core[0]);
                                assert(is_digit(core[0]));
                                assert(false);
                            } else {
                                assert(core[0] == '.');
                                assert(false);
                            }
                        }
                        assert(decimal_split(body, p)) by {
                            assert(core.skip(1) =~= body);
                        }
                    }
                    lemma_no_decimal_split(s@, start as int, b as int, dot, p);
                }
            }
        }
        return Err(ValidationError::InvalidDistance);
    }
    let ghost p_local = p_glob - start;
    proof {
        assert forall|k2: int| 0 <= k2 < p_local implies is_digit(#[trigger] body.subrange(
            0,
            p_local as int,
        )[k2]) by {
            assert(body.subrange(0, p_local as int)[k2] == s@[k2 + start]);
        }
        if p_glob < b {
            assert forall|k2: int| 0 <= k2 < b - p_glob - 1 implies is_digit(
                #[trigger] body.subrange(p_local as int + 1, body.len() as int)[k2],
            ) by {
                assert(body.subrange(p_local as int + 1, body.len() as int)[k2] == s@[k2 + p_glob
                    + 1]);
            }
        }
        assert(decimal_split(body, p_local as int));
    }
    let mut ipv: u64 = 0;
    let mut sat = false;
    let mut k = start;
    while k < p_glob
        invariant
            start <= k <= p_glob <= b <= len,
            len == s@.len(),
            body == s@.subrange(start as int, b as int),
            p_local == p_glob - start,
            decimal_split(body, p_local as int),
            sat <==> digits_value(s@.subrange(start as int, k as int)) > 100000,
            !sat ==> ipv as int == digits_value(s@.subrange(start as int, k as int)),
            sat ==> ipv == 100001,
        decreases p_glob - k,
    {
        proof {
            lemma_decimal_split_covers(body, p_local as int, k - start);
            assert(body[k - start] == s@[k as int]);
            assert(s@.subrange(start as int, k as int + 1).drop_last() =~= s@.subrange(
                start as int,
                k as int,
            ));
            assert(s@.subrange(start as int, k as int + 1).last() == s@[k as int]);
        }
        let c = s.get_char(k);
        let d = (c as u64) - 48;
        if !sat {
            let next = ipv * 10 + d;
            if next > 100000 {
                sat = true;
                ipv = 100001;
            } else {
                ipv = next;
            }
        }
        k = k + 1;
    }
    let mut frac: u64 = 0;
    if p_glob < b {
        proof {
            if b - p_glob >= 2 {
                lemma_decimal_split_covers(body, p_local as int, p_glob + 1 - start);
                assert(body[p_glob + 1 - start] == s@[p_glob as int + 1]);
            }
            if b - p_glob >= 3 {
                lemma_decimal_split_covers(body, p_local as int, p_glob + 2 - start);
                assert(body[p_glob + 2 - start] == s@[p_glob as int + 2]);
            }
        }
        if b - p_glob >= 2 {
            frac = ((s.get_char(p_glob + 1) as u64) - 48) * 10;
        }
        if b - p_glob >= 3 {
            frac = frac + (s.get_char(p_glob + 2) as u64) - 48;
        }
    }
    let magnitude: i64 = if sat {
        DISTANCE_SATURATION_CENTIMILES
    } else {
        let m = ipv * 100 + frac;
        if m > DISTANCE_SATURATION_CENTIMILES as u64 {
            DISTANCE_SATURATION_CENTIMILES
        } else {
            m as i64
        }
    };
    let v: i64 = if neg {
        -magnitude
    } else {
        magnitude
    };
    proof {
        let w_mag = decimal_value_centi(body, p_local as int);
        let w: int = if neg {
            -w_mag
        } else {
            w_mag
        };
        assert(s@.subrange(start as int, p_glob as int) =~= body.subrange(0, p_local as int));
        if p_glob < b {
            let fp = body.subrange(p_local as int + 1, body.len() as int);
            assert(frac as int == frac_centi(fp)) by {
                if fp.len() >= 1 {
                    assert(fp[0] == s@[p_glob as int + 1]);
                }
                if fp.len() >= 2 {
                    assert(fp[1] == s@[p_glob as int + 2]);
                }
            }
            assert(0 <= frac_centi(fp) <= 99) by {
                if fp.len() >= 1 {
                    lemma_decimal_split_covers(body, p_local as int, p_local as int + 1);
                    assert(fp[0] == body[p_local as int + 1]);
                }
                if fp.len() >= 2 {
                    lemma_decimal_split_covers(body, p_local as int, p_local as int + 2);
                    assert(fp[1] == body[p_local as int + 2]);
                }
            }
        }
        lemma_digits_value_nonneg(body.subrange(0, p_local as int));
        assert(magnitude as int == sat_centi(w_mag));
        assert(v as int == sat_centi(w));
        assert(signed_decimal(core, w)) by {
            if has_sign {
                assert(core.skip(1) =~= body);
                assert(decimal_split(core.skip(1), p_local as int));
                assert(core[0] == c0);
            } else {
                assert(core =~= body);
                assert(decimal_split(core, p_local as int));
            }
        }
        assert(distance_text_denotes(s@, w));
    }
    Ok(v)
}

/// What the separator scan saw rules out every decimal reading of
/// `s[start..b]` at the failed acceptance checks of the distance parser.
proof fn lemma_no_decimal_split(s: Seq<char>, start: int, b: int, dot: SepScan, p: int)
    requires
        start <= b <= s.len(),
        0 <= start,
        dot.count <= 3,
        dot.count >= 1 ==> start <= dot.p1 < b && s[dot.p1 as int] == '.',
        dot.count >= 2 ==> dot.p1 < dot.p2 < b && s[dot.p2 as int] == '.',
        forall|k: int|
            start <= k < b && (#[trigger] s[k]) == '.' ==> ((dot.count >= 1 && k == dot.p1) || (
            dot.count >= 2 && k == dot.p2) || (dot.count >= 3 && k >= dot.p3)),
        dot.digits_ok <==> (forall|k: int|
            start <= k < b ==> (#[trigger] s[k]) == '.' || is_digit(s[k])),
        !(dot.count == 0 && dot.digits_ok && b - start >= 1),
        !(dot.count == 1 && dot.digits_ok && (dot.p1 > start || b - dot.p1 >= 2)),
    ensures
        !decimal_split(s.subrange(start, b), p),
{
    let body = s.subrange(start, b);
    if decimal_split(body, p) {
        if !dot.digits_ok {
            let k0 = choose|k: int| start <= k < b && !((#[trigger] s[k]) == '.' || is_digit(s[k]));
            if k0 - start != p {
                lemma_decimal_split_covers(body, p, k0 - start);
                assert(body[k0 - start] == s[k0]);
            } else {
                assert(body[p] == s[k0]);
            }
        } else if dot.count >= 2 {
            if dot.p1 - start != p {
                lemma_decimal_split_covers(body, p, dot.p1 - start);
                assert(body[dot.p1 - start] == s[dot.p1 as int]);
            }
            if dot.p2 - start != p {
                lemma_decimal_split_covers(body, p, dot.p2 - start);
                assert(body[dot.p2 - start] == s[dot.p2 as int]);
            }
        } else if dot.count == 0 {
            assert(b - start == 0);
            assert(body.len() == 0);
        } else {
            assert(dot.count == 1 && dot.p1 == start && b - dot.p1 == 1);
            assert(body.len() == 1);
            assert(body[0] == s[start]);
            if p != 0 {
                lemma_decimal_split_covers(body, p, 0);
            }
        }
    }
}

/// The character for one decimal digit.
pub open spec fn digit_char(v: int) -> char {
    if v == 0 {
        '0'
    } else if v == 1 {
        '1'
    } else if v == 2 {
        '2'
    } else if v == 3 {
        '3'
    } else if v == 4 {
        '4'
    } else if v == 5 {
        '5'
    } else if v == 6 {
        '6'
    } else if v == 7 {
        '7'
    } else if v == 8 {
        '8'
    } else {
        '9'
    }
}

/// `v` as two zero-padded digits.
pub open spec fn two_digits(v: int) -> Seq<char> {
    seq![digit_char(v / 10), digit_char(v % 10)]
}

/// `v` as four zero-padded digits.
pub open spec fn four_digits(v: int) -> Seq<char> {
    seq![
        digit_char(v / 1000),
        digit_char((v / 100) % 10),
        digit_char((v / 10) % 10),
        digit_char(v % 10),
    ]
}

/// `v` in decimal with no leading zeros (a single zero for zero itself).
pub open spec fn nat_digits(v: int) -> Seq<char>
    decreases v,
{
    if v < 10 {
        seq![digit_char(v)]
    } else {
        nat_digits(v / 10) + seq![digit_char(v % 10)]
    }
}

/// The canonical `YYYY-MM-DD` text of a date.
pub open spec fn date_display(d: Date) -> Seq<char> {
    four_digits(d.year as int) + seq!['-'] + two_digits(d.month as int) + seq!['-'] + two_digits(
        d.day as int,
    )
}

/// The canonical `HH:MM:SS` text of a time of day.
pub open spec fn time_display(t: TimeOfDay) -> Seq<char> {
    two_digits(t.hour as int) + seq![':'] + two_digits(t.minute as int) + seq![':'] + two_digits(
        t.second as int,
    )
}

/// The shortest decimal-miles text of a distance in hundredths: no point
/// for whole miles, one fractional digit when the second is zero.
pub open spec fn distance_display(c: int) -> Seq<char> {
    let ip = c / 100;
    let fr = c % 100;
    if fr == 0 {
        nat_digits(ip)
    } else if fr % 10 == 0 {
        nat_digits(ip) + seq!['.', digit_char(fr / 10)]
    } else {
        nat_digits(ip) + seq!['.', digit_char(fr / 10), digit_char(fr % 10)]
    }
}

/// Appends one decimal digit to the text.
fn push_digit(out: &mut String, v: u8)
    requires
        v < 10,
    ensures
        final(out)@ == old(out)@ + seq![digit_char(v as int)],
{
    proof {
        reveal_strlit("0");
        reveal_strlit("1");
        reveal_strlit("2");
        reveal_strlit("3");
        reveal_strlit("4");
        reveal_strlit("5");
        reveal_strlit("6");
        reveal_strlit("7");
        reveal_strlit("8");
        reveal_strlit("9");
    }
    match v {
        0 => out.append("0"),
        1 => out.append("1"),
        2 => out.append("2"),
        3 => out.append("3"),
        4 => out.append("4"),
        5 => out.append("5"),
        6 => out.append("6"),
        7 => out.append("7"),
        8 => out.append("8"),
        _ => out.append("9"),
    }
    proof {
        assert(final(out)@ =~= old(out)@ + seq![digit_char(v as int)]);
    }
}

/// Appends `v` in decimal with no leading zeros.
fn push_nat(out: &mut String, v: u32)
    ensures
        final(out)@ == old(out)@ + nat_digits(v as int),
    decreases v,
{
    if v >= 10 {
        push_nat(out, v / 10);
    }
    push_digit(out, (v % 10) as u8);
    proof {
        assert(final(out)@ =~= old(out)@ + nat_digits(v as int));
    }
}

/// The canonical `YYYY-MM-DD` text of a date.
pub fn format_date(date: &Date) -> (r: String)
    requires
        date.wf(),
    ensures
        r@ == date_display(*date),
{
    let mut out = String::new();
    let y = date.year;
    push_digit(&mut out, (y / 1000) as u8);
    push_digit(&mut out, ((y / 100) % 10) as u8);
    push_digit(&mut out, ((y / 10) % 10) as u8);
    push_digit(&mut out, (y % 10) as u8);
    out.append("-");
    push_digit(&mut out, date.month / 10);
    push_digit(&mut out, date.month % 10);
    out.append("-");
    push_digit(&mut out, date.day / 10);
    push_digit(&mut out, date.day % 10);
    proof {
        reveal_strlit("-");
        assert("-"@ =~= seq!['-']);
        assert(out@ =~= date_display(*date));
    }
    out
}

/// The canonical `HH:MM:SS` text of a time of day.
pub fn format_time(time: &TimeOfDay) -> (r: String)
    requires
        time.wf(),
    ensures
        r@ == time_display(*time),
{
    let mut out = String::new();
    push_digit(&mut out, time.hour / 10);
    push_digit(&mut out, time.hour % 10);
    out.append(":");
    push_digit(&mut out, time.minute / 10);
    push_digit(&mut out, time.minute % 10);
    out.append(":");
    push_digit(&mut out, time.second / 10);
    push_digit(&mut out, time.second % 10);
    proof {
        reveal_strlit(":");
        assert(":"@ =~= seq![':']);
        assert(out@ =~= time_display(*time));
    }
    out
}

/// The shortest decimal-miles text of a distance in hundredths of a mile.
pub fn format_distance(centimiles: u32) -> (r: String)
    ensures
        r@ == distance_display(centimiles as int),
{
    let mut out = String::new();
    let ip = centimiles / 100;
    let fr = centimiles % 100;
    push_nat(&mut out, ip);
    if fr != 0 {
        out.append(".");
        push_digit(&mut out, (fr / 10) as u8);
        if fr % 10 != 0 {
            push_digit(&mut out, (fr % 10) as u8);
        }
    }
    proof {
        reveal_strlit(".");
        assert("."@ =~= seq!['.']);
        assert(out@ =~= distance_display(centimiles as int));
    }
    out
}

/// A core that starts with a sign never reads as an unsigned decimal body.
pub proof fn lemma_sign_body_split(core: Seq<char>, p: int)
    requires
        core.len() >= 1,
        core[0] == '-' || core[0] == '+',
    ensures
        !decimal_split(core, p),
{
    if decimal_split(core, p) {
        if p >= 1 {
            assert(core.subrange(0, p)[0] == core[0]);
        }
    }
}

/// A decimal body places its point in only one way.
pub proof fn lemma_decimal_split_point_unique(body: Seq<char>, p1: int, p2: int)
    requires
        decimal_split(body, p1),
        decimal_split(body, p2),
    ensures
        p1 == p2,
{
    if p1 != p2 {
        if p1 < body.len() && p2 < body.len() {
            lemma_decimal_split_covers(body, p2, p1);
        } else if p1 < body.len() {
            assert(body.subrange(0, p2)[p1] == body[p1]);
        } else {
            assert(body.subrange(0, p1)[p2] == body[p2]);
        }
    }
}

} // verus!
