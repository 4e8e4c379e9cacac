//! The system clock, read through chrono.
//!
//! The verified code never depends on what the clock returns: callers take
//! the current date or time as a value and work from there. These functions
//! only hand such values in, normalised into the crate's own types.

use vstd::prelude::*;
use crate::date::{Date, TimeOfDay, MIN_YEAR, lemma_day_index_in_range, lemma_year_start_mono,
    lemma_days_into_year, spec_day_index};

verus! {

/// Relies on chrono's `Local::now` and the `Datelike` accessors: the month
/// is between 1 and 12 and the day of month between 1 and 31.
#[verifier::external_body]
fn local_date_now_raw() -> (r: (i32, u8, u8))
    ensures
        1 <= r.1 <= 12,
        1 <= r.2 <= 31,
{
    let now = chrono::Local::now().naive_local().date();
    (
        chrono::Datelike::year(&now),
        chrono::Datelike::month(&now) as u8,
        chrono::Datelike::day(&now) as u8,
    )
}

/// Relies on chrono's `Local::now` and the `Timelike` accessors: the hour is
/// below 24 and the minute and second below 60.
#[verifier::external_body]
fn local_time_now_raw() -> (r: (u8, u8, u8))
    ensures
        r.0 < 24,
        r.1 < 60,
        r.2 < 60,
{
    let now = chrono::Local::now().naive_local().time();
    (
        chrono::Timelike::hour(&now) as u8,
        chrono::Timelike::minute(&now) as u8,
        chrono::Timelike::second(&now) as u8,
    )
}

/// Relies on chrono's `Utc::now` and `DateTime::timestamp`: seconds since
/// the Unix epoch. Nothing is assumed of the clock's reading.
#[verifier::external_body]
pub(crate) fn now_unix() -> i64 {
    chrono::Utc::now().timestamp()
}

/// The current local calendar date.
///
/// A clock reading outside the calendar model (a year before 2 or after
/// 9999) falls back to the Unix epoch date, so the result is always a
/// well-formed date at least a month past the model's first day.
pub fn today_local() -> (d: Date)
    ensures
        d.wf(),
        d.spec_index_of() >= 29,
{
    let (y, m, dd) = local_date_now_raw();
    let candidate = Date { year: y, month: m, day: dd };
    if y >= MIN_YEAR + 1 && candidate.is_valid() {
        proof {
            lemma_year_start_mono(2, y as int);
            lemma_days_into_year(candidate);
            assert(spec_day_index(2, 1, 1) == 365);
        }
        candidate
    } else {
        let epoch = Date { year: 1970, month: 1, day: 1 };
        proof {
            lemma_day_index_in_range(epoch);
            lemma_year_start_mono(2, 1970);
            assert(spec_day_index(2, 1, 1) == 365);
            assert(epoch.spec_index_of() == spec_day_index(1970, 1, 1));
        }
        epoch
    }
}

/// The current local wall-clock time of day.
pub fn time_now_local() -> (t: TimeOfDay)
    ensures
        t.wf(),
{
    let (h, m, s) = local_time_now_raw();
    TimeOfDay { hour: h, minute: m, second: s }
}

} // verus!
