//! The analytics engine: daily grouping, streaks, period aggregates, the
//! 30-day trend series and the year-goal projection.
//!
//! The engine is a pure function of the run collection and a given "today";
//! it never fails. Days are compared through their day index (see
//! [`crate::date`]); a day counts toward a streak when its summed distance
//! reaches the daily goal of one mile.

use vstd::prelude::*;
use crate::analytics::{Analytics, DailyData};
use crate::date::{Date, prev_day, spec_day_index, lemma_day_index_in_range, lemma_days_into_year,
    DAY_INDEX_LIMIT};
use crate::run::{Run, MAX_DISTANCE_CENTIMILES};

verus! {

/// A day's summed distance must reach one mile to count toward a streak.
pub const DAILY_GOAL_CENTIMILES: u64 = 100;

/// Summed distance, in hundredths of a mile, of the runs in `runs` dated on
/// the day with index `day`.
pub open spec fn day_total(runs: Seq<Run>, day: int) -> int
    decreases runs.len(),
{
    if runs.len() == 0 {
        0
    } else {
        day_total(runs.drop_last(), day) + if runs.last().date.spec_index_of() == day {
            runs.last().distance_centimiles as int
        } else {
            0int
        }
    }
}

/// Summed distance, in hundredths of a mile, of all runs.
pub open spec fn total_distance_of(runs: Seq<Run>) -> int
    decreases runs.len(),
{
    if runs.len() == 0 {
        0
    } else {
        total_distance_of(runs.drop_last()) + runs.last().distance_centimiles as int
    }
}

/// Number of runs dated between the day indices `lo` and `hi`, inclusive.
pub open spec fn count_in_window(runs: Seq<Run>, lo: int, hi: int) -> int
    decreases runs.len(),
{
    if runs.len() == 0 {
        0
    } else {
        count_in_window(runs.drop_last(), lo, hi) + if lo <= runs.last().date.spec_index_of()
            <= hi {
            1int
        } else {
            0int
        }
    }
}

/// Summed distance of the runs dated between `lo` and `hi`, inclusive.
pub open spec fn sum_in_window(runs: Seq<Run>, lo: int, hi: int) -> int
    decreases runs.len(),
{
    if runs.len() == 0 {
        0
    } else {
        sum_in_window(runs.drop_last(), lo, hi) + if lo <= runs.last().date.spec_index_of()
            <= hi {
            runs.last().distance_centimiles as int
        } else {
            0int
        }
    }
}

/// The day with index `day` meets the daily goal.
pub open spec fn day_qualifies(runs: Seq<Run>, day: int) -> bool {
    day_total(runs, day) >= DAILY_GOAL_CENTIMILES
}

/// The `n` consecutive days starting at index `d` all meet the daily goal.
pub open spec fn qualifying_chain(runs: Seq<Run>, d: int, n: int) -> bool {
    forall|k: int| 0 <= k < n ==> #[trigger] day_qualifies(runs, d + k)
}

/// `c` is the current streak for `today`: the days `today - c + 1` through
/// `today` all qualify and the day before them does not.
pub open spec fn is_current_streak(runs: Seq<Run>, today: int, c: int) -> bool {
    &&& 0 <= c
    &&& qualifying_chain(runs, today - c + 1, c)
    &&& !day_qualifies(runs, today - c)
}

/// `l` is the longest streak: some chain of `l` consecutive qualifying days
/// exists (unless `l` is zero), and no longer chain does.
pub open spec fn is_longest_streak(runs: Seq<Run>, l: int) -> bool {
    &&& 0 <= l
    &&& (l > 0 ==> exists|d: int| qualifying_chain(runs, d, l))
    &&& forall|d: int, n: int| qualifying_chain(runs, d, n) ==> n <= l
}

/// Number of qualifying days with index in `lo <= day < hi`.
pub open spec fn qualifying_days_in(runs: Seq<Run>, lo: int, hi: int) -> int
    decreases hi - lo,
{
    if hi <= lo {
        0
    } else {
        qualifying_days_in(runs, lo, hi - 1) + if day_qualifies(runs, hi - 1) {
            1int
        } else {
            0int
        }
    }
}

/// One day's grouped total: the day index and the summed distance, in
/// hundredths of a mile, of the runs on that day.
#[derive(Clone, Copy, PartialEq, Eq, Structural, Debug)]
pub struct DayTotal {
    pub day: i64,
    pub total: u64,
}

/// Day indices strictly ascending, so each day appears at most once.
pub open spec fn sorted_by_day(t: Seq<DayTotal>) -> bool {
    forall|i: int, j: int| 0 <= i < j < t.len() ==> t[i].day < t[j].day
}

/// Summed total recorded in `t` for day index `day`.
pub open spec fn recorded_total(t: Seq<DayTotal>, day: int) -> int
    decreases t.len(),
{
    if t.len() == 0 {
        0
    } else {
        recorded_total(t.drop_last(), day) + if t.last().day == day {
            t.last().total as int
        } else {
            0int
        }
    }
}

/// `t` is the daily grouping of `runs`: sorted, every day's recorded total
/// is that day's summed distance, and every entry is a real day index.
pub open spec fn groups(t: Seq<DayTotal>, runs: Seq<Run>) -> bool {
    &&& sorted_by_day(t)
    &&& forall|day: int| #[trigger] recorded_total(t, day) == day_total(runs, day)
    &&& forall|i: int| 0 <= i < t.len() ==> 0 <= #[trigger] t[i].day < DAY_INDEX_LIMIT
}

/// A day recorded nowhere in `t` has recorded total zero.
proof fn lemma_recorded_total_absent(t: Seq<DayTotal>, day: int)
    requires
        forall|i: int| 0 <= i < t.len() ==> #[trigger] t[i].day != day,
    ensures
        recorded_total(t, day) == 0,
    decreases t.len(),
{
    if t.len() > 0 {
        lemma_recorded_total_absent(t.drop_last(), day);
    }
}

/// In a sorted grouping, the entry holding `day` gives its recorded total.
proof fn lemma_recorded_total_found(t: Seq<DayTotal>, day: int, i: int)
    requires
        sorted_by_day(t),
        0 <= i < t.len(),
        t[i].day == day,
    ensures
        recorded_total(t, day) == t[i].total,
    decreases t.len(),
{
    if i == t.len() - 1 {
        lemma_recorded_total_absent(t.drop_last(), day);
    } else {
        lemma_recorded_total_found(t.drop_last(), day, i);
    }
}

/// Replacing entry `i` by one for the same day shifts that day's recorded
/// total by the difference and leaves every other day unchanged.
proof fn lemma_recorded_total_update(t: Seq<DayTotal>, i: int, v: DayTotal, day: int)
    requires
        0 <= i < t.len(),
        t[i].day == v.day,
    ensures
        recorded_total(t.update(i, v), day) == recorded_total(t, day) + if v.day == day {
            v.total - t[i].total
        } else {
            0int
        },
    decreases t.len(),
{
    let tu = t.update(i, v);
    if i == t.len() - 1 {
        assert(tu.drop_last() =~= t.drop_last());
    } else {
        assert(tu.drop_last() =~= t.drop_last().update(i, v));
        lemma_recorded_total_update(t.drop_last(), i, v, day);
    }
}

/// Inserting an entry adds its total to its own day's recorded total and
/// leaves every other day unchanged.
proof fn lemma_recorded_total_insert(t: Seq<DayTotal>, i: int, v: DayTotal, day: int)
    requires
        0 <= i <= t.len(),
    ensures
        recorded_total(t.insert(i, v), day) == recorded_total(t, day) + if v.day == day {
            v.total as int
        } else {
            0int
        },
    decreases t.len(),
{
    let ti = t.insert(i, v);
    if i == t.len() {
        assert(ti.drop_last() =~= t);
    } else {
        assert(ti.drop_last() =~= t.drop_last().insert(i, v));
        assert(ti.last() == t.last());
        lemma_recorded_total_insert(t.drop_last(), i, v, day);
    }
}

/// Every sum over the runs is nonnegative and at most the length times the
/// largest accepted distance.
proof fn lemma_sum_bounds(runs: Seq<Run>, lo: int, hi: int, day: int)
    requires
        forall|i: int| 0 <= i < runs.len() ==> #[trigger] runs[i].wf(),
    ensures
        0 <= day_total(runs, day) <= runs.len() * MAX_DISTANCE_CENTIMILES,
        0 <= total_distance_of(runs) <= runs.len() * MAX_DISTANCE_CENTIMILES,
        0 <= count_in_window(runs, lo, hi) <= runs.len(),
        0 <= sum_in_window(runs, lo, hi) <= runs.len() * MAX_DISTANCE_CENTIMILES,
        day_total(runs, day) <= total_distance_of(runs),
        sum_in_window(runs, lo, hi) <= total_distance_of(runs),
    decreases runs.len(),
{
    if runs.len() > 0 {
        assert(runs.last().wf());
        lemma_sum_bounds(runs.drop_last(), lo, hi, day);
        assert((runs.len() - 1) * MAX_DISTANCE_CENTIMILES + MAX_DISTANCE_CENTIMILES == runs.len()
            * MAX_DISTANCE_CENTIMILES) by (nonlinear_arith);
    }
}

/// Position of the first entry of `t` whose day is `day` or later.
fn lower_bound(t: &Vec<DayTotal>, day: i64) -> (pos: usize)
    requires
        sorted_by_day(t@),
    ensures
        pos <= t@.len(),
        forall|i: int| 0 <= i < pos ==> t@[i].day < day,
        forall|i: int| pos <= i < t@.len() ==> t@[i].day >= day,
{
    let mut lo: usize = 0;
    let mut hi: usize = t.len();
    while lo < hi
        invariant
            lo <= hi <= t@.len(),
            sorted_by_day(t@),
            forall|i: int| 0 <= i < lo ==> t@[i].day < day,
            forall|i: int| hi <= i < t@.len() ==> t@[i].day >= day,
        decreases hi - lo,
    {
        let mid = lo + (hi - lo) / 2;
        if t[mid].day < day {
            lo = mid + 1;
        } else {
            hi = mid;
        }
    }
    lo
}

/// The grouped total, in hundredths of a mile, recorded for day `day`;
/// zero when the day has no entry.
pub fn lookup_total(t: &Vec<DayTotal>, day: i64) -> (r: u64)
    requires
        sorted_by_day(t@),
    ensures
        r as int == recorded_total(t@, day as int),
{
    let pos = lower_bound(t, day);
    if pos < t.len() && t[pos].day == day {
        proof {
            lemma_recorded_total_found(t@, day as int, pos as int);
        }
        t[pos].total
    } else {
        proof {
            assert forall|i: int| 0 <= i < t@.len() implies #[trigger] t@[i].day != day by {
                if i > pos {
                    assert(t@[pos as int].day < t@[i].day);
                }
            }
            lemma_recorded_total_absent(t@, day as int);
        }
        0
    }
}

/// A qualifying day is recorded in the grouping, so its index is a real
/// day index.
proof fn lemma_qualifying_day_is_entry(t: Seq<DayTotal>, runs: Seq<Run>, d: int)
    requires
        groups(t, runs),
        day_qualifies(runs, d),
    ensures
        exists|j: int| 0 <= j < t.len() && #[trigger] t[j].day == d,
        0 <= d < DAY_INDEX_LIMIT,
{
    if forall|j: int| 0 <= j < t.len() ==> #[trigger] t[j].day != d {
        lemma_recorded_total_absent(t, d);
        assert(recorded_total(t, d) == day_total(runs, d));
        assert(false);
    }
    let j = choose|j: int| 0 <= j < t.len() && #[trigger] t[j].day == d;
    assert(0 <= t[j].day < DAY_INDEX_LIMIT);
}

/// Walks backward from `today`, counting consecutive qualifying days; stops
/// at the first day that is absent from the grouping or under the goal.
pub fn calculate_current_streak(t: &Vec<DayTotal>, today: &Date, Ghost(runs): Ghost<Seq<Run>>) -> (c:
    u32)
    requires
        groups(t@, runs),
        today.wf(),
    ensures
        is_current_streak(runs, today.spec_index_of(), c as int),
{
    proof {
        lemma_day_index_in_range(*today);
    }
    let today_idx = today.day_index();
    let mut streak: u32 = 0;
    let mut current_day: i64 = today_idx;
    while lookup_total(t, current_day) >= DAILY_GOAL_CENTIMILES
        invariant
            groups(t@, runs),
            -1 <= current_day <= today_idx,
            today_idx < DAY_INDEX_LIMIT,
            current_day == today_idx - streak,
            qualifying_chain(runs, current_day as int + 1, streak as int),
        decreases current_day + 1,
    {
        proof {
            assert(day_qualifies(runs, current_day as int));
            lemma_qualifying_day_is_entry(t@, runs, current_day as int);
            assert forall|k: int| 0 <= k < streak + 1 implies #[trigger] day_qualifies(
                runs,
                current_day as int + k,
            ) by {
                if k >= 1 {
                    assert(day_qualifies(runs, (current_day as int + 1) + (k - 1)));
                }
            }
        }
        streak = streak + 1;
        current_day = current_day - 1;
    }
    proof {
        assert(recorded_total(t@, current_day as int) == day_total(runs, current_day as int));
    }
    streak
}

/// The larger of two integers.
pub open spec fn max2(a: int, b: int) -> int {
    if a >= b {
        a
    } else {
        b
    }
}

/// The day index of entry `i`, or the model's limit once the scan is done:
/// the first day the scan has not reached yet.
pub open spec fn scan_frontier(t: Seq<DayTotal>, i: int) -> int {
    if i < t.len() {
        t[i].day as int
    } else {
        DAY_INDEX_LIMIT as int
    }
}

/// The longest chain of consecutive qualifying days anywhere in the history.
///
/// Scans the grouping in ascending day order. A qualifying day extends the
/// running chain when it comes exactly one calendar day after the previous
/// qualifying day; any larger gap closes the chain against the running
/// maximum and starts a new one. Days under the goal are skipped.
pub fn calculate_longest_streak(t: &Vec<DayTotal>, Ghost(runs): Ghost<Seq<Run>>) -> (l: u32)
    requires
        groups(t@, runs),
    ensures
        is_longest_streak(runs, l as int),
{
    let mut longest: u32 = 0;
    let mut current: u32 = 0;
    let mut prev_q: i64 = -1;
    let ghost mut best_start: int = 0;
    let n = t.len();
    proof {
        assert forall|d: int| d < 0 implies !day_qualifies(runs, d) by {
            assert forall|j: int| 0 <= j < t@.len() implies #[trigger] t@[j].day != d by {}
            lemma_recorded_total_absent(t@, d);
        }
        assert forall|d: int| -1 < d < scan_frontier(t@, 0) implies !day_qualifies(runs, d) by {
            assert forall|j: int| 0 <= j < t@.len() implies #[trigger] t@[j].day != d by {
                if j > 0 {
                    assert(t@[0].day < t@[j].day);
                }
            }
            lemma_recorded_total_absent(t@, d);
        }
        assert forall|d: int, m: int|
            qualifying_chain(runs, d, m) && m >= 1 && d + m - 1 <= -1 implies m <= max2(
            0,
            0,
        ) by {
            assert(day_qualifies(runs, d + (m - 1)));
        }
    }
    for i in 0..n
        invariant
            groups(t@, runs),
            n == t@.len(),
            prev_q >= -1,
            (prev_q == -1) <==> (current == 0),
            prev_q == -1 ==> longest == 0,
            prev_q >= 0 ==> {
                &&& current >= 1
                &&& prev_q - current + 1 >= 0
                &&& qualifying_chain(runs, prev_q - current as int + 1, current as int)
                &&& !day_qualifies(runs, prev_q - current as int)
            },
            prev_q < scan_frontier(t@, i as int),
            prev_q < DAY_INDEX_LIMIT,
            current <= DAY_INDEX_LIMIT,
            longest <= DAY_INDEX_LIMIT,
            forall|d: int| prev_q < d < scan_frontier(t@, i as int) ==> !day_qualifies(runs, d),
            forall|d: int| d < 0 ==> !day_qualifies(runs, d),
            longest > 0 ==> qualifying_chain(runs, best_start, longest as int),
            forall|d: int, m: int|
                qualifying_chain(runs, d, m) && m >= 1 && d + m - 1 <= prev_q ==> m <= max2(
                    longest as int,
                    current as int,
                ),
    {
        let entry = t[i];
        let ghost fr_new = scan_frontier(t@, i as int + 1);
        proof {
            assert(entry.day == scan_frontier(t@, i as int));
            assert(entry.day < fr_new) by {
                if i as int + 1 < t@.len() {
                    assert(t@[i as int].day < t@[i as int + 1].day);
                } else {
                    assert(0 <= t@[i as int].day < DAY_INDEX_LIMIT);
                }
            }
            assert forall|d: int| entry.day < d < fr_new implies !day_qualifies(runs, d) by {
                assert forall|j: int| 0 <= j < t@.len() implies #[trigger] t@[j].day != d by {
                    if j <= i as int {
                        if j < i as int {
                            assert(t@[j].day < t@[i as int].day);
                        }
                    } else {
                        assert(i as int + 1 < t@.len());
                        if j > i as int + 1 {
                            assert(t@[i as int + 1].day < t@[j].day);
                        }
                    }
                }
                lemma_recorded_total_absent(t@, d);
            }
            lemma_recorded_total_found(t@, entry.day as int, i as int);
        }
        if entry.total >= DAILY_GOAL_CENTIMILES {
            proof {
                assert(day_qualifies(runs, entry.day as int));
            }
            if prev_q >= 0 && entry.day == prev_q + 1 {
                let ghost start = prev_q - current as int + 1;
                proof {
                    assert forall|k: int| 0 <= k < current as int + 1 implies #[trigger] day_qualifies(
                        runs,
                        start + k,
                    ) by {
                        if k < current as int {
                        } else {
                            assert(start + k == entry.day as int);
                        }
                    }
                    assert(qualifying_chain(runs, start, current as int + 1));
                    assert forall|d: int, m: int|
                        qualifying_chain(runs, d, m) && m >= 1 && d + m - 1 <= entry.day as int
                        implies m <= max2(longest as int, current as int + 1) by {
                        if d + m - 1 <= prev_q as int {
                            assert(m <= max2(longest as int, current as int));
                        } else {
                            assert(d + m - 1 == entry.day as int);
                            if m > current as int + 1 {
                                let k = m - 2 - current as int;
                                assert(day_qualifies(runs, d + k));
                                assert(d + k == prev_q - current as int);
                                assert(false);
                            }
                        }
                    }
                }
                current = current + 1;
                prev_q = entry.day;
            } else {
                let ghost old_longest = longest as int;
                let ghost old_current = current as int;
                proof {
                    assert(!day_qualifies(runs, entry.day as int - 1)) by {
                        if entry.day as int - 1 < 0 {
                        } else {
                            assert(prev_q < entry.day as int - 1 < scan_frontier(
                                t@,
                                i as int,
                            ));
                        }
                    }
                }
                if current > longest {
                    longest = current;
                    proof {
                        best_start = prev_q - current as int + 1;
                    }
                }
                proof {
                    assert(longest as int == max2(old_longest, old_current));
                    assert forall|d: int, m: int|
                        qualifying_chain(runs, d, m) && m >= 1 && d + m - 1 <= entry.day as int
                        implies m <= max2(longest as int, 1int) by {
                        if d + m - 1 <= prev_q as int {
                            assert(m <= max2(old_longest, old_current));
                        } else if d + m - 1 < entry.day as int {
                            assert(day_qualifies(runs, d + (m - 1)));
                            assert(false);
                        } else {
                            if m > 1 {
                                assert(day_qualifies(runs, d + (m - 2)));
                                assert(d + (m - 2) == entry.day as int - 1);
                                assert(false);
                            }
                        }
                    }
                }
                current = 1;
                prev_q = entry.day;
            }
        } else {
            proof {
                assert(!day_qualifies(runs, entry.day as int));
                assert forall|d: int| prev_q < d < fr_new implies !day_qualifies(runs, d) by {
                    if d < entry.day as int {
                        assert(prev_q < d < scan_frontier(t@, i as int));
                    }
                }
            }
        }
    }
    if current > longest {
        longest = current;
        proof {
            best_start = prev_q - current as int + 1;
        }
    }
    proof {
        assert forall|d: int, m: int| qualifying_chain(runs, d, m) implies m <= longest as int by {
            if m >= 1 {
                assert(day_qualifies(runs, d + (m - 1)));
                if d + (m - 1) > prev_q as int {
                    lemma_qualifying_day_is_entry(t@, runs, d + (m - 1));
                    assert(prev_q < d + (m - 1) < scan_frontier(t@, n as int));
                    assert(false);
                }
            }
        }
    }
    longest
}

/// Builds the daily grouping: one entry per day that has at least one run,
/// sorted by day, each holding the day's summed distance.
pub fn group_by_date(runs: &Vec<Run>) -> (t: Vec<DayTotal>)
    requires
        forall|i: int| 0 <= i < runs@.len() ==> #[trigger] runs@[i].wf(),
        runs@.len() * MAX_DISTANCE_CENTIMILES <= u64::MAX,
    ensures
        groups(t@, runs@),
{
    let mut t: Vec<DayTotal> = Vec::new();
    proof {
        assert(runs@.take(0) =~= Seq::<Run>::empty());
        assert forall|day: int| #[trigger] recorded_total(t@, day) == day_total(
            runs@.take(0),
            day,
        ) by {
            lemma_recorded_total_absent(t@, day);
        }
    }
    let n = runs.len();
    for idx in 0..n
        invariant
            n == runs@.len(),
            forall|i: int| 0 <= i < runs@.len() ==> #[trigger] runs@[i].wf(),
            runs@.len() * MAX_DISTANCE_CENTIMILES <= u64::MAX,
            sorted_by_day(t@),
            forall|day: int| #[trigger] recorded_total(t@, day) == day_total(
                runs@.take(idx as int),
                day,
            ),
            forall|i: int| 0 <= i < t@.len() ==> 0 <= #[trigger] t@[i].day < DAY_INDEX_LIMIT,
    {
        let ghost prefix = runs@.take(idx as int);
        let ghost prefix1 = runs@.take(idx as int + 1);
        proof {
            assert(prefix1.drop_last() =~= prefix);
            assert(prefix1.last() == runs@[idx as int]);
            assert(runs@[idx as int].wf());
        }
        let day = runs[idx].date.day_index();
        let dist = runs[idx].distance_centimiles as u64;
        let pos = lower_bound(&t, day);
        if pos < t.len() && t[pos].day == day {
            proof {
                lemma_recorded_total_found(t@, day as int, pos as int);
                lemma_sum_bounds(prefix, 0, 0, day as int);
                assert(prefix.len() * MAX_DISTANCE_CENTIMILES <= runs@.len()
                    * MAX_DISTANCE_CENTIMILES) by (nonlinear_arith)
                    requires
                        prefix.len() <= runs@.len(),
                        MAX_DISTANCE_CENTIMILES > 0,
                ;
                assert((runs@.len() - 1) * MAX_DISTANCE_CENTIMILES + MAX_DISTANCE_CENTIMILES
                    == runs@.len() * MAX_DISTANCE_CENTIMILES) by (nonlinear_arith);
                assert(prefix.len() <= runs@.len() - 1);
                assert((prefix.len()) * MAX_DISTANCE_CENTIMILES + MAX_DISTANCE_CENTIMILES
                    <= runs@.len() * MAX_DISTANCE_CENTIMILES) by (nonlinear_arith)
                    requires
                        prefix.len() <= runs@.len() - 1,
                        MAX_DISTANCE_CENTIMILES > 0,
                ;
            }
            let updated = DayTotal { day, total: t[pos].total + dist };
            let ghost told = t@;
            t.set(pos, updated);
            proof {
                assert forall|d: int| #[trigger] recorded_total(t@, d) == day_total(
                    prefix1,
                    d,
                ) by {
                    lemma_recorded_total_update(told, pos as int, updated, d);
                }
            }
        } else {
            let entry = DayTotal { day, total: dist };
            let ghost told = t@;
            t.insert(pos, entry);
            proof {
                assert forall|d: int| #[trigger] recorded_total(t@, d) == day_total(
                    prefix1,
                    d,
                ) by {
                    lemma_recorded_total_insert(told, pos as int, entry, d);
                }
                assert forall|i: int, j: int| 0 <= i < j < t@.len() implies t@[i].day
                    < t@[j].day by {
                    if j < pos {
                        assert(told[i] == t@[i] && told[j] == t@[j]);
                    } else if i < pos && j == pos {
                    } else if i < pos && j > pos {
                        assert(t@[j] == told[j - 1]);
                    } else if i == pos {
                        assert(t@[j] == told[j - 1]);
                        assert(told[j - 1].day >= day);
                        assert(told[j - 1].day != day);
                    } else {
                        assert(t@[i] == told[i - 1] && t@[j] == told[j - 1]);
                    }
                }
            }
        }
    }
    proof {
        assert(runs@.take(n as int) =~= runs@);
    }
    t
}

/// Number of runs and summed distance (hundredths of a mile) dated within
/// the inclusive day-index window `lo..=hi`.
pub fn window_stats(runs: &Vec<Run>, lo: i64, hi: i64) -> (r: (u64, u64))
    requires
        forall|i: int| 0 <= i < runs@.len() ==> #[trigger] runs@[i].wf(),
        runs@.len() * MAX_DISTANCE_CENTIMILES <= u64::MAX,
    ensures
        r.0 as int == count_in_window(runs@, lo as int, hi as int),
        r.1 as int == sum_in_window(runs@, lo as int, hi as int),
{
    let mut count: u64 = 0;
    let mut sum: u64 = 0;
    let n = runs.len();
    for idx in 0..n
        invariant
            n == runs@.len(),
            forall|i: int| 0 <= i < runs@.len() ==> #[trigger] runs@[i].wf(),
            runs@.len() * MAX_DISTANCE_CENTIMILES <= u64::MAX,
            count as int == count_in_window(runs@.take(idx as int), lo as int, hi as int),
            sum as int == sum_in_window(runs@.take(idx as int), lo as int, hi as int),
    {
        let ghost prefix = runs@.take(idx as int);
        let ghost prefix1 = runs@.take(idx as int + 1);
        proof {
            assert(prefix1.drop_last() =~= prefix);
            assert(prefix1.last() == runs@[idx as int]);
            assert(runs@[idx as int].wf());
            lemma_sum_bounds(prefix, lo as int, hi as int, 0);
            assert(prefix.len() * MAX_DISTANCE_CENTIMILES + MAX_DISTANCE_CENTIMILES <= runs@.len()
                * MAX_DISTANCE_CENTIMILES) by (nonlinear_arith)
                requires
                    prefix.len() <= runs@.len() - 1,
                    MAX_DISTANCE_CENTIMILES > 0,
            ;
        }
        let day = runs[idx].date.day_index();
        if lo <= day && day <= hi {
            count = count + 1;
            sum = sum + runs[idx].distance_centimiles as u64;
        }
    }
    proof {
        assert(runs@.take(n as int) =~= runs@);
    }
    (count, sum)
}

/// Number of runs and their summed distance over the whole history.
pub fn totals(runs: &Vec<Run>) -> (r: (u64, u64))
    requires
        forall|i: int| 0 <= i < runs@.len() ==> #[trigger] runs@[i].wf(),
        runs@.len() * MAX_DISTANCE_CENTIMILES <= u64::MAX,
    ensures
        r.0 == runs@.len(),
        r.1 as int == total_distance_of(runs@),
{
    let mut sum: u64 = 0;
    let n = runs.len();
    for idx in 0..n
        invariant
            n == runs@.len(),
            forall|i: int| 0 <= i < runs@.len() ==> #[trigger] runs@[i].wf(),
            runs@.len() * MAX_DISTANCE_CENTIMILES <= u64::MAX,
            sum as int == total_distance_of(runs@.take(idx as int)),
    {
        let ghost prefix = runs@.take(idx as int);
        let ghost prefix1 = runs@.take(idx as int + 1);
        proof {
            assert(prefix1.drop_last() =~= prefix);
            assert(prefix1.last() == runs@[idx as int]);
            assert(runs@[idx as int].wf());
            lemma_sum_bounds(prefix, 0, 0, 0);
            assert(prefix.len() * MAX_DISTANCE_CENTIMILES + MAX_DISTANCE_CENTIMILES <= runs@.len()
                * MAX_DISTANCE_CENTIMILES) by (nonlinear_arith)
                requires
                    prefix.len() <= runs@.len() - 1,
                    MAX_DISTANCE_CENTIMILES > 0,
            ;
        }
        sum = sum + runs[idx].distance_centimiles as u64;
    }
    proof {
        assert(runs@.take(n as int) =~= runs@);
    }
    (runs.len() as u64, sum)
}

/// Number of days between `lo` and `hi`, inclusive, whose grouped total
/// meets the daily goal.
pub fn count_qualifying_days(t: &Vec<DayTotal>, lo: i64, hi: i64, Ghost(runs): Ghost<
    Seq<Run>,
>) -> (q: u64)
    requires
        groups(t@, runs),
        0 <= lo <= hi + 1,
        hi < DAY_INDEX_LIMIT,
    ensures
        q as int == qualifying_days_in(runs, lo as int, hi as int + 1),
        q <= hi + 1 - lo,
{
    let mut q: u64 = 0;
    let mut d: i64 = lo;
    while d <= hi
        invariant
            groups(t@, runs),
            lo <= d <= hi + 1,
            hi < DAY_INDEX_LIMIT,
            q as int == qualifying_days_in(runs, lo as int, d as int),
            q <= d - lo,
        decreases hi + 1 - d,
    {
        if lookup_total(t, d) >= DAILY_GOAL_CENTIMILES {
            q = q + 1;
        }
        d = d + 1;
    }
    q
}

/// No day of the window qualifies, so the window's qualifying count is zero.
proof fn lemma_no_qualifying_days(runs: Seq<Run>, lo: int, hi: int)
    requires
        forall|d: int| lo <= d < hi ==> !day_qualifies(runs, d),
    ensures
        qualifying_days_in(runs, lo, hi) == 0,
    decreases hi - lo,
{
    if hi > lo {
        lemma_no_qualifying_days(runs, lo, hi - 1);
    }
}

/// The dense trailing 30-day series, oldest day first: each entry carries
/// the day's grouped total, zero when the day has no runs.
pub fn calculate_recent_trend(t: &Vec<DayTotal>, today: &Date, Ghost(runs): Ghost<Seq<Run>>) -> (
    trend: Vec<DailyData>)
    requires
        groups(t@, runs),
        today.wf(),
        today.spec_index_of() >= 29,
    ensures
        trend@.len() == 30,
        forall|i: int|
            0 <= i < 30 ==> {
                let e = #[trigger] trend@[i];
                &&& e.date.wf()
                &&& e.date.spec_index_of() == today.spec_index_of() - 29 + i
                &&& e.distance as int == day_total(runs, today.spec_index_of() - 29 + i)
            },
{
    let mut dates: Vec<Date> = Vec::new();
    let mut cur: Date = *today;
    let mut j: usize = 0;
    while j < 30
        invariant
            j <= 30,
            dates@.len() == j,
            today.wf(),
            today.spec_index_of() >= 29,
            j < 30 ==> cur.wf() && cur.spec_index_of() == today.spec_index_of() - j,
            forall|k: int|
                0 <= k < j ==> (#[trigger] dates@[k]).wf() && dates@[k].spec_index_of()
                    == today.spec_index_of() - k,
        decreases 30 - j,
    {
        dates.push(cur);
        if j < 29 {
            cur = prev_day(&cur);
        }
        j = j + 1;
    }
    let mut trend: Vec<DailyData> = Vec::new();
    let mut i: usize = 0;
    while i < 30
        invariant
            i <= 30,
            trend@.len() == i,
            groups(t@, runs),
            dates@.len() == 30,
            today.spec_index_of() >= 29,
            forall|k: int|
                0 <= k < 30 ==> (#[trigger] dates@[k]).wf() && dates@[k].spec_index_of()
                    == today.spec_index_of() - k,
            forall|k: int|
                0 <= k < i ==> {
                    let e = #[trigger] trend@[k];
                    &&& e.date.wf()
                    &&& e.date.spec_index_of() == today.spec_index_of() - 29 + k
                    &&& e.distance as int == day_total(runs, today.spec_index_of() - 29 + k)
                },
        decreases 30 - i,
    {
        let dte = dates[29 - i];
        let total = lookup_total(t, dte.day_index());
        trend.push(DailyData { date: dte, distance: total });
        i = i + 1;
    }
    trend
}

/// The engine's full contract for a non-empty history: every field of the
/// snapshot, stated over the runs and the given today.
pub open spec fn analytics_matches(runs: Seq<Run>, today: Date, a: Analytics) -> bool {
    let today_idx = today.spec_index_of();
    let jan1_idx = spec_day_index(today.year as int, 1, 1);
    let q = qualifying_days_in(runs, jan1_idx, today_idx + 1);
    &&& a.total_runs == runs.len()
    &&& a.total_distance == total_distance_of(runs)
    &&& a.average_distance == a.total_distance as int / a.total_runs as int
    &&& is_current_streak(runs, today_idx, a.current_streak as int)
    &&& is_longest_streak(runs, a.longest_streak as int)
    &&& a.longest_streak >= a.current_streak
    &&& a.runs_this_week == count_in_window(runs, today_idx - 6, today_idx)
    &&& a.runs_this_month == count_in_window(runs, today_idx - 29, today_idx)
    &&& a.runs_this_year == count_in_window(runs, jan1_idx, today_idx)
    &&& a.average_distance_this_week == if a.runs_this_week == 0 {
        0int
    } else {
        sum_in_window(runs, today_idx - 6, today_idx) / a.runs_this_week as int
    }
    &&& a.average_distance_this_month == if a.runs_this_month == 0 {
        0int
    } else {
        sum_in_window(runs, today_idx - 29, today_idx) / a.runs_this_month as int
    }
    &&& a.average_distance_this_year == if a.runs_this_year == 0 {
        0int
    } else {
        sum_in_window(runs, jan1_idx, today_idx) / a.runs_this_year as int
    }
    &&& a.recent_trend@.len() == 30
    &&& (forall|i: int|
        0 <= i < 30 ==> {
            let e = #[trigger] a.recent_trend@[i];
            &&& e.date.wf()
            &&& e.date.spec_index_of() == today_idx - 29 + i
            &&& e.distance as int == day_total(runs, today_idx - 29 + i)
        })
    &&& a.days_remaining_to_year_goal == 365 - q
    &&& a.year_goal_completion_percentage == q * 10000 / 365
    &&& a.monthly_breakdown@ == Seq::<crate::analytics::MonthlyData>::empty()
}

/// Converts a run history into the analytics snapshot for the given today.
///
/// Total over every well-formed history: an empty history yields the defined
/// empty snapshot; otherwise every aggregate is pinned by
/// [`analytics_matches`]. `today` must lie at least 29 days past the
/// calendar model's first day, so that the trailing 30-day window exists.
/// The last three clauses state standing laws: the longest streak is never
/// shorter than the current one, the current streak is zero exactly when
/// today misses the goal, and the days remaining to the year goal
/// complement the qualifying days year-to-date.
pub fn calculate_analytics(runs: &Vec<Run>, today: &Date) -> (a: Analytics)
    requires
        forall|i: int| 0 <= i < runs@.len() ==> #[trigger] runs@[i].wf(),
        runs@.len() * MAX_DISTANCE_CENTIMILES <= u64::MAX,
        today.wf(),
        today.spec_index_of() >= 29,
    ensures
        runs@.len() == 0 ==> a.is_empty_snapshot(),
        runs@.len() > 0 ==> analytics_matches(runs@, *today, a),
        a.longest_streak >= a.current_streak,
        (a.current_streak == 0) <==> !day_qualifies(runs@, today.spec_index_of()),
        a.days_remaining_to_year_goal + qualifying_days_in(
            runs@,
            spec_day_index(today.year as int, 1, 1),
            today.spec_index_of() + 1,
        ) == 365,
{
    let ghost jan1_ghost = spec_day_index(today.year as int, 1, 1);
    if runs.len() == 0 {
        proof {
            lemma_days_into_year(*today);
            assert forall|d: int| jan1_ghost <= d < today.spec_index_of() + 1 implies
                !day_qualifies(runs@, d) by {
                assert(day_total(runs@, d) == 0);
            }
            lemma_no_qualifying_days(runs@, jan1_ghost, today.spec_index_of() + 1);
            assert(day_total(runs@, today.spec_index_of()) == 0);
        }
        return Analytics::empty();
    }
    let t = group_by_date(runs);
    let current_streak = calculate_current_streak(&t, today, Ghost(runs@));
    let longest_streak = calculate_longest_streak(&t, Ghost(runs@));
    proof {
        lemma_longest_at_least_current(
            runs@,
            today.spec_index_of(),
            current_streak as int,
            longest_streak as int,
        );
        lemma_current_streak_zero(runs@, today.spec_index_of(), current_streak as int);
    }
    let (total_runs, total_dist) = totals(runs);
    let average_distance = if total_runs > 0 {
        total_dist / total_runs
    } else {
        0
    };
    let today_idx = today.day_index();
    let jan1 = Date { year: today.year, month: 1, day: 1 };
    let jan1_idx = jan1.day_index();
    proof {
        lemma_days_into_year(*today);
    }
    let (runs_this_week, dist_week) = window_stats(runs, today_idx - 6, today_idx);
    let (runs_this_month, dist_month) = window_stats(runs, today_idx - 29, today_idx);
    let (runs_this_year, dist_year) = window_stats(runs, jan1_idx, today_idx);
    let average_distance_this_week = if runs_this_week > 0 {
        dist_week / runs_this_week
    } else {
        0
    };
    let average_distance_this_month = if runs_this_month > 0 {
        dist_month / runs_this_month
    } else {
        0
    };
    let average_distance_this_year = if runs_this_year > 0 {
        dist_year / runs_this_year
    } else {
        0
    };
    let recent_trend = calculate_recent_trend(&t, today, Ghost(runs@));
    let q = count_qualifying_days(&t, jan1_idx, today_idx, Ghost(runs@));
    let days_remaining_to_year_goal = 365 - (q as i32);
    let year_goal_completion_percentage = (q as u32) * 10000 / 365;
    Analytics {
        current_streak,
        longest_streak,
        total_runs,
        total_distance: total_dist,
        average_distance,
        runs_this_week,
        runs_this_month,
        runs_this_year,
        recent_trend,
        days_remaining_to_year_goal,
        year_goal_completion_percentage,
        average_distance_this_week,
        average_distance_this_month,
        average_distance_this_year,
        monthly_breakdown: Vec::new(),
    }
}

/// The current streak is zero exactly when today's grouped total misses the
/// daily goal (in particular, when today has no runs at all).
pub proof fn lemma_current_streak_zero(runs: Seq<Run>, today: int, c: int)
    requires
        is_current_streak(runs, today, c),
    ensures
        (c == 0) <==> !day_qualifies(runs, today),
{
    if c > 0 {
        assert(day_qualifies(runs, (today - c + 1) + (c - 1)));
    }
}

/// The longest streak is never shorter than the current streak: the days of
/// the current streak are themselves a chain of consecutive qualifying days.
pub proof fn lemma_longest_at_least_current(runs: Seq<Run>, today: int, c: int, l: int)
    requires
        is_current_streak(runs, today, c),
        is_longest_streak(runs, l),
    ensures
        l >= c,
{
    assert(qualifying_chain(runs, today - c + 1, c));
}

/// The trend series of a snapshot holds exactly thirty entries: consecutive
/// calendar days, strictly ascending, ending at the given today.
pub proof fn lemma_trend_series_shape(runs: Seq<Run>, today: Date, a: Analytics)
    requires
        runs.len() > 0,
        today.wf(),
        analytics_matches(runs, today, a),
    ensures
        a.recent_trend@.len() == 30,
        a.recent_trend@[29].date == today,
        forall|i: int|
            0 <= i < 29 ==> (#[trigger] a.recent_trend@[i]).date.spec_index_of() + 1
                == a.recent_trend@[i + 1].date.spec_index_of(),
{
    crate::date::lemma_day_index_injective(a.recent_trend@[29].date, today);
}

/// The engine is deterministic: two snapshots that both satisfy the full
/// contract for the same runs and the same today agree in every field.
pub proof fn lemma_analytics_deterministic(
    runs: Seq<Run>,
    today: Date,
    a1: Analytics,
    a2: Analytics,
)
    requires
        runs.len() > 0,
        analytics_matches(runs, today, a1),
        analytics_matches(runs, today, a2),
    ensures
        a1.current_streak == a2.current_streak,
        a1.longest_streak == a2.longest_streak,
        a1.total_runs == a2.total_runs,
        a1.total_distance == a2.total_distance,
        a1.average_distance == a2.average_distance,
        a1.runs_this_week == a2.runs_this_week,
        a1.runs_this_month == a2.runs_this_month,
        a1.runs_this_year == a2.runs_this_year,
        a1.recent_trend@ == a2.recent_trend@,
        a1.days_remaining_to_year_goal == a2.days_remaining_to_year_goal,
        a1.year_goal_completion_percentage == a2.year_goal_completion_percentage,
        a1.average_distance_this_week == a2.average_distance_this_week,
        a1.average_distance_this_month == a2.average_distance_this_month,
        a1.average_distance_this_year == a2.average_distance_this_year,
        a1.monthly_breakdown@ == a2.monthly_breakdown@,
{
    let today_idx = today.spec_index_of();
    let c1 = a1.current_streak as int;
    let c2 = a2.current_streak as int;
    if c1 < c2 {
        assert(day_qualifies(runs, (today_idx - c2 + 1) + (c2 - 1 - c1)));
        assert(false);
    }
    if c2 < c1 {
        assert(day_qualifies(runs, (today_idx - c1 + 1) + (c1 - 1 - c2)));
        assert(false);
    }
    let l1 = a1.longest_streak as int;
    let l2 = a2.longest_streak as int;
    if l1 < l2 {
        let d = choose|d: int| qualifying_chain(runs, d, l2);
        assert(qualifying_chain(runs, d, l2));
        assert(false);
    }
    if l2 < l1 {
        let d = choose|d: int| qualifying_chain(runs, d, l1);
        assert(qualifying_chain(runs, d, l1));
        assert(false);
    }
    assert forall|i: int| 0 <= i < 30 implies a1.recent_trend@[i] == a2.recent_trend@[i] by {
        crate::date::lemma_day_index_injective(a1.recent_trend@[i].date, a2.recent_trend@[i].date);
    }
    assert(a1.recent_trend@ =~= a2.recent_trend@);
    assert(a1.monthly_breakdown@ =~= a2.monthly_breakdown@);
}

} // verus!
