//! The analytics snapshot the engine returns.
//!
//! All distances are in hundredths of a mile and the year-goal percentage in
//! hundredths of a percent, so every field is exact integer arithmetic.

use vstd::prelude::*;
use crate::date::Date;

verus! {

/// Aggregates derived from the full run history, anchored on a given day.
#[derive(Clone, Debug)]
pub struct Analytics {
    /// Consecutive qualifying days ending today.
    pub current_streak: u32,
    /// Longest run of consecutive qualifying days anywhere in the history.
    pub longest_streak: u32,
    /// Number of runs in the history.
    pub total_runs: u64,
    /// Summed distance of all runs, hundredths of a mile.
    pub total_distance: u64,
    /// Mean distance per run (integer division), hundredths of a mile.
    pub average_distance: u64,
    /// Runs dated within the last 7 days.
    pub runs_this_week: u64,
    /// Runs dated within the last 30 days.
    pub runs_this_month: u64,
    /// Runs dated between January 1 and today.
    pub runs_this_year: u64,
    /// One entry per day of the trailing 30-day window, ascending.
    pub recent_trend: Vec<DailyData>,
    /// 365 minus the qualifying days year-to-date.
    pub days_remaining_to_year_goal: i32,
    /// Qualifying days year-to-date over 365, in hundredths of a percent.
    pub year_goal_completion_percentage: u32,
    /// Mean distance per run over the last 7 days, hundredths of a mile.
    pub average_distance_this_week: u64,
    /// Mean distance per run over the last 30 days, hundredths of a mile.
    pub average_distance_this_month: u64,
    /// Mean distance per run year-to-date, hundredths of a mile.
    pub average_distance_this_year: u64,
    /// Per-month aggregates; reserved, always empty.
    pub monthly_breakdown: Vec<MonthlyData>,
}

/// A single day of the trend series: the day's summed distance in
/// hundredths of a mile, zero when the day has no runs.
#[derive(Clone, Copy, PartialEq, Eq, Structural, Debug)]
pub struct DailyData {
    pub date: Date,
    pub distance: u64,
}

/// Aggregates of one calendar month.
#[derive(Clone, Copy, PartialEq, Eq, Structural, Debug)]
pub struct MonthlyData {
    pub year: i32,
    pub month: u32,
    pub total_distance: u64,
    pub run_count: u32,
    pub average_distance: u64,
}

impl Analytics {
    /// The defined result for an empty run history: every aggregate zero, an
    /// empty trend series, and the full 365 qualifying days still to go.
    pub open spec fn is_empty_snapshot(self) -> bool {
        &&& self.current_streak == 0
        &&& self.longest_streak == 0
        &&& self.total_runs == 0
        &&& self.total_distance == 0
        &&& self.average_distance == 0
        &&& self.runs_this_week == 0
        &&& self.runs_this_month == 0
        &&& self.runs_this_year == 0
        &&& self.recent_trend@ == Seq::<DailyData>::empty()
        &&& self.days_remaining_to_year_goal == 365
        &&& self.year_goal_completion_percentage == 0
        &&& self.average_distance_this_week == 0
        &&& self.average_distance_this_month == 0
        &&& self.average_distance_this_year == 0
        &&& self.monthly_breakdown@ == Seq::<MonthlyData>::empty()
    }

    /// The snapshot for an empty run history.
    pub fn empty() -> (r: Analytics)
        ensures
            r.is_empty_snapshot(),
    {
        Analytics {
            current_streak: 0,
            longest_streak: 0,
            total_runs: 0,
            total_distance: 0,
            average_distance: 0,
            runs_this_week: 0,
            runs_this_month: 0,
            runs_this_year: 0,
            recent_trend: Vec::new(),
            days_remaining_to_year_goal: 365,
            year_goal_completion_percentage: 0,
            average_distance_this_week: 0,
            average_distance_this_month: 0,
            average_distance_this_year: 0,
            monthly_breakdown: Vec::new(),
        }
    }
}

} // verus!
