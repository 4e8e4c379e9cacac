use runlogger::analytics::Analytics;
use runlogger::date::Date;
use runlogger::run::Run;
use runlogger::streak::calculate_analytics;
use runlogger::TimeOfDay;

fn run_on(date: Date, centimiles: u32) -> Run {
    Run {
        id: None,
        date,
        time_started: TimeOfDay { hour: 7, minute: 30, second: 0 },
        distance_centimiles: centimiles,
        note: None,
        created_at_unix: 0,
    }
}

fn d(year: i32, month: u8, day: u8) -> Date {
    Date { year, month, day }
}

#[test]
fn two_short_runs_same_day_reach_goal() {
    // 0.6 + 0.5 miles today groups to 1.1 miles, so the streak is one day.
    let today = d(2025, 6, 15);
    let runs = vec![run_on(today, 60), run_on(today, 50)];
    let a = calculate_analytics(&runs, &today);
    assert_eq!(a.current_streak, 1);
    assert_eq!(a.total_distance, 110);
}

#[test]
fn three_consecutive_days_make_streak_three() {
    let today = d(2025, 6, 15);
    let runs = vec![
        run_on(d(2025, 6, 15), 100),
        run_on(d(2025, 6, 14), 100),
        run_on(d(2025, 6, 13), 100),
    ];
    let a = calculate_analytics(&runs, &today);
    assert_eq!(a.current_streak, 3);
    assert_eq!(a.longest_streak, 3);
}

#[test]
fn gap_day_breaks_current_streak() {
    // Runs today and two days ago, nothing yesterday.
    let today = d(2025, 6, 15);
    let runs = vec![run_on(d(2025, 6, 15), 100), run_on(d(2025, 6, 13), 100)];
    let a = calculate_analytics(&runs, &today);
    assert_eq!(a.current_streak, 1);
    assert_eq!(a.longest_streak, 1);
}

#[test]
fn empty_history_gives_empty_snapshot() {
    let today = d(2025, 6, 15);
    let runs: Vec<Run> = Vec::new();
    let a = calculate_analytics(&runs, &today);
    assert_eq!(a.current_streak, 0);
    assert_eq!(a.longest_streak, 0);
    assert_eq!(a.total_runs, 0);
    assert_eq!(a.total_distance, 0);
    assert_eq!(a.average_distance, 0);
    assert_eq!(a.runs_this_week, 0);
    assert_eq!(a.runs_this_month, 0);
    assert_eq!(a.runs_this_year, 0);
    assert!(a.recent_trend.is_empty());
    assert_eq!(a.days_remaining_to_year_goal, 365);
    assert_eq!(a.year_goal_completion_percentage, 0);
    assert!(a.monthly_breakdown.is_empty());
}

#[test]
fn totals_and_average_are_exact() {
    // 1.0 + 2.5 + 0.5 miles: total 4.0, average 400 / 3 hundredths.
    let today = d(2025, 6, 15);
    let runs = vec![
        run_on(d(2025, 6, 15), 100),
        run_on(d(2025, 6, 14), 250),
        run_on(d(2025, 6, 1), 50),
    ];
    let a = calculate_analytics(&runs, &today);
    assert_eq!(a.total_runs, 3);
    assert_eq!(a.total_distance, 400);
    assert_eq!(a.average_distance, 400 / 3);
}

#[test]
fn trend_has_thirty_consecutive_days_ending_today() {
    let today = d(2025, 6, 15);
    let runs = vec![run_on(d(2025, 6, 15), 100), run_on(d(2025, 6, 1), 75)];
    let a = calculate_analytics(&runs, &today);
    assert_eq!(a.recent_trend.len(), 30);
    assert_eq!(a.recent_trend[29].date, today);
    assert_eq!(a.recent_trend[0].date, d(2025, 5, 17));
    for i in 1..30 {
        let prev = a.recent_trend[i - 1].date.day_index();
        let next = a.recent_trend[i].date.day_index();
        assert_eq!(next, prev + 1);
    }
    assert_eq!(a.recent_trend[29].distance, 100);
    // June 1 is 14 days before June 15, so it sits at index 29 - 14.
    assert_eq!(a.recent_trend[15].date, d(2025, 6, 1));
    assert_eq!(a.recent_trend[15].distance, 75);
    assert_eq!(a.recent_trend[14].distance, 0);
}

#[test]
fn year_goal_projection_counts_qualifying_days() {
    // Three qualifying days year-to-date and one below the goal.
    let today = d(2025, 6, 15);
    let runs = vec![
        run_on(d(2025, 6, 15), 100),
        run_on(d(2025, 3, 1), 200),
        run_on(d(2025, 1, 1), 150),
        run_on(d(2025, 2, 10), 50),
    ];
    let a = calculate_analytics(&runs, &today);
    assert_eq!(a.days_remaining_to_year_goal, 362);
    assert_eq!(a.year_goal_completion_percentage, 3 * 10000 / 365);
    assert_eq!(a.days_remaining_to_year_goal as u64 + 3, 365);
}

#[test]
fn today_below_goal_means_streak_zero() {
    let today = d(2025, 6, 15);
    let runs = vec![run_on(d(2025, 6, 15), 99), run_on(d(2025, 6, 14), 100)];
    let a = calculate_analytics(&runs, &today);
    assert_eq!(a.current_streak, 0);
    assert_eq!(a.longest_streak, 1);
    assert!(a.longest_streak >= a.current_streak);
}

#[test]
fn longest_streak_found_in_older_history() {
    let today = d(2025, 6, 15);
    let runs = vec![
        run_on(d(2025, 6, 15), 100),
        run_on(d(2025, 5, 1), 100),
        run_on(d(2025, 5, 2), 100),
        run_on(d(2025, 5, 3), 120),
        run_on(d(2025, 5, 4), 100),
    ];
    let a = calculate_analytics(&runs, &today);
    assert_eq!(a.current_streak, 1);
    assert_eq!(a.longest_streak, 4);
}

#[test]
fn streak_crosses_leap_day() {
    let today = d(2024, 3, 1);
    let runs = vec![
        run_on(d(2024, 2, 28), 100),
        run_on(d(2024, 2, 29), 100),
        run_on(d(2024, 3, 1), 100),
    ];
    let a = calculate_analytics(&runs, &today);
    assert_eq!(a.current_streak, 3);
}

#[test]
fn streak_crosses_february_end_in_common_year() {
    let today = d(2025, 3, 1);
    let runs = vec![run_on(d(2025, 2, 28), 100), run_on(d(2025, 3, 1), 100)];
    let a = calculate_analytics(&runs, &today);
    assert_eq!(a.current_streak, 2);
}

#[test]
fn streak_crosses_year_boundary() {
    let today = d(2025, 1, 1);
    let runs = vec![run_on(d(2024, 12, 31), 100), run_on(d(2025, 1, 1), 100)];
    let a = calculate_analytics(&runs, &today);
    assert_eq!(a.current_streak, 2);
    assert_eq!(a.longest_streak, 2);
    // Only January 1 lies within year-to-date.
    assert_eq!(a.runs_this_year, 1);
    assert_eq!(a.days_remaining_to_year_goal, 364);
}

#[test]
fn window_boundaries_are_inclusive() {
    let today = d(2025, 6, 30);
    let runs = vec![
        run_on(d(2025, 6, 30), 100), // today: all windows
        run_on(d(2025, 6, 24), 100), // today - 6: last of the week window
        run_on(d(2025, 6, 23), 100), // today - 7: month only
        run_on(d(2025, 6, 1), 100),  // today - 29: last of the month window
        run_on(d(2025, 5, 31), 100), // today - 30: year only
        run_on(d(2025, 1, 1), 100),  // January 1: year only
    ];
    let a = calculate_analytics(&runs, &today);
    assert_eq!(a.runs_this_week, 2);
    assert_eq!(a.runs_this_month, 4);
    assert_eq!(a.runs_this_year, 6);
    assert_eq!(a.average_distance_this_week, 100);
    assert_eq!(a.average_distance_this_month, 100);
    assert_eq!(a.average_distance_this_year, 100);
}

#[test]
fn same_input_gives_identical_output() {
    let today = d(2025, 6, 15);
    let runs = vec![
        run_on(d(2025, 6, 15), 123),
        run_on(d(2025, 6, 14), 250),
        run_on(d(2025, 6, 12), 80),
        run_on(d(2025, 1, 3), 100),
    ];
    let a1 = calculate_analytics(&runs, &today);
    let a2 = calculate_analytics(&runs, &today);
    assert_eq!(a1.current_streak, a2.current_streak);
    assert_eq!(a1.longest_streak, a2.longest_streak);
    assert_eq!(a1.total_runs, a2.total_runs);
    assert_eq!(a1.total_distance, a2.total_distance);
    assert_eq!(a1.average_distance, a2.average_distance);
    assert_eq!(a1.runs_this_week, a2.runs_this_week);
    assert_eq!(a1.runs_this_month, a2.runs_this_month);
    assert_eq!(a1.runs_this_year, a2.runs_this_year);
    assert_eq!(a1.days_remaining_to_year_goal, a2.days_remaining_to_year_goal);
    assert_eq!(a1.year_goal_completion_percentage, a2.year_goal_completion_percentage);
    assert_eq!(a1.average_distance_this_week, a2.average_distance_this_week);
    assert_eq!(a1.average_distance_this_month, a2.average_distance_this_month);
    assert_eq!(a1.average_distance_this_year, a2.average_distance_this_year);
    assert_eq!(a1.recent_trend.len(), a2.recent_trend.len());
    for i in 0..a1.recent_trend.len() {
        assert_eq!(a1.recent_trend[i].date, a2.recent_trend[i].date);
        assert_eq!(a1.recent_trend[i].distance, a2.recent_trend[i].distance);
    }
}

#[test]
fn empty_snapshot_constructor_matches_engine() {
    let a = Analytics::empty();
    assert_eq!(a.current_streak, 0);
    assert_eq!(a.days_remaining_to_year_goal, 365);
    assert!(a.recent_trend.is_empty());
}

#[test]
fn day_index_is_consecutive_over_calendar_oddities() {
    // The day index steps by one across month, leap-February and year ends.
    assert_eq!(d(2024, 3, 1).day_index(), d(2024, 2, 29).day_index() + 1);
    assert_eq!(d(2024, 2, 29).day_index(), d(2024, 2, 28).day_index() + 1);
    assert_eq!(d(2025, 3, 1).day_index(), d(2025, 2, 28).day_index() + 1);
    assert_eq!(d(2025, 1, 1).day_index(), d(2024, 12, 31).day_index() + 1);
    assert_eq!(d(2100, 3, 1).day_index(), d(2100, 2, 28).day_index() + 1);
    assert_eq!(d(2000, 3, 1).day_index(), d(2000, 2, 29).day_index() + 1);
    assert_eq!(d(1, 1, 2).day_index(), 1);
    assert_eq!(d(1, 1, 1).day_index(), 0);
}
