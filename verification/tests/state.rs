use runlogger::app_state::{
    apply_loaded_analytics, apply_loaded_runs, handle_key_event, record_save_outcome,
    runs_well_formed, submit_quick_entry, App, AppAction, InputField, Key, QuickEntryState, Screen,
};
use runlogger::clock::{time_now_local, today_local};
use runlogger::date::Date;
use runlogger::run::Run;
use runlogger::TimeOfDay;

fn d(year: i32, month: u8, day: u8) -> Date {
    Date { year, month, day }
}

fn t(hour: u8, minute: u8, second: u8) -> TimeOfDay {
    TimeOfDay { hour, minute, second }
}

fn run_on(id: i64, date: Date, centimiles: u32) -> Run {
    Run {
        id: Some(id),
        date,
        time_started: t(6, 0, 0),
        distance_centimiles: centimiles,
        note: None,
        created_at_unix: 0,
    }
}

#[test]
fn fresh_form_holds_the_clock_reading() {
    let s = QuickEntryState::new();
    assert_eq!(s.focused_field, InputField::Distance);
    assert!(s.distance.is_empty());
    assert!(s.note.is_empty());
    assert!(s.error_message.is_none());
    assert!(s.success_message.is_none());
    assert!(s.editing_run_id.is_none());
    // The prefilled date and time parse back as themselves.
    let today = today_local();
    assert!(runlogger::validation::parse_date(&s.date, &today).is_ok());
    let now = time_now_local();
    assert!(runlogger::validation::parse_time(&s.time, &now).is_ok());
}

#[test]
fn clock_readings_are_well_formed() {
    let today = today_local();
    assert!(today.is_valid());
    assert!(today.day_index() >= 29);
    let now = time_now_local();
    assert!(now.is_valid());
}

#[test]
fn tab_order_cycles_both_ways() {
    let mut s = QuickEntryState::new();
    assert_eq!(s.focused_field, InputField::Distance);
    s.next_field();
    assert_eq!(s.focused_field, InputField::Note);
    s.next_field();
    assert_eq!(s.focused_field, InputField::Date);
    s.next_field();
    assert_eq!(s.focused_field, InputField::Time);
    s.next_field();
    assert_eq!(s.focused_field, InputField::Distance);
    s.prev_field();
    assert_eq!(s.focused_field, InputField::Time);
}

#[test]
fn typing_edits_the_focused_field() {
    let mut app = App::new();
    assert_eq!(app.screen, Screen::QuickEntry);
    for c in ['3', '.', '5'] {
        let a = handle_key_event(&mut app, Key::Char(c));
        assert_eq!(a, AppAction::Nothing);
    }
    assert_eq!(app.quick_entry_state.distance, "3.5");
    let a = handle_key_event(&mut app, Key::Backspace);
    assert_eq!(a, AppAction::Nothing);
    assert_eq!(app.quick_entry_state.distance, "3.");
    let a = handle_key_event(&mut app, Key::Tab);
    assert_eq!(a, AppAction::Nothing);
    assert_eq!(app.quick_entry_state.focused_field, InputField::Note);
    handle_key_event(&mut app, Key::Char('x'));
    assert_eq!(app.quick_entry_state.note, "x");
    let a = handle_key_event(&mut app, Key::Enter);
    assert_eq!(a, AppAction::PersistEntry);
}

#[test]
fn control_q_quits_from_anywhere() {
    let mut app = App::new();
    let a = handle_key_event(&mut app, Key::Ctrl('q'));
    assert_eq!(a, AppAction::Nothing);
    assert!(app.should_quit);
    let mut app2 = App::new();
    handle_key_event(&mut app2, Key::Ctrl('c'));
    assert!(app2.should_quit);
}

#[test]
fn escape_enters_navigation_mode() {
    let mut app = App::new();
    let a = handle_key_event(&mut app, Key::Esc);
    assert_eq!(a, AppAction::Nothing);
    assert!(app.waiting_for_nav);
    let a = handle_key_event(&mut app, Key::Char('2'));
    assert_eq!(a, AppAction::LoadRunList);
    assert!(!app.waiting_for_nav);
    handle_key_event(&mut app, Key::Esc);
    let a = handle_key_event(&mut app, Key::Char('3'));
    assert_eq!(a, AppAction::LoadAnalytics);
}

#[test]
fn double_escape_clears_the_entry_form() {
    let mut app = App::new();
    handle_key_event(&mut app, Key::Char('7'));
    assert_eq!(app.quick_entry_state.distance, "7");
    handle_key_event(&mut app, Key::Esc);
    handle_key_event(&mut app, Key::Esc);
    assert!(app.quick_entry_state.distance.is_empty());
}

#[test]
fn run_list_navigation_scrolls_a_ten_row_window() {
    let mut app = App::new();
    let runs: Vec<Run> = (0..12).map(|i| run_on(i, d(2025, 6, (i + 1) as u8), 100)).collect();
    assert!(runs_well_formed(&runs));
    apply_loaded_runs(&mut app, runs);
    assert_eq!(app.screen, Screen::RunList);
    assert_eq!(app.run_list_state.selected_index, 0);
    let a = handle_key_event(&mut app, Key::Up);
    assert_eq!(a, AppAction::Nothing);
    assert_eq!(app.run_list_state.selected_index, 0);
    for _ in 0..11 {
        handle_key_event(&mut app, Key::Down);
    }
    assert_eq!(app.run_list_state.selected_index, 11);
    assert_eq!(app.run_list_state.scroll_offset, 2);
    handle_key_event(&mut app, Key::Down);
    assert_eq!(app.run_list_state.selected_index, 11);
    for _ in 0..11 {
        handle_key_event(&mut app, Key::Up);
    }
    assert_eq!(app.run_list_state.selected_index, 0);
    assert_eq!(app.run_list_state.scroll_offset, 0);
}

#[test]
fn edit_key_loads_the_selected_run() {
    let mut app = App::new();
    let mut chosen = run_on(7, d(2025, 6, 2), 350);
    chosen.note = Some("easy pace".to_string());
    apply_loaded_runs(&mut app, vec![run_on(3, d(2025, 6, 1), 100), chosen]);
    handle_key_event(&mut app, Key::Down);
    let a = handle_key_event(&mut app, Key::Char('e'));
    assert_eq!(a, AppAction::Nothing);
    assert_eq!(app.screen, Screen::QuickEntry);
    assert_eq!(app.quick_entry_state.date, "2025-06-02");
    assert_eq!(app.quick_entry_state.time, "06:00:00");
    assert_eq!(app.quick_entry_state.distance, "3.5");
    assert_eq!(app.quick_entry_state.note, "easy pace");
    assert_eq!(app.quick_entry_state.editing_run_id, Some(7));
    assert!(app.quick_entry_state.is_editing());
}

#[test]
fn delete_key_names_the_selected_run() {
    let mut app = App::new();
    apply_loaded_runs(&mut app, vec![run_on(3, d(2025, 6, 1), 100), run_on(9, d(2025, 6, 2), 100)]);
    handle_key_event(&mut app, Key::Down);
    let a = handle_key_event(&mut app, Key::Char('d'));
    assert_eq!(a, AppAction::DeleteRun(9));
}

#[test]
fn q_quits_outside_the_entry_form() {
    let mut app = App::new();
    apply_loaded_runs(&mut app, Vec::new());
    assert_eq!(app.screen, Screen::RunList);
    handle_key_event(&mut app, Key::Char('q'));
    assert!(app.should_quit);
}

#[test]
fn submission_builds_the_run_from_the_fields() {
    let mut s = QuickEntryState::new();
    s.date = "2025-06-15".to_string();
    s.time = "7:30 PM".to_string();
    s.distance = "3.5".to_string();
    s.note = "tempo".to_string();
    let r = submit_quick_entry(&mut s, &d(2025, 6, 20), &t(12, 0, 0));
    let (run, editing) = r.expect("valid fields must submit");
    assert_eq!(run.date, d(2025, 6, 15));
    assert_eq!(run.time_started, t(19, 30, 0));
    assert_eq!(run.distance_centimiles, 350);
    assert_eq!(run.note.as_deref(), Some("tempo"));
    assert!(editing.is_none());
    assert!(s.error_message.is_none());
}

#[test]
fn empty_date_and_time_default_to_now() {
    let mut s = QuickEntryState::new();
    s.date = String::new();
    s.time = String::new();
    s.distance = "2".to_string();
    let today = d(2025, 6, 20);
    let now = t(12, 34, 56);
    let (run, _) = submit_quick_entry(&mut s, &today, &now).unwrap();
    assert_eq!(run.date, today);
    assert_eq!(run.time_started, now);
    assert!(run.note.is_none());
}

#[test]
fn submission_reports_the_first_invalid_field() {
    let today = d(2025, 6, 20);
    let now = t(12, 0, 0);

    let mut s = QuickEntryState::new();
    s.date = "not a date".to_string();
    s.distance = "2".to_string();
    assert!(submit_quick_entry(&mut s, &today, &now).is_none());
    assert_eq!(s.error_message.as_deref(), Some("Invalid date format. Use YYYY-MM-DD"));

    let mut s = QuickEntryState::new();
    s.distance = String::new();
    assert!(submit_quick_entry(&mut s, &today, &now).is_none());
    assert_eq!(s.error_message.as_deref(), Some("Distance is required"));

    let mut s = QuickEntryState::new();
    s.distance = "0".to_string();
    assert!(submit_quick_entry(&mut s, &today, &now).is_none());
    assert_eq!(s.error_message.as_deref(), Some("Distance must be positive"));

    let mut s = QuickEntryState::new();
    s.distance = "250".to_string();
    assert!(submit_quick_entry(&mut s, &today, &now).is_none());
    assert_eq!(s.error_message.as_deref(), Some("Distance seems unrealistic (>200 miles)"));
}

#[test]
fn save_outcomes_update_the_form() {
    let mut s = QuickEntryState::new();
    s.distance = "3.5".to_string();
    s.note = "x".to_string();
    let switch = record_save_outcome(&mut s, false, None);
    assert!(!switch);
    assert_eq!(s.success_message.as_deref(), Some("Run logged successfully!"));
    assert!(s.distance.is_empty());
    assert!(s.note.is_empty());

    let mut s = QuickEntryState::new();
    s.editing_run_id = Some(4);
    let switch = record_save_outcome(&mut s, true, None);
    assert!(switch);
    assert_eq!(s.success_message.as_deref(), Some("Run updated successfully!"));
    assert!(s.editing_run_id.is_none());

    let mut s = QuickEntryState::new();
    let switch = record_save_outcome(&mut s, false, Some("disk full".to_string()));
    assert!(!switch);
    assert_eq!(s.error_message.as_deref(), Some("Database error: disk full"));
}

#[test]
fn loading_analytics_switches_the_screen() {
    let mut app = App::new();
    let runs = vec![run_on(1, d(2025, 6, 15), 100)];
    assert!(runs_well_formed(&runs));
    apply_loaded_analytics(&mut app, &runs, &d(2025, 6, 15));
    assert_eq!(app.screen, Screen::Analytics);
    assert_eq!(app.analytics_state.analytics.current_streak, 1);
    assert_eq!(app.analytics_state.analytics.total_runs, 1);
}

#[test]
fn ill_formed_collections_are_detected() {
    let good = vec![run_on(1, d(2025, 6, 15), 100)];
    assert!(runs_well_formed(&good));
    let bad_distance = vec![run_on(1, d(2025, 6, 15), 0)];
    assert!(!runs_well_formed(&bad_distance));
    let bad_date = vec![run_on(1, d(2025, 2, 30), 100)];
    assert!(!runs_well_formed(&bad_date));
}
