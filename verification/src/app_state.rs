//! The interaction layer's state and its key-event state machine.
//!
//! The front end owns the terminal and the store; everything it decides is
//! here: which screen is shown, how the entry form reacts to a key, and
//! what storage work a key demands. A key press maps the old application
//! state to the new one plus an [`AppAction`] the front end performs; the
//! full transition table is stated by [`key_event_spec`].

use vstd::prelude::*;
use vstd::string::StringExecFns;
use crate::analytics::Analytics;
use crate::clock::{today_local, time_now_local};
use crate::date::{Date, TimeOfDay};
use crate::run::{Run, MAX_DISTANCE_CENTIMILES};
use crate::streak::{calculate_analytics, analytics_matches};
use crate::validation::{ValidationError, parse_date, parse_time, parse_distance, format_date,
    format_time, format_distance, date_display, time_display, distance_display, date_text_denotes,
    time_text_denotes, distance_text_denotes, sat_centi, trimmed_bounds, signed_decimal,
    decimal_split, decimal_value_centi};

verus! {

/// The four screens of the terminal session.
#[derive(Clone, Copy, PartialEq, Eq, Structural, Debug)]
pub enum Screen {
    QuickEntry,
    RunList,
    Analytics,
    Help,
}

/// The four fields of the quick-entry form.
#[derive(Clone, Copy, PartialEq, Eq, Structural, Debug)]
pub enum InputField {
    Date,
    Time,
    Distance,
    Note,
}

/// A keyboard event, as the front end reports it.
#[derive(Clone, Copy, PartialEq, Eq, Structural, Debug)]
pub enum Key {
    Char(char),
    Ctrl(char),
    Tab,
    BackTab,
    Enter,
    Esc,
    Up,
    Down,
    Backspace,
    Other,
}

/// Storage work the front end must perform after a key is handled.
#[derive(Clone, Copy, PartialEq, Eq, Structural, Debug)]
pub enum AppAction {
    /// Nothing to do.
    Nothing,
    /// Fetch all runs, then hand them to [`apply_loaded_runs`].
    LoadRunList,
    /// Fetch all runs, then hand them to [`apply_loaded_analytics`].
    LoadAnalytics,
    /// Run the submission flow: [`submit_quick_entry`], persist, then
    /// [`record_save_outcome`].
    PersistEntry,
    /// Delete the run with this id, refetch, then [`apply_loaded_runs`].
    DeleteRun(i64),
}

/// The field after `f` in the form's tab order.
pub open spec fn next_field_of(f: InputField) -> InputField {
    match f {
        InputField::Date => InputField::Time,
        InputField::Time => InputField::Distance,
        InputField::Distance => InputField::Note,
        InputField::Note => InputField::Date,
    }
}

/// The field before `f` in the form's tab order.
pub open spec fn prev_field_of(f: InputField) -> InputField {
    match f {
        InputField::Date => InputField::Note,
        InputField::Time => InputField::Date,
        InputField::Distance => InputField::Time,
        InputField::Note => InputField::Distance,
    }
}

/// The quick-entry form: one text buffer per field, the focus, the
/// feedback messages, and the id of the run being edited, if any.
pub struct QuickEntryState {
    pub date: String,
    pub time: String,
    pub distance: String,
    pub note: String,
    pub focused_field: InputField,
    pub error_message: Option<String>,
    pub success_message: Option<String>,
    pub editing_run_id: Option<i64>,
}

/// A freshly initialised form: the current date and time prefilled, the
/// other buffers empty, focus on the distance, no messages, not editing.
pub open spec fn fresh_entry_state(s: QuickEntryState) -> bool {
    &&& (exists|d: Date| d.wf() && s.date@ == #[trigger] date_display(d))
    &&& (exists|t: TimeOfDay| t.wf() && s.time@ == #[trigger] time_display(t))
    &&& s.distance@ == Seq::<char>::empty()
    &&& s.note@ == Seq::<char>::empty()
    &&& s.focused_field == InputField::Distance
    &&& s.error_message is None
    &&& s.success_message is None
    &&& s.editing_run_id is None
}

/// The form filled from a stored run, ready for editing.
pub open spec fn loaded_entry_state(s: QuickEntryState, run: Run) -> bool {
    &&& s.date@ == date_display(run.date)
    &&& s.time@ == time_display(run.time_started)
    &&& s.distance@ == distance_display(run.distance_centimiles as int)
    &&& s.note@ == match run.note {
        Some(n) => n@,
        None => Seq::<char>::empty(),
    }
    &&& s.focused_field == InputField::Distance
    &&& s.error_message is None
    &&& s.success_message is None
    &&& s.editing_run_id == run.id
}

impl QuickEntryState {
    /// The buffer of field `f`.
    pub open spec fn field_string(self, f: InputField) -> String {
        match f {
            InputField::Date => self.date,
            InputField::Time => self.time,
            InputField::Distance => self.distance,
            InputField::Note => self.note,
        }
    }

    /// This state with the buffer of field `f` replaced.
    pub open spec fn with_field_string(self, f: InputField, v: String) -> QuickEntryState {
        match f {
            InputField::Date => QuickEntryState { date: v, ..self },
            InputField::Time => QuickEntryState { time: v, ..self },
            InputField::Distance => QuickEntryState { distance: v, ..self },
            InputField::Note => QuickEntryState { note: v, ..self },
        }
    }

    /// A fresh form prefilled with the current local date and time.
    pub fn new() -> (s: Self)
        ensures
            fresh_entry_state(s),
    {
        let d = today_local();
        let t = time_now_local();
        QuickEntryState {
            date: format_date(&d),
            time: format_time(&t),
            distance: String::new(),
            note: String::new(),
            focused_field: InputField::Distance,
            error_message: None,
            success_message: None,
            editing_run_id: None,
        }
    }

    /// Resets the form to a fresh state.
    pub fn clear(&mut self)
        ensures
            fresh_entry_state(*final(self)),
    {
        let d = today_local();
        let t = time_now_local();
        self.date = format_date(&d);
        self.time = format_time(&t);
        self.distance = String::new();
        self.note = String::new();
        self.focused_field = InputField::Distance;
        self.error_message = None;
        self.success_message = None;
        self.editing_run_id = None;
    }

    /// Fills the form from a stored run for editing.
    pub fn load_run(&mut self, run: &Run)
        requires
            run.wf(),
        ensures
            loaded_entry_state(*final(self), *run),
    {
        self.date = format_date(&run.date);
        self.time = format_time(&run.time_started);
        self.distance = format_distance(run.distance_centimiles);
        self.note = match &run.note {
            Some(n) => n.clone(),
            None => String::new(),
        };
        self.focused_field = InputField::Distance;
        self.error_message = None;
        self.success_message = None;
        self.editing_run_id = run.id;
    }

    /// Whether the form is editing a stored run.
    pub fn is_editing(&self) -> (r: bool)
        ensures
            r == (self.editing_run_id is Some),
    {
        match self.editing_run_id {
            Some(_) => true,
            None => false,
        }
    }

    /// Moves the focus to the next field.
    pub fn next_field(&mut self)
        ensures
            *final(self) == (QuickEntryState {
                focused_field: next_field_of(old(self).focused_field),
                ..*old(self)
            }),
    {
        self.focused_field = match self.focused_field {
            InputField::Date => InputField::Time,
            InputField::Time => InputField::Distance,
            InputField::Distance => InputField::Note,
            InputField::Note => InputField::Date,
        };
    }

    /// Moves the focus to the previous field.
    pub fn prev_field(&mut self)
        ensures
            *final(self) == (QuickEntryState {
                focused_field: prev_field_of(old(self).focused_field),
                ..*old(self)
            }),
    {
        self.focused_field = match self.focused_field {
            InputField::Date => InputField::Note,
            InputField::Time => InputField::Date,
            InputField::Distance => InputField::Time,
            InputField::Note => InputField::Distance,
        };
    }

    /// The buffer of the focused field, for editing in place.
    pub fn current_input_mut(&mut self) -> (r: &mut String)
        ensures
            *r == old(self).field_string(old(self).focused_field),
            *final(self) == old(self).with_field_string(old(self).focused_field, *final(r)),
    {
        match self.focused_field {
            InputField::Date => &mut self.date,
            InputField::Time => &mut self.time,
            InputField::Distance => &mut self.distance,
            InputField::Note => &mut self.note,
        }
    }
}

/// The run-list screen: the fetched runs, the selection, and the scroll
/// position of its ten-row window.
pub struct RunListState {
    pub runs: Vec<Run>,
    pub selected_index: usize,
    pub scroll_offset: usize,
}

impl RunListState {
    /// An empty run list.
    pub fn new() -> (s: Self)
        ensures
            s.runs@ == Seq::<Run>::empty(),
            s.selected_index == 0,
            s.scroll_offset == 0,
    {
        RunListState { runs: Vec::new(), selected_index: 0, scroll_offset: 0 }
    }
}

/// The analytics screen: the last computed snapshot.
pub struct AnalyticsState {
    pub analytics: Analytics,
}

impl AnalyticsState {
    /// An analytics screen showing the empty snapshot.
    pub fn new() -> (s: Self)
        ensures
            s.analytics.is_empty_snapshot(),
    {
        AnalyticsState { analytics: Analytics::empty() }
    }
}

/// The whole application state.
pub struct App {
    pub screen: Screen,
    pub should_quit: bool,
    pub quick_entry_state: QuickEntryState,
    pub run_list_state: RunListState,
    pub analytics_state: AnalyticsState,
    pub waiting_for_nav: bool,
}

impl App {
    /// Every run held by the run list is domain-valid.
    pub open spec fn inv(self) -> bool {
        forall|i: int|
            0 <= i < self.run_list_state.runs@.len() ==> (
            #[trigger] self.run_list_state.runs@[i]).wf()
    }

    /// A fresh session: quick entry shown, nothing loaded yet.
    pub fn new() -> (app: App)
        ensures
            app.screen == Screen::QuickEntry,
            !app.should_quit,
            fresh_entry_state(app.quick_entry_state),
            app.run_list_state.runs@ == Seq::<Run>::empty(),
            app.analytics_state.analytics.is_empty_snapshot(),
            !app.waiting_for_nav,
            app.inv(),
    {
        App {
            screen: Screen::QuickEntry,
            should_quit: false,
            quick_entry_state: QuickEntryState::new(),
            run_list_state: RunListState::new(),
            analytics_state: AnalyticsState::new(),
            waiting_for_nav: false,
        }
    }

    /// Shows the given screen.
    pub fn switch_to_screen(&mut self, screen: Screen)
        ensures
            *final(self) == (App { screen, ..*old(self) }),
    {
        self.screen = screen;
    }

    /// Asks the session to end.
    pub fn quit(&mut self)
        ensures
            *final(self) == (App { should_quit: true, ..*old(self) }),
    {
        self.should_quit = true;
    }
}

/// Control-Q and Control-C end the session from anywhere.
pub open spec fn is_quit_key(key: Key) -> bool {
    key == Key::Ctrl('q') || key == Key::Ctrl('c')
}

/// The transition of the run-list screen for one key.
pub open spec fn run_list_key_spec(o: App, key: Key, n: App, a: AppAction) -> bool {
    let s = o.run_list_state;
    match key {
        Key::Up => if s.selected_index > 0 {
            let sel = (s.selected_index - 1) as usize;
            let scr: usize = if sel < s.scroll_offset {
                sel
            } else {
                s.scroll_offset
            };
            &&& n == (App {
                run_list_state: RunListState { runs: s.runs, selected_index: sel, scroll_offset: scr },
                ..o
            })
            &&& a == AppAction::Nothing
        } else {
            n == o && a == AppAction::Nothing
        },
        Key::Down => if s.selected_index + 1 < s.runs@.len() {
            let sel = (s.selected_index + 1) as usize;
            let scr: usize = if sel >= s.scroll_offset + 10 {
                (sel - 9) as usize
            } else {
                s.scroll_offset
            };
            &&& n == (App {
                run_list_state: RunListState { runs: s.runs, selected_index: sel, scroll_offset: scr },
                ..o
            })
            &&& a == AppAction::Nothing
        } else {
            n == o && a == AppAction::Nothing
        },
        Key::Char(c) => if c == 'e' {
            if s.runs@.len() > 0 && s.selected_index < s.runs@.len() {
                &&& loaded_entry_state(n.quick_entry_state, s.runs@[s.selected_index as int])
                &&& n == (App {
                    quick_entry_state: n.quick_entry_state,
                    screen: Screen::QuickEntry,
                    ..o
                })
                &&& a == AppAction::Nothing
            } else {
                n == o && a == AppAction::Nothing
            }
        } else if c == 'd' {
            n == o && a == (if s.runs@.len() > 0 && s.selected_index < s.runs@.len() {
                match s.runs@[s.selected_index as int].id {
                    Some(id) => AppAction::DeleteRun(id),
                    None => AppAction::Nothing,
                }
            } else {
                AppAction::Nothing
            })
        } else {
            n == o && a == AppAction::Nothing
        },
        _ => n == o && a == AppAction::Nothing,
    }
}

/// The transition of the quick-entry screen for one key.
pub open spec fn quick_entry_key_spec(o: App, key: Key, n: App, a: AppAction) -> bool {
    let qe = o.quick_entry_state;
    match key {
        Key::Tab => {
            &&& n == (App {
                quick_entry_state: QuickEntryState { focused_field: next_field_of(qe.focused_field), ..qe },
                ..o
            })
            &&& a == AppAction::Nothing
        },
        Key::BackTab => {
            &&& n == (App {
                quick_entry_state: QuickEntryState { focused_field: prev_field_of(qe.focused_field), ..qe },
                ..o
            })
            &&& a == AppAction::Nothing
        },
        Key::Enter => n == o && a == AppAction::PersistEntry,
        Key::Char(c) => {
            let f = qe.focused_field;
            &&& n.quick_entry_state == qe.with_field_string(f, n.quick_entry_state.field_string(f))
            &&& n.quick_entry_state.field_string(f)@ == qe.field_string(f)@.push(c)
            &&& n == (App { quick_entry_state: n.quick_entry_state, ..o })
            &&& a == AppAction::Nothing
        },
        Key::Backspace => {
            let f = qe.focused_field;
            &&& n.quick_entry_state == qe.with_field_string(f, n.quick_entry_state.field_string(f))
            &&& n.quick_entry_state.field_string(f)@ == (if qe.field_string(f)@.len() == 0 {
                qe.field_string(f)@
            } else {
                qe.field_string(f)@.drop_last()
            })
            &&& n == (App { quick_entry_state: n.quick_entry_state, ..o })
            &&& a == AppAction::Nothing
        },
        _ => n == o && a == AppAction::Nothing,
    }
}

/// The full transition table of [`handle_key_event`].
pub open spec fn key_event_spec(o: App, key: Key, n: App, a: AppAction) -> bool {
    if is_quit_key(key) {
        n == (App { should_quit: true, ..o }) && a == AppAction::Nothing
    } else if o.waiting_for_nav {
        let o1 = App { waiting_for_nav: false, ..o };
        match key {
            Key::Char(c) => if c == '1' {
                n == (App { screen: Screen::QuickEntry, ..o1 }) && a == AppAction::Nothing
            } else if c == '2' {
                n == o1 && a == AppAction::LoadRunList
            } else if c == '3' {
                n == o1 && a == AppAction::LoadAnalytics
            } else {
                n == o1 && a == AppAction::Nothing
            },
            Key::Esc => if o.screen == Screen::QuickEntry {
                &&& fresh_entry_state(n.quick_entry_state)
                &&& n == (App { quick_entry_state: n.quick_entry_state, ..o1 })
                &&& a == AppAction::Nothing
            } else {
                n == o1 && a == AppAction::Nothing
            },
            _ => n == o1 && a == AppAction::Nothing,
        }
    } else if key == Key::Esc {
        n == (App { waiting_for_nav: true, ..o }) && a == AppAction::Nothing
    } else if key == Key::Char('q') && o.screen != Screen::QuickEntry {
        n == (App { should_quit: true, ..o }) && a == AppAction::Nothing
    } else if o.screen == Screen::QuickEntry {
        quick_entry_key_spec(o, key, n, a)
    } else {
        match key {
            Key::Char(c) => if c == '1' {
                n == (App { screen: Screen::QuickEntry, ..o }) && a == AppAction::Nothing
            } else if c == '2' {
                n == o && a == AppAction::LoadRunList
            } else if c == '3' {
                n == o && a == AppAction::LoadAnalytics
            } else if c == 'h' || c == '?' {
                n == (App { screen: Screen::Help, ..o }) && a == AppAction::Nothing
            } else if o.screen == Screen::RunList {
                run_list_key_spec(o, key, n, a)
            } else {
                n == o && a == AppAction::Nothing
            },
            _ => if o.screen == Screen::RunList {
                run_list_key_spec(o, key, n, a)
            } else {
                n == o && a == AppAction::Nothing
            },
        }
    }
}

/// Dispatches one key press against the whole application state and says
/// what storage work the front end must perform next.
pub fn handle_key_event(app: &mut App, key: Key) -> (a: AppAction)
    requires
        old(app).inv(),
    ensures
        final(app).inv(),
        key_event_spec(*old(app), key, *final(app), a),
{
    match key {
        Key::Ctrl(c) => {
            if c == 'q' || c == 'c' {
                app.should_quit = true;
                return AppAction::Nothing;
            }
        },
        _ => {},
    }
    if app.waiting_for_nav {
        app.waiting_for_nav = false;
        match key {
            Key::Char(c) => {
                if c == '1' {
                    app.screen = Screen::QuickEntry;
                    return AppAction::Nothing;
                } else if c == '2' {
                    return AppAction::LoadRunList;
                } else if c == '3' {
                    return AppAction::LoadAnalytics;
                } else {
                    return AppAction::Nothing;
                }
            },
            Key::Esc => {
                if app.screen == Screen::QuickEntry {
                    app.quick_entry_state.clear();
                }
                return AppAction::Nothing;
            },
            _ => {
                return AppAction::Nothing;
            },
        }
    }
    match key {
        Key::Esc => {
            app.waiting_for_nav = true;
            return AppAction::Nothing;
        },
        _ => {},
    }
    match key {
        Key::Char(c) => {
            if c == 'q' && app.screen != Screen::QuickEntry {
                app.should_quit = true;
                return AppAction::Nothing;
            }
        },
        _ => {},
    }
    if app.screen == Screen::QuickEntry {
        match key {
            Key::Tab => {
                app.quick_entry_state.next_field();
                AppAction::Nothing
            },
            Key::BackTab => {
                app.quick_entry_state.prev_field();
                AppAction::Nothing
            },
            Key::Enter => AppAction::PersistEntry,
            Key::Char(c) => {
                string_push(app.quick_entry_state.current_input_mut(), c);
                AppAction::Nothing
            },
            Key::Backspace => {
                let _removed = string_pop(app.quick_entry_state.current_input_mut());
                AppAction::Nothing
            },
            _ => AppAction::Nothing,
        }
    } else {
        match key {
            Key::Char(c) => {
                if c == '1' {
                    app.screen = Screen::QuickEntry;
                    AppAction::Nothing
                } else if c == '2' {
                    AppAction::LoadRunList
                } else if c == '3' {
                    AppAction::LoadAnalytics
                } else if c == 'h' || c == '?' {
                    app.screen = Screen::Help;
                    AppAction::Nothing
                } else if app.screen == Screen::RunList {
                    handle_run_list_key(app, key)
                } else {
                    AppAction::Nothing
                }
            },
            _ => {
                if app.screen == Screen::RunList {
                    handle_run_list_key(app, key)
                } else {
                    AppAction::Nothing
                }
            },
        }
    }
}

/// Handles one key on the run-list screen: selection movement, editing and
/// deletion.
fn handle_run_list_key(app: &mut App, key: Key) -> (a: AppAction)
    requires
        old(app).inv(),
        old(app).screen == Screen::RunList,
        !is_quit_key(key),
        key != Key::Esc,
        !(key == Key::Char('q') || key == Key::Char('1') || key == Key::Char('2') || key
            == Key::Char('3') || key == Key::Char('h') || key == Key::Char('?')),
    ensures
        final(app).inv(),
        run_list_key_spec(*old(app), key, *final(app), a),
{
    match key {
        Key::Up => {
            if app.run_list_state.selected_index > 0 {
                app.run_list_state.selected_index = app.run_list_state.selected_index - 1;
                if app.run_list_state.selected_index < app.run_list_state.scroll_offset {
                    app.run_list_state.scroll_offset = app.run_list_state.selected_index;
                }
            }
            proof {
                if old(app).run_list_state.selected_index > 0 {
                    assert(*app =~= (App {
                        run_list_state: app.run_list_state,
                        ..*old(app)
                    }));
                }
            }
            AppAction::Nothing
        },
        Key::Down => {
            if app.run_list_state.selected_index < usize::MAX && app.run_list_state.selected_index
                + 1 < app.run_list_state.runs.len() {
                app.run_list_state.selected_index = app.run_list_state.selected_index + 1;
                if app.run_list_state.selected_index >= app.run_list_state.scroll_offset
                    && app.run_list_state.selected_index - app.run_list_state.scroll_offset >= 10 {
                    app.run_list_state.scroll_offset = app.run_list_state.selected_index - 9;
                }
            }
            proof {
                vstd::std_specs::vec::axiom_spec_len(&old(app).run_list_state.runs);
                if old(app).run_list_state.selected_index + 1 < old(
                    app,
                ).run_list_state.runs@.len() {
                    let sel = (old(app).run_list_state.selected_index + 1) as usize;
                    let scr: usize = if sel >= old(app).run_list_state.scroll_offset + 10 {
                        (sel - 9) as usize
                    } else {
                        old(app).run_list_state.scroll_offset
                    };
                    assert(app.run_list_state =~= (RunListState {
                        runs: old(app).run_list_state.runs,
                        selected_index: sel,
                        scroll_offset: scr,
                    }));
                    assert(*app =~= (App { run_list_state: app.run_list_state, ..*old(app) }));
                }
            }
            AppAction::Nothing
        },
        Key::Char(c) => {
            if c == 'e' {
                if app.run_list_state.runs.len() > 0 && app.run_list_state.selected_index
                    < app.run_list_state.runs.len() {
                    let idx = app.run_list_state.selected_index;
                    app.quick_entry_state.load_run(&app.run_list_state.runs[idx]);
                    app.screen = Screen::QuickEntry;
                }
                AppAction::Nothing
            } else if c == 'd' {
                if app.run_list_state.runs.len() > 0 && app.run_list_state.selected_index
                    < app.run_list_state.runs.len() {
                    match app.run_list_state.runs[app.run_list_state.selected_index].id {
                        Some(id) => AppAction::DeleteRun(id),
                        None => AppAction::Nothing,
                    }
                } else {
                    AppAction::Nothing
                }
            } else {
                AppAction::Nothing
            }
        },
        _ => AppAction::Nothing,
    }
}

/// The date field reads as a real date, or is empty (defaulting to today).
pub open spec fn date_input_ok(s: Seq<char>) -> bool {
    s.len() == 0 || exists|d: Date| d.wf() && #[trigger] date_text_denotes(s, d)
}

/// The time field reads as a real time, or is empty (defaulting to now).
pub open spec fn time_input_ok(s: Seq<char>) -> bool {
    s.len() == 0 || exists|t: TimeOfDay| t.wf() && #[trigger] time_text_denotes(s, t)
}

/// The distance field is nonempty and reads as a decimal number.
pub open spec fn distance_input_ok(s: Seq<char>) -> bool {
    s.len() > 0 && exists|w: int| #[trigger] distance_text_denotes(s, w)
}

/// The value, in hundredths of a mile, the distance field denotes (when it
/// denotes one).
pub open spec fn distance_choice(s: Seq<char>) -> int {
    choose|w: int| distance_text_denotes(s, w)
}

/// A distance text denotes at most one value.
proof fn lemma_distance_denotation_unique(s: Seq<char>, w1: int, w2: int)
    requires
        distance_text_denotes(s, w1),
        distance_text_denotes(s, w2),
    ensures
        w1 == w2,
{
    let (a1, b1) = choose|a: int, b: int|
        #[trigger] trimmed_bounds(s, a, b) && signed_decimal(s.subrange(a, b), w1);
    let (a2, b2) = choose|a: int, b: int|
        #[trigger] trimmed_bounds(s, a, b) && signed_decimal(s.subrange(a, b), w2);
    if a1 == b1 {
        lemma_signed_decimal_nonempty(s.subrange(a1, b1), w1);
    }
    crate::validation::lemma_trim_unique(s, a1, b1, a2, b2);
    let core = s.subrange(a1, b1);
    assert(s.subrange(a2, b2) =~= core);
    lemma_signed_decimal_value_unique(core, w1, w2);
}

/// An empty core denotes nothing.
proof fn lemma_signed_decimal_nonempty(core: Seq<char>, w: int)
    requires
        signed_decimal(core, w),
    ensures
        core.len() > 0,
{
    if core.len() == 0 {
        let p = choose|p: int|
            #![trigger decimal_split(core.skip(1), p)]
            #![trigger decimal_split(core, p)]
            {
                ||| (core.len() >= 1 && core[0] == '-' && decimal_split(core.skip(1), p) && w
                    == -decimal_value_centi(core.skip(1), p))
                ||| (core.len() >= 1 && core[0] == '+' && decimal_split(core.skip(1), p) && w
                    == decimal_value_centi(core.skip(1), p))
                ||| (decimal_split(core, p) && w == decimal_value_centi(core, p))
            };
        assert(false);
    }
}

/// One core denotes at most one value.
proof fn lemma_signed_decimal_value_unique(core: Seq<char>, w1: int, w2: int)
    requires
        signed_decimal(core, w1),
        signed_decimal(core, w2),
    ensures
        w1 == w2,
{
    lemma_signed_decimal_nonempty(core, w1);
    let p1 = choose|p: int|
        #![trigger decimal_split(core.skip(1), p)]
        #![trigger decimal_split(core, p)]
        {
            ||| (core.len() >= 1 && core[0] == '-' && decimal_split(core.skip(1), p) && w1
                == -decimal_value_centi(core.skip(1), p))
            ||| (core.len() >= 1 && core[0] == '+' && decimal_split(core.skip(1), p) && w1
                == decimal_value_centi(core.skip(1), p))
            ||| (decimal_split(core, p) && w1 == decimal_value_centi(core, p))
        };
    let p2 = choose|p: int|
        #![trigger decimal_split(core.skip(1), p)]
        #![trigger decimal_split(core, p)]
        {
            ||| (core.len() >= 1 && core[0] == '-' && decimal_split(core.skip(1), p) && w2
                == -decimal_value_centi(core.skip(1), p))
            ||| (core.len() >= 1 && core[0] == '+' && decimal_split(core.skip(1), p) && w2
                == decimal_value_centi(core.skip(1), p))
            ||| (decimal_split(core, p) && w2 == decimal_value_centi(core, p))
        };
    if core[0] == '-' || core[0] == '+' {
        crate::validation::lemma_sign_body_split(core, p1);
        crate::validation::lemma_sign_body_split(core, p2);
        crate::validation::lemma_decimal_split_point_unique(core.skip(1), p1, p2);
    } else {
        crate::validation::lemma_decimal_split_point_unique(core, p1, p2);
    }
}

/// Validates the entry form into a run to persist, with the id of the run
/// being edited, if any.
///
/// Empty date and time fields default to the given `today` and `now`; both
/// feedback messages are cleared first. On the first unreadable field the
/// error message is recorded instead and nothing is returned. Success is
/// owed exactly when every field reads and the distance falls in the
/// accepted range.
pub fn submit_quick_entry(state: &mut QuickEntryState, today: &Date, now: &TimeOfDay) -> (r: Option<
    (Run, Option<i64>),
>)
    requires
        today.wf(),
        now.wf(),
    ensures
        r is Some <==> {
            &&& date_input_ok(old(state).date@)
            &&& time_input_ok(old(state).time@)
            &&& distance_input_ok(old(state).distance@)
            &&& 0 < sat_centi(distance_choice(old(state).distance@)) <= MAX_DISTANCE_CENTIMILES
        },
        r is Some ==> {
            let pair = r->0;
            let run = pair.0;
            &&& run.wf()
            &&& pair.1 == old(state).editing_run_id
            &&& run.id is None
            &&& (old(state).date@.len() == 0 ==> run.date == *today)
            &&& (old(state).date@.len() > 0 ==> date_text_denotes(old(state).date@, run.date))
            &&& (old(state).time@.len() == 0 ==> run.time_started == *now)
            &&& (old(state).time@.len() > 0 ==> time_text_denotes(
                old(state).time@,
                run.time_started,
            ))
            &&& run.distance_centimiles as int == sat_centi(distance_choice(old(state).distance@))
            &&& run.note == (if old(state).note@.len() == 0 {
                Option::<String>::None
            } else {
                Some(old(state).note)
            })
            &&& *final(state) == (QuickEntryState {
                error_message: None,
                success_message: None,
                ..*old(state)
            })
        },
        r is None ==> {
            let dv = old(state).date@;
            let tv = old(state).time@;
            let sv = old(state).distance@;
            let msg = final(state).error_message->0@;
            &&& final(state).error_message is Some
            &&& *final(state) == (QuickEntryState {
                error_message: final(state).error_message,
                success_message: None,
                ..*old(state)
            })
            &&& (!date_input_ok(dv) ==> msg == "Invalid date format. Use YYYY-MM-DD"@)
            &&& (date_input_ok(dv) && !time_input_ok(tv) ==> msg
                == "Invalid time format. Use HH:MM or HH:MM:SS"@)
            &&& (date_input_ok(dv) && time_input_ok(tv) && sv.len() == 0 ==> msg
                == "Distance is required"@)
            &&& (date_input_ok(dv) && time_input_ok(tv) && sv.len() > 0 && !distance_input_ok(sv)
                ==> msg == "Invalid distance. Enter a number (e.g., 3.5)"@)
            &&& (date_input_ok(dv) && time_input_ok(tv) && distance_input_ok(sv) && sat_centi(
                distance_choice(sv),
            ) <= 0 ==> msg == "Distance must be positive"@)
            &&& (date_input_ok(dv) && time_input_ok(tv) && distance_input_ok(sv) && sat_centi(
                distance_choice(sv),
            ) > MAX_DISTANCE_CENTIMILES ==> msg == "Distance seems unrealistic (>200 miles)"@)
        },
{
    state.error_message = None;
    state.success_message = None;
    let date = match parse_date(state.date.as_str(), today) {
        Ok(d) => d,
        Err(e) => {
            state.error_message = Some(e.message());
            proof {
                assert(*state =~= (QuickEntryState {
                    error_message: state.error_message,
                    success_message: None,
                    ..*old(state)
                }));
            }
            return None;
        },
    };
    let time = match parse_time(state.time.as_str(), now) {
        Ok(t) => t,
        Err(e) => {
            state.error_message = Some(e.message());
            proof {
                assert(*state =~= (QuickEntryState {
                    error_message: state.error_message,
                    success_message: None,
                    ..*old(state)
                }));
            }
            return None;
        },
    };
    let centi = match parse_distance(state.distance.as_str()) {
        Ok(v) => v,
        Err(e) => {
            state.error_message = Some(e.message());
            proof {
                assert(*state =~= (QuickEntryState {
                    error_message: state.error_message,
                    success_message: None,
                    ..*old(state)
                }));
            }
            return None;
        },
    };
    proof {
        let w = choose|w: int|
            #[trigger] distance_text_denotes(old(state).distance@, w) && centi as int == sat_centi(
                w,
            );
        lemma_distance_denotation_unique(
            old(state).distance@,
            w,
            distance_choice(old(state).distance@),
        );
    }
    let note = if state.note.unicode_len() == 0 {
        None
    } else {
        Some(state.note.clone())
    };
    match Run::new(date, time, centi, note) {
        Ok(run) => {
            let eid = state.editing_run_id;
            proof {
                assert(*state =~= (QuickEntryState {
                    error_message: None,
                    success_message: None,
                    ..*old(state)
                }));
            }
            Some((run, eid))
        },
        Err(e) => {
            state.error_message = Some(e.message());
            proof {
                assert(*state =~= (QuickEntryState {
                    error_message: state.error_message,
                    success_message: None,
                    ..*old(state)
                }));
            }
            None
        },
    }
}

/// Applies the storage outcome of a persisted entry to the form and says
/// whether the front end should reload and show the run list.
///
/// A storage error is reported and changes nothing else. After a saved
/// edit, the form leaves editing mode and the list is shown; after a saved
/// new entry, the distance and note clear for the next one.
pub fn record_save_outcome(state: &mut QuickEntryState, was_edit: bool, db_error: Option<
    String,
>) -> (switch: bool)
    ensures
        db_error is Some ==> {
            &&& final(state).error_message is Some
            &&& final(state).error_message->0@ == "Database error: "@ + db_error->0@
            &&& *final(state) == (QuickEntryState {
                error_message: final(state).error_message,
                ..*old(state)
            })
            &&& !switch
        },
        db_error is None && was_edit ==> {
            &&& final(state).success_message is Some
            &&& final(state).success_message->0@ == "Run updated successfully!"@
            &&& *final(state) == (QuickEntryState {
                editing_run_id: None,
                success_message: final(state).success_message,
                ..*old(state)
            })
            &&& switch
        },
        db_error is None && !was_edit ==> {
            &&& final(state).success_message is Some
            &&& final(state).success_message->0@ == "Run logged successfully!"@
            &&& final(state).distance@ == Seq::<char>::empty()
            &&& final(state).note@ == Seq::<char>::empty()
            &&& *final(state) == (QuickEntryState {
                distance: final(state).distance,
                note: final(state).note,
                focused_field: InputField::Distance,
                success_message: final(state).success_message,
                ..*old(state)
            })
            &&& !switch
        },
{
    match db_error {
        Some(e) => {
            let mut msg = "Database error: ".to_owned();
            msg.append(e.as_str());
            state.error_message = Some(msg);
            proof {
                assert(*state =~= (QuickEntryState {
                    error_message: state.error_message,
                    ..*old(state)
                }));
            }
            false
        },
        None => {
            if was_edit {
                state.editing_run_id = None;
                state.success_message = Some("Run updated successfully!".to_owned());
                proof {
                    assert(*state =~= (QuickEntryState {
                        editing_run_id: None,
                        success_message: state.success_message,
                        ..*old(state)
                    }));
                }
                true
            } else {
                state.distance = String::new();
                state.note = String::new();
                state.focused_field = InputField::Distance;
                state.success_message = Some("Run logged successfully!".to_owned());
                proof {
                    assert(*state =~= (QuickEntryState {
                        distance: state.distance,
                        note: state.note,
                        focused_field: InputField::Distance,
                        success_message: state.success_message,
                        ..*old(state)
                    }));
                }
                false
            }
        },
    }
}

/// Installs freshly fetched runs and shows the run list.
pub fn apply_loaded_runs(app: &mut App, runs: Vec<Run>)
    requires
        forall|i: int| 0 <= i < runs@.len() ==> (#[trigger] runs@[i]).wf(),
    ensures
        final(app).inv(),
        *final(app) == (App {
            run_list_state: RunListState { runs, selected_index: 0, scroll_offset: 0 },
            screen: Screen::RunList,
            ..*old(app)
        }),
{
    app.run_list_state.runs = runs;
    app.run_list_state.selected_index = 0;
    app.run_list_state.scroll_offset = 0;
    app.screen = Screen::RunList;
    proof {
        assert(*app =~= (App {
            run_list_state: app.run_list_state,
            screen: Screen::RunList,
            ..*old(app)
        }));
    }
}

/// Recomputes the analytics from freshly fetched runs, anchored on the
/// given today, and shows the analytics screen.
pub fn apply_loaded_analytics(app: &mut App, runs: &Vec<Run>, today: &Date)
    requires
        old(app).inv(),
        forall|i: int| 0 <= i < runs@.len() ==> (#[trigger] runs@[i]).wf(),
        runs@.len() * MAX_DISTANCE_CENTIMILES <= u64::MAX,
        today.wf(),
        today.spec_index_of() >= 29,
    ensures
        final(app).inv(),
        runs@.len() == 0 ==> final(app).analytics_state.analytics.is_empty_snapshot(),
        runs@.len() > 0 ==> analytics_matches(runs@, *today, final(app).analytics_state.analytics),
        *final(app) == (App {
            analytics_state: final(app).analytics_state,
            screen: Screen::Analytics,
            ..*old(app)
        }),
{
    let analytics = calculate_analytics(runs, today);
    app.analytics_state = AnalyticsState { analytics };
    app.screen = Screen::Analytics;
    proof {
        assert(*app =~= (App {
            analytics_state: app.analytics_state,
            screen: Screen::Analytics,
            ..*old(app)
        }));
    }
}

/// Whether a fetched collection is fit for the engine: every record
/// domain-valid and the collection small enough for exact sums.
pub fn runs_well_formed(runs: &Vec<Run>) -> (r: bool)
    ensures
        r == ((forall|i: int| 0 <= i < runs@.len() ==> (#[trigger] runs@[i]).wf()) && runs@.len()
            * MAX_DISTANCE_CENTIMILES <= u64::MAX),
{
    proof {
        vstd::arithmetic::div_mod::lemma_fundamental_div_mod(
            u64::MAX as int,
            MAX_DISTANCE_CENTIMILES as int,
        );
    }
    if runs.len() as u64 > u64::MAX / (MAX_DISTANCE_CENTIMILES as u64) {
        proof {
            assert(runs@.len() * MAX_DISTANCE_CENTIMILES > u64::MAX) by (nonlinear_arith)
                requires
                    runs@.len() > u64::MAX as int / MAX_DISTANCE_CENTIMILES as int,
                    u64::MAX as int == MAX_DISTANCE_CENTIMILES as int * (u64::MAX as int
                        / MAX_DISTANCE_CENTIMILES as int) + u64::MAX as int % (
                    MAX_DISTANCE_CENTIMILES as int),
                    0 <= u64::MAX as int % (MAX_DISTANCE_CENTIMILES as int) < (
                    MAX_DISTANCE_CENTIMILES as int),
            ;
        }
        return false;
    }
    proof {
        assert(runs@.len() * MAX_DISTANCE_CENTIMILES <= u64::MAX) by (nonlinear_arith)
            requires
                runs@.len() <= u64::MAX as int / MAX_DISTANCE_CENTIMILES as int,
                u64::MAX as int == MAX_DISTANCE_CENTIMILES as int * (u64::MAX as int
                    / MAX_DISTANCE_CENTIMILES as int) + u64::MAX as int % (
                MAX_DISTANCE_CENTIMILES as int),
                0 <= u64::MAX as int % (MAX_DISTANCE_CENTIMILES as int),
        ;
    }
    let n = runs.len();
    let mut i: usize = 0;
    while i < n
        invariant
            n == runs@.len(),
            i <= n,
            forall|k: int| 0 <= k < i ==> (#[trigger] runs@[k]).wf(),
        decreases n - i,
    {
        let ok = runs[i].date.is_valid() && runs[i].time_started.is_valid()
            && runs[i].distance_centimiles > 0 && runs[i].distance_centimiles
            <= MAX_DISTANCE_CENTIMILES;
        if !ok {
            return false;
        }
        i = i + 1;
    }
    true
}

/// Relies on `String::push`: appends exactly the one character.
#[verifier::external_body]
fn string_push(s: &mut String, c: char)
    ensures
        final(s)@ == old(s)@.push(c),
{
    s.push(c);
}

/// Relies on `String::pop`: removes and returns the last character.
#[verifier::external_body]
fn string_pop(s: &mut String) -> (r: Option<char>)
    ensures
        old(s)@.len() == 0 ==> r is None && final(s)@ == old(s)@,
        old(s)@.len() > 0 ==> r == Some(old(s)@.last()) && final(s)@ == old(s)@.drop_last(),
{
    s.pop()
}

} // verus!
