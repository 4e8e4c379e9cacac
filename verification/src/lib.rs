//! A verified core for a personal run-logging application.
//!
//! The heart of the crate is the analytics engine: a pure function from a
//! collection of run records and a given "today" to streaks, period
//! aggregates, a gap-filled trend series and a year-goal projection.
//! Around it stand the calendar model the engine computes with, the run
//! record with its validity invariant, the input parsers and formatters,
//! and the interaction state machine of the terminal front end.
//!
//! Distances are held in hundredths of a mile so that all analytics are
//! exact integer arithmetic.

pub mod analytics;
pub mod app_state;
pub mod clock;
pub mod date;
pub mod run;
pub mod streak;
pub mod validation;

pub use date::Date;
pub use date::TimeOfDay;
pub use run::Run;
