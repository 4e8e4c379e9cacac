//! The run record and its validity invariant.

use vstd::prelude::*;
use crate::date::{Date, TimeOfDay};
use crate::validation::ValidationError;
use crate::clock::now_unix;

verus! {

/// Largest accepted distance, in hundredths of a mile (200 miles).
pub const MAX_DISTANCE_CENTIMILES: u32 = 20000;

/// A single logged run.
///
/// The distance is held in hundredths of a mile, so every aggregate the
/// analytics engine derives is exact integer arithmetic. `id` is assigned
/// by storage on creation and absent on transient instances. `created_at_unix`
/// is an audit timestamp in seconds since the Unix epoch; analytics never
/// reads it.
#[derive(Clone, Debug)]
pub struct Run {
    pub id: Option<i64>,
    pub date: Date,
    pub time_started: TimeOfDay,
    pub distance_centimiles: u32,
    pub note: Option<String>,
    pub created_at_unix: i64,
}

impl Run {
    /// The record is domain-valid: a real date and time, and a distance in
    /// the half-open range (0, 200] miles.
    pub open spec fn wf(self) -> bool {
        &&& self.date.wf()
        &&& self.time_started.wf()
        &&& 0 < self.distance_centimiles <= MAX_DISTANCE_CENTIMILES
    }

    /// Builds a transient (unsaved) run, rejecting out-of-range distances.
    ///
    /// The distance is accepted exactly when it is positive and at most 200
    /// miles; on success the record carries the given fields, no id, and the
    /// clock's creation timestamp.
    pub fn new(date: Date, time: TimeOfDay, distance_centimiles: i64, note: Option<String>) -> (r:
        Result<Run, ValidationError>)
        requires
            date.wf(),
            time.wf(),
        ensures
            distance_centimiles <= 0 ==> r == Result::<Run, ValidationError>::Err(
                ValidationError::DistanceNotPositive,
            ),
            distance_centimiles > MAX_DISTANCE_CENTIMILES ==> r == Result::<
                Run,
                ValidationError,
            >::Err(ValidationError::DistanceUnrealistic),
            0 < distance_centimiles <= MAX_DISTANCE_CENTIMILES ==> r is Ok && {
                let run = r->Ok_0;
                &&& run.wf()
                &&& run.id is None
                &&& run.date == date
                &&& run.time_started == time
                &&& run.distance_centimiles == distance_centimiles
                &&& run.note == note
            },
    {
        if distance_centimiles <= 0 {
            return Err(ValidationError::DistanceNotPositive);
        }
        if distance_centimiles > MAX_DISTANCE_CENTIMILES as i64 {
            return Err(ValidationError::DistanceUnrealistic);
        }
        Ok(
            Run {
                id: None,
                date,
                time_started: time,
                distance_centimiles: distance_centimiles as u32,
                note,
                created_at_unix: now_unix(),
            },
        )
    }
}

} // verus!
