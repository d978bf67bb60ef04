//! The failure taxonomy of the engine. Every failure is fatal for the run:
//! the system is a single-shot batch transformation with no retry semantics.

use vstd::prelude::*;

verus! {

/// Why a run stopped.
#[derive(Clone, Copy, PartialEq, Eq, Structural, Debug)]
pub enum MarkyError {
    /// More than one row shape was requested at once.
    ConfigConflict,
    /// A record failed to parse into the active row shape.
    MalformedRecord,
    /// Degenerate chunking configuration: zero initial chunk size, a growth
    /// factor at or below one, or a zero divisor.
    InvalidSchedule,
    /// Generation was requested before any training data was fed.
    UntrainedModel,
}

/// The message text for each failure.
pub open spec fn describe_spec(e: MarkyError) -> Seq<char> {
    match e {
        MarkyError::ConfigConflict => "more than one row shape selected"@,
        MarkyError::MalformedRecord => "record does not match the active row shape"@,
        MarkyError::InvalidSchedule => "degenerate chunk schedule configuration"@,
        MarkyError::UntrainedModel => "model has not been trained"@,
    }
}

impl MarkyError {
    /// A human-readable message naming the failure.
    pub fn describe(&self) -> (r: String)
        ensures
            r@ == describe_spec(*self),
    {
        match self {
            MarkyError::ConfigConflict => "more than one row shape selected".to_owned(),
            MarkyError::MalformedRecord => "record does not match the active row shape".to_owned(),
            MarkyError::InvalidSchedule => "degenerate chunk schedule configuration".to_owned(),
            MarkyError::UntrainedModel => "model has not been trained".to_owned(),
        }
    }
}

} // verus!
