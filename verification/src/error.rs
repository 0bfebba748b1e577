//! The errors of the library.

use vstd::prelude::*;

verus! {

/// The ways in which ingestion or a lookup can fail.
#[derive(Clone, Copy, Debug, PartialEq, Eq)]
pub enum StatsError {
    /// A record that was asked for does not exist.
    NotFound,
    /// A number does not fit the non-negative integer domain it is meant for.
    InvalidNumeric,
    /// A legality flag is neither `"true"` nor `"false"`.
    MalformedBoolean,
}

impl StatsError {
    /// A short description of the error, for messages and logs.
    pub fn message(&self) -> (text: String)
        ensures
            text@ == match *self {
                StatsError::NotFound => "record not found"@,
                StatsError::InvalidNumeric => "number outside the non-negative integer range"@,
                StatsError::MalformedBoolean => "expected true or false"@,
            },
    {
        match self {
            StatsError::NotFound => "record not found".to_owned(),
            StatsError::InvalidNumeric => "number outside the non-negative integer range".to_owned(),
            StatsError::MalformedBoolean => "expected true or false".to_owned(),
        }
    }
}

} // verus!
