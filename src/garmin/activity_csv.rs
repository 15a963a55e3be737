//! A single-column view of an activity row: its elapsed time alone.

use vstd::prelude::*;
use crate::duration_text::{decode_duration, duration_of_text};

verus! {

/// The elapsed time of one activity row, in seconds.
#[derive(Clone, Copy, Debug, PartialEq, Eq, Structural)]
pub struct Record {
    pub time: u64,
}

impl Record {
    /// Decodes the `Time` field of a row (`HH:MM:SS`).
    pub fn from_time_text(s: &str) -> (r: Option<Record>)
        ensures
            match duration_of_text(s@) {
                Some(t) => r == Some(Record { time: t }),
                None => r is None,
            },
    {
        match decode_duration(s) {
            Some(t) => Some(Record { time: t }),
            None => None,
        }
    }
}

} // verus!
