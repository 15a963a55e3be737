//! The error values of the library.

use vstd::prelude::*;

verus! {

/// A required column of the activity table.
#[derive(Clone, Copy, Debug, PartialEq, Eq, Structural)]
pub enum Column {
    /// The `Date` column: when the activity started.
    Date,
    /// The `Time` column: how long the activity lasted.
    Time,
}

/// Why a single data row of the activity table was rejected.
#[derive(Clone, Copy, Debug, PartialEq, Eq, Structural)]
pub enum RowFault {
    /// The row could not be read as a record of text fields.
    Unreadable,
    /// The row has no field under a required column.
    MissingField,
    /// The `Date` field is not of the form `YYYY-MM-DD HH:MM:SS`.
    BadDate,
    /// The `Time` field is not of the form `HH:MM:SS`.
    BadDuration,
}

/// A rejected data row: its position among the data rows (counting from 0,
/// the header row not included) and the reason.
#[derive(Clone, Copy, Debug, PartialEq, Eq, Structural)]
pub struct RowError {
    pub row: usize,
    pub fault: RowFault,
}

/// Why an activity table as a whole was rejected.
#[derive(Clone, Copy, Debug, PartialEq, Eq, Structural)]
pub enum ActivityFault {
    /// The header row could not be read.
    UnreadableHeader,
    /// The header row lacks a required column.
    MissingColumn(Column),
    /// A data row was malformed.
    Row(RowError),
}

/// Why a single registry entry was rejected.
#[derive(Clone, Copy, Debug, PartialEq, Eq, Structural)]
pub enum EntryFault {
    /// The interval is not a duration.
    Interval,
    /// The service date at this position is not a timestamp.
    ServiceDate(usize),
}

/// Why a registry document was rejected.
#[derive(Clone, Copy, Debug, PartialEq, Eq, Structural)]
pub enum RegistryFault {
    /// The document as a whole could not be decoded.
    Document,
    /// The interval of the component at this position is not a duration.
    Interval { component: usize },
    /// A service date of a component is not a timestamp.
    ServiceDate { component: usize, entry: usize },
}

/// Every failure the library reports.
#[derive(Clone, Debug, PartialEq, Eq)]
pub enum Error {
    /// The activity table is malformed.
    ActivityFormatError(ActivityFault),
    /// The registry document is malformed.
    DBFormatError(RegistryFault),
    /// A source could not be read; names the resource.
    IOError { file_path: String },
    /// A failure of no other kind.
    Unknown,
}

} // verus!
