//! Absolute points in time, as seconds and nanoseconds relative to the Unix epoch.

use vstd::prelude::*;

verus! {

/// An absolute point in time in UTC: whole seconds since the Unix epoch and a
/// sub-second part in nanoseconds. Instants are ordered by seconds, then by
/// nanoseconds.
#[derive(Clone, Copy, Debug, PartialEq, Eq, Structural)]
pub struct Instant {
    pub secs: i64,
    pub nanos: u32,
}

/// The Unix epoch, 1970-01-01T00:00:00Z.
pub open spec fn epoch() -> Instant {
    Instant { secs: 0, nanos: 0 }
}

/// `a` lies strictly after `b`.
pub open spec fn later(a: Instant, b: Instant) -> bool {
    a.secs > b.secs || (a.secs == b.secs && a.nanos > b.nanos)
}

impl Instant {
    /// The Unix epoch, 1970-01-01T00:00:00Z.
    pub fn unix_epoch() -> (r: Instant)
        ensures
            r == epoch(),
    {
        Instant { secs: 0, nanos: 0 }
    }

    /// Whether `self` lies strictly after `other`.
    pub fn is_after(&self, other: &Instant) -> (r: bool)
        ensures
            r == later(*self, *other),
    {
        self.secs > other.secs || (self.secs == other.secs && self.nanos > other.nanos)
    }
}

} // verus!

verus! {

/// What `chrono::NaiveDateTime::parse_from_str(s, fmt)` reads from `s` under
/// the pattern `fmt`, taken as a UTC reading: seconds since the epoch and
/// nanoseconds, or `None` where `s` does not match.
pub uninterp spec fn naive_utc_of(s: Seq<char>, fmt: Seq<char>) -> Option<(i64, u32)>;

/// What `s.parse::<chrono::DateTime<chrono::Utc>>()` reads from `s`: a
/// timestamp with an offset in a relaxed RFC 3339 form (for instance a space
/// in place of the `T`), normalised to UTC, as seconds since the epoch and
/// nanoseconds; `None` where `s` is not such a timestamp.
pub uninterp spec fn utc_of(s: Seq<char>) -> Option<(i64, u32)>;

/// Relies on `chrono::NaiveDateTime::parse_from_str` to read a zone-less
/// wall-clock reading, and on `and_utc` to take it as UTC.
#[verifier::external_body]
pub(crate) fn parse_naive_utc(s: &str, fmt: &str) -> (r: Option<(i64, u32)>)
    ensures
        r == naive_utc_of(s@, fmt@),
{
    chrono::NaiveDateTime::parse_from_str(s, fmt).ok().map(
        |t| (t.and_utc().timestamp(), t.and_utc().timestamp_subsec_nanos()),
    )
}

/// Relies on `FromStr` for `chrono::DateTime<chrono::Utc>` to read a
/// timestamp with an offset and normalise it to UTC.
#[verifier::external_body]
pub(crate) fn parse_utc(s: &str) -> (r: Option<(i64, u32)>)
    ensures
        r == utc_of(s@),
{
    s.parse::<chrono::DateTime<chrono::Utc>>().ok().map(|t| (t.timestamp(), t.timestamp_subsec_nanos()))
}

} // verus!
