//! Durations and instants as plain values: a duration is a signed count
//! of seconds, an instant is a count of seconds (and nanoseconds) since
//! the Unix epoch in UTC.

use vstd::prelude::*;

verus! {

/// A span of time, in whole seconds.
#[derive(Clone, Copy, Debug, PartialEq, Eq, Structural)]
pub struct Duration {
    pub secs: i64,
}

impl Duration {
    /// A duration of `secs` seconds.
    pub fn seconds(secs: i64) -> (r: Duration)
        ensures
            r.secs == secs,
    {
        Duration { secs }
    }
}

/// An instant in UTC: seconds since the Unix epoch, plus the nanoseconds
/// since the last second boundary.
#[derive(Clone, Copy, Debug, PartialEq, Eq, Structural)]
pub struct DateTime {
    pub secs: i64,
    pub nanos: u32,
}

/// What parsing a string as RFC 3339 yields once normalized to UTC: a
/// function of the characters alone.
pub uninterp spec fn rfc3339_utc(s: Seq<char>) -> Option<DateTime>;

/// Relies on chrono's `DateTime::parse_from_rfc3339`, which accepts every
/// valid RFC 3339 date-and-time and nothing else, and on `timestamp` /
/// `timestamp_subsec_nanos`, which express the parsed instant as seconds
/// and nanoseconds since the Unix epoch: all three depend on the
/// characters alone.
#[verifier::external_body]
pub fn parse_rfc3339(s: &str) -> (r: Option<DateTime>)
    ensures
        r == rfc3339_utc(s@),
{
    match chrono::DateTime::parse_from_rfc3339(s) {
        Ok(t) => Some(DateTime { secs: t.timestamp(), nanos: t.timestamp_subsec_nanos() }),
        Err(_) => None,
    }
}

} // verus!
