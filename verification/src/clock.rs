//! Points in time, and the current time.
use vstd::prelude::*;

verus! {

/// A point in time in UTC: seconds since the Unix epoch and nanoseconds
/// within the second.
#[derive(Debug, Clone, Copy, PartialEq, Eq, Structural)]
pub struct Timestamp {
    pub secs: i64,
    pub nanos: u32,
}

/// The current time: `chrono::DateTime::<Utc>::from` applied to the system
/// clock's `SystemTime::now()`. The conversion takes a time before the Unix
/// epoch as a negative number of seconds, and always gives fewer than 10^9
/// nanoseconds. What the time is, nothing states: two calls may give
/// different values. (The conversion panics only for a clock reading beyond
/// chrono's range of about 262,000 years around year 0.)
#[verifier::external_body]
pub(crate) fn utc_now() -> (r: Timestamp)
    ensures
        r.nanos < 1_000_000_000,
{
    let t = chrono::DateTime::<chrono::Utc>::from(std::time::SystemTime::now());
    Timestamp { secs: t.timestamp(), nanos: t.timestamp_subsec_nanos() }
}

} // verus!
