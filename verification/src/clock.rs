//! The clocks the metrics read: the monotonic clock for durations and the
//! wall clock for the dates of events and stored counts.
use vstd::prelude::*;
use std::time::{Duration, Instant};
use chrono::NaiveDateTime;

verus! {

/// `std::time::Instant`, carried through as an opaque value.
#[verifier::external_type_specification]
#[verifier::external_body]
pub struct ExInstant(Instant);

/// `chrono::NaiveDateTime`, carried through as an opaque value. A date of
/// `chrono::DateTime<Utc>` is exactly its naive UTC date and time.
#[verifier::external_type_specification]
#[verifier::external_body]
pub struct ExNaiveDateTime(NaiveDateTime);

/// Calls `std::time::Instant::now`. Nothing is promised of the result: it
/// is the current reading of the monotonic clock.
#[verifier::external_body]
pub(crate) fn instant_now() -> (r: Instant) {
    Instant::now()
}

/// Calls `std::time::Instant::elapsed`: the time passed since `start`.
/// Nothing is promised of the result, which depends on the clock.
#[verifier::external_body]
pub(crate) fn instant_elapsed(start: &Instant) -> (r: Duration) {
    start.elapsed()
}

/// The whole number of nanoseconds in a duration, as
/// `std::time::Duration::as_nanos` computes it.
pub uninterp spec fn duration_nanos(d: Duration) -> u128;

/// Calls `std::time::Duration::as_nanos`; its result is `duration_nanos`
/// of the duration.
#[verifier::external_body]
pub(crate) fn duration_as_nanos(d: &Duration) -> (r: u128)
    ensures
        r == duration_nanos(*d),
{
    d.as_nanos()
}

/// Reads the wall clock (`std::time::SystemTime::now`) and converts the
/// reading with chrono's `From<SystemTime> for DateTime<Utc>`, keeping its
/// UTC date and time (`DateTime::naive_utc`), to the nanosecond. The
/// conversion handles readings before the epoch; it fails only beyond
/// chrono's range of about 262,000 years either side of the epoch, which a
/// system clock cannot reach. Nothing is promised of the result: it is the
/// current reading of the wall clock.
#[verifier::external_body]
pub(crate) fn utc_now() -> (r: NaiveDateTime) {
    chrono::DateTime::<chrono::Utc>::from(std::time::SystemTime::now()).naive_utc()
}

} // verus!
