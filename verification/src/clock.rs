//! The clocks that the strategies read. Nothing here is proved: each item
//! says in its comment what it takes on trust.

use chrono::Local;
use tokio::time::Instant;
use vstd::prelude::*;

verus! {

/// `tokio::time::Instant`, a reading of tokio's monotonic clock. The type
/// is opaque: a reading can be kept and handed back to the clock, no more.
#[verifier::external_type_specification]
#[verifier::external_body]
pub struct ExInstant(tokio::time::Instant);

/// Reads the monotonic clock with `tokio::time::Instant::now`. Nothing is
/// claimed of the reading.
#[verifier::external_body]
pub(crate) fn start() -> (origin: Instant) {
    Instant::now()
}

/// The whole seconds that have passed since `origin`, by
/// `tokio::time::Instant::elapsed` and `Duration::as_secs`. Nothing is
/// claimed of the number: it is whatever the clock says.
#[verifier::external_body]
pub(crate) fn seconds_since(origin: &Instant) -> (seconds: u64) {
    origin.elapsed().as_secs()
}

/// The wall clock as seconds of Unix time, by `chrono::Local::now` and
/// `DateTime::timestamp`. Nothing is claimed of the number. chrono does not
/// return a reading from a system clock that is set before 1970.
#[verifier::external_body]
pub(crate) fn unix_seconds() -> (seconds: i64) {
    Local::now().timestamp()
}

} // verus!
