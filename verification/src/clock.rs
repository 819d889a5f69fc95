use vstd::prelude::*;
use std::time::{Duration, SystemTime, SystemTimeError};

verus! {

/// A point of the system clock, carried from the start of a search to its
/// deadline checks.
#[verifier::external_type_specification]
#[verifier::external_body]
pub struct ExSystemTime(SystemTime);

/// What the system clock answers when it has been set back.
#[verifier::external_type_specification]
#[verifier::external_body]
pub struct ExSystemTimeError(SystemTimeError);

/// The present reading of the system clock (`SystemTime::now`). Nothing is
/// claimed of it.
#[verifier::external_body]
pub(crate) fn now() -> SystemTime {
    SystemTime::now()
}

/// The time gone by since `start` (`SystemTime::elapsed`), or the clock's
/// error where the clock now reads earlier than `start`. Nothing is claimed
/// of it.
#[verifier::external_body]
pub(crate) fn elapsed(start: &SystemTime) -> Result<Duration, SystemTimeError> {
    start.elapsed()
}

/// The length of `d` in nanoseconds (`Duration::as_nanos`). Nothing is
/// claimed of it.
#[verifier::external_body]
pub(crate) fn nanos(d: &Duration) -> u128 {
    d.as_nanos()
}

/// Whether more than `budget` has gone by since `start`. A clock that was
/// set back counts as out of time.
pub(crate) fn out_of_time(start: &SystemTime, budget: &Duration) -> bool {
    let gone = match elapsed(start) {
        Ok(gone) => Some(nanos(&gone)),
        Err(_) => None,
    };
    overdue(gone, nanos(budget))
}

/// Whether a time that has gone by, in nanoseconds, is longer than the
/// budget. Where the clock gave no time, because it was set back, the
/// budget counts as used up.
pub fn overdue(gone: Option<u128>, budget: u128) -> (r: bool)
    ensures
        r == match gone {
            Some(nanoseconds) => nanoseconds > budget,
            None => true,
        },
{
    match gone {
        Some(nanoseconds) => nanoseconds > budget,
        None => true,
    }
}

} // verus!
