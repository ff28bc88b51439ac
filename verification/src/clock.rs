//! Wall-clock timestamps in whole seconds since the Unix epoch.

use vstd::prelude::*;

verus! {

/// `std::time::SystemTime`, carried through as an opaque value.
#[verifier::external_type_specification]
#[verifier::external_body]
pub struct ExSystemTime(std::time::SystemTime);

/// `std::time::SystemTimeError`, carried through as an opaque value.
#[verifier::external_type_specification]
#[verifier::external_body]
pub struct ExSystemTimeError(std::time::SystemTimeError);

/// `SystemTime::now` reads the system clock; nothing is claimed of the
/// instant it returns.
pub assume_specification[ std::time::SystemTime::now ]() -> (t: std::time::SystemTime);

/// Calls `SystemTime::duration_since` with the Unix epoch as the earlier
/// instant. It measures the time elapsed since the epoch, or fails when the
/// clock reads earlier than that; nothing is claimed of which.
#[verifier::external_body]
fn since_epoch(t: &std::time::SystemTime) -> (r: Result<
    core::time::Duration,
    std::time::SystemTimeError,
>) {
    t.duration_since(std::time::UNIX_EPOCH)
}

/// `Duration::as_secs` gives the whole seconds held by a duration; the
/// duration is opaque here, so nothing is claimed of the count.
pub assume_specification[ core::time::Duration::as_secs ](d: &core::time::Duration) -> (secs: u64);

/// The timestamp that stands for `secs` seconds since the epoch: the same
/// count where it fits a signed 64-bit integer, the largest such integer
/// otherwise.
pub open spec fn spec_timestamp(secs: u64) -> i64 {
    if secs <= i64::MAX as u64 {
        secs as i64
    } else {
        i64::MAX
    }
}

/// Converts a count of seconds since the epoch into a timestamp.
pub fn timestamp_from_secs(secs: u64) -> (ts: i64)
    ensures
        ts == spec_timestamp(secs),
        ts >= 0,
{
    if secs <= i64::MAX as u64 {
        secs as i64
    } else {
        i64::MAX
    }
}

/// The current time in seconds since the Unix epoch. A clock set before
/// the epoch reads as 0.
pub fn current_ts() -> (ts: i64)
    ensures
        ts >= 0,
{
    let now = std::time::SystemTime::now();
    match since_epoch(&now) {
        Ok(elapsed) => timestamp_from_secs(elapsed.as_secs()),
        Err(_) => 0,
    }
}

} // verus!
