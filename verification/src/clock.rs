//! Points in time and durations, as the library hands them out.

use vstd::prelude::*;
use std::time::{Duration, Instant, SystemTime};

verus! {

#[verifier::external_type_specification]
#[verifier::external_body]
pub struct ExSystemTime(SystemTime);

#[verifier::external_type_specification]
#[verifier::external_body]
pub struct ExInstant(Instant);

/// The length of a duration in nanoseconds.
pub uninterp spec fn nanos_of(d: Duration) -> u128;

/// The duration of `secs` whole seconds.
pub uninterp spec fn secs_duration(secs: u64) -> Duration;

/// The point in time the duration `d` after the Unix epoch.
pub uninterp spec fn epoch_plus(d: Duration) -> SystemTime;

/// `Duration::from_secs`: a duration of `secs` whole seconds, which is
/// `secs * 10^9` nanoseconds (`Duration::as_nanos`).
#[verifier::external_body]
pub(crate) fn duration_from_secs(secs: u64) -> (r: Duration)
    ensures
        r == secs_duration(secs),
        nanos_of(r) == secs as int * 1_000_000_000,
{
    Duration::from_secs(secs)
}

/// `Duration::as_nanos`: the total number of nanoseconds in `d`.
#[verifier::external_body]
pub(crate) fn duration_nanos(d: &Duration) -> (r: u128)
    ensures
        r == nanos_of(*d),
{
    d.as_nanos()
}

/// `UNIX_EPOCH + d`: the point in time `d` after the epoch, a function of `d`
/// alone. The addition panics when the point cannot be represented; on 64-bit
/// Linux a `SystemTime` holds signed 64-bit seconds, so `d` is kept below
/// `i64::MAX + 1` seconds.
#[verifier::external_body]
pub(crate) fn time_after_epoch(d: Duration) -> (r: SystemTime)
    requires
        nanos_of(d) < (i64::MAX as int + 1) * 1_000_000_000,
    ensures
        r == epoch_plus(d),
{
    SystemTime::UNIX_EPOCH + d
}

/// `Instant::now`: the current reading of the monotonic clock. Nothing is
/// stated of the value; it depends on when the call is made.
#[verifier::external_body]
pub(crate) fn instant_now() -> Instant {
    Instant::now()
}

/// `Instant::elapsed`: the time passed since `origin`. Nothing is stated of
/// the value; it depends on when the call is made.
#[verifier::external_body]
pub(crate) fn elapsed_since(origin: &Instant) -> Duration {
    origin.elapsed()
}

/// The point in time `secs` seconds after the Unix epoch.
pub open spec fn unix_time(secs: u64) -> SystemTime {
    epoch_plus(secs_duration(secs))
}

/// The point in time `secs` seconds after the Unix epoch.
pub fn time_from_unix_secs(secs: u64) -> (r: SystemTime)
    requires
        secs <= i64::MAX,
    ensures
        r == unix_time(secs),
{
    time_after_epoch(duration_from_secs(secs))
}

} // verus!
