//! The clocks of the machine. Nothing is said of the time they show; what is made
//! of that time is stated for every time.
use std::time::{Duration, Instant, SystemTime, UNIX_EPOCH};
use vstd::prelude::*;

verus! {

/// A point in time on the monotonic clock.
#[verifier::external_type_specification]
#[verifier::external_body]
pub struct ExInstant(Instant);

/// A point in time on the clock of the system.
#[verifier::external_type_specification]
#[verifier::external_body]
pub struct ExSystemTime(SystemTime);

/// How long it is from one point in time to another, nothing where the other does
/// not come later.
pub uninterp spec fn passed_between(earlier: Instant, later: Instant) -> Duration;

/// How long after the Unix epoch a point in time is, `None` before the epoch.
pub uninterp spec fn time_since_epoch(time: SystemTime) -> Option<Duration>;

/// The nanoseconds in a duration.
pub uninterp spec fn duration_nanos(duration: Duration) -> nat;

/// The time `now` in nanoseconds since `origin`, at most `u64::MAX`.
pub open spec fn time_at(origin: Instant, now: Instant) -> u64 {
    let nanos = duration_nanos(passed_between(origin, now));
    if nanos <= u64::MAX {
        nanos as u64
    } else {
        u64::MAX
    }
}

/// The whole seconds from the Unix epoch to a point in time, `None` before the
/// epoch.
pub open spec fn unix_secs(time: SystemTime) -> Option<u64> {
    match time_since_epoch(time) {
        Some(duration) => Some((duration_nanos(duration) / 1_000_000_000) as u64),
        None => None,
    }
}

/// Calls `Instant::now`. Nothing is said of the time.
#[verifier::external_body]
pub(crate) fn instant_now() -> (r: Instant) {
    Instant::now()
}

/// Calls `Instant::saturating_duration_since`, whose result is a function of the two
/// points in time.
#[verifier::external_body]
fn time_passed(earlier: &Instant, later: &Instant) -> (r: Duration)
    ensures
        r == passed_between(*earlier, *later),
{
    later.saturating_duration_since(*earlier)
}

/// Calls `Duration::as_nanos`, which gives all the nanoseconds in the duration.
#[verifier::external_body]
fn whole_nanos(duration: Duration) -> (r: u128)
    ensures
        r == duration_nanos(duration),
{
    duration.as_nanos()
}

/// Calls `SystemTime::now`. Nothing is said of the time.
#[verifier::external_body]
fn system_now() -> (r: SystemTime) {
    SystemTime::now()
}

/// Calls `SystemTime::duration_since` with the Unix epoch, `None` for its error,
/// which comes for a time before the epoch. The result is a function of the time.
#[verifier::external_body]
fn since_epoch(time: SystemTime) -> (r: Option<Duration>)
    ensures
        r == time_since_epoch(time),
{
    time.duration_since(UNIX_EPOCH).ok()
}

/// Calls `Duration::as_secs`, which gives the whole seconds in the duration.
#[verifier::external_body]
fn whole_secs(duration: Duration) -> (r: u64)
    ensures
        r == duration_nanos(duration) / 1_000_000_000,
{
    duration.as_secs()
}

/// The time `now` in nanoseconds since `origin`, at most `u64::MAX`.
pub fn nanos_between(origin: &Instant, now: &Instant) -> (r: u64)
    ensures
        r == time_at(*origin, *now),
{
    let nanos: u128 = whole_nanos(time_passed(origin, now));
    if nanos <= u64::MAX as u128 {
        nanos as u64
    } else {
        u64::MAX
    }
}

/// The time that the clock shows, in nanoseconds since `origin`.
pub(crate) fn nanos_since(origin: &Instant) -> (r: u64)
    ensures
        exists|now: Instant| r == #[trigger] time_at(*origin, now),
{
    let now = instant_now();
    nanos_between(origin, &now)
}

/// The whole seconds from the Unix epoch to a point in time, `None` before the
/// epoch.
pub fn secs_since_epoch(time: SystemTime) -> (r: Option<u64>)
    ensures
        r == unix_secs(time),
{
    match since_epoch(time) {
        Some(duration) => Some(whole_secs(duration)),
        None => None,
    }
}

/// The time that the clock of the system shows, in seconds since the Unix epoch,
/// `None` while it stands before the epoch.
pub(crate) fn unix_now_secs() -> (r: Option<u64>)
    ensures
        exists|time: SystemTime| r == #[trigger] unix_secs(time),
{
    secs_since_epoch(system_now())
}

/// The time is the number of nanoseconds that have passed, as far as 64 bits go.
pub proof fn law_time_is_what_passed(origin: Instant, now: Instant)
    ensures
        duration_nanos(passed_between(origin, now)) <= u64::MAX ==> time_at(origin, now)
            == duration_nanos(passed_between(origin, now)),
        duration_nanos(passed_between(origin, now)) > u64::MAX ==> time_at(origin, now) == u64::MAX,
{
}

/// The seconds since the epoch are whole: the nanoseconds lie between them and the
/// next.
pub proof fn law_unix_seconds_are_whole(time: SystemTime)
    requires
        time_since_epoch(time) matches Some(duration) ==> duration_nanos(duration) / 1_000_000_000
            <= u64::MAX,
    ensures
        match (time_since_epoch(time), unix_secs(time)) {
            (Some(duration), Some(secs)) => secs * 1_000_000_000 <= duration_nanos(duration) < (secs
                + 1) * 1_000_000_000,
            (None, None) => true,
            _ => false,
        },
{
}

} // verus!
