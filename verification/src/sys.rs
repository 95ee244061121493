//! Clock and entropy sources. Their results depend on the machine and the
//! moment of the call: what is stated of them is how a reading is turned
//! into milliseconds, never which reading comes back.
use vstd::prelude::*;
use std::time::Duration;
use std::time::Instant;
use std::time::SystemTime;
use std::time::SystemTimeError;

verus! {

#[verifier::external_type_specification]
#[verifier::external_body]
pub struct ExInstant(std::time::Instant);

#[verifier::external_type_specification]
#[verifier::external_body]
pub struct ExSystemTime(std::time::SystemTime);

#[verifier::external_type_specification]
#[verifier::external_body]
pub struct ExSystemTimeError(std::time::SystemTimeError);

#[verifier::external_type_specification]
#[verifier::external_body]
pub struct ExGetrandomError(getrandom::Error);

/// The current monotonic instant (`Instant::now`).
#[verifier::external_body]
pub(crate) fn instant_now() -> Instant {
    Instant::now()
}

/// Time elapsed since `start` (`Instant::elapsed`).
#[verifier::external_body]
pub(crate) fn instant_elapsed(start: &Instant) -> Duration {
    start.elapsed()
}

/// Whole milliseconds in a duration (`Duration::as_millis`): its length in
/// nanoseconds divided by one million, rounded down.
#[verifier::external_body]
pub(crate) fn duration_as_millis(d: &Duration) -> (r: u128)
    ensures
        r == duration_nanos(*d) / 1_000_000,
{
    d.as_millis()
}

/// The current wall-clock time (`SystemTime::now`).
#[verifier::external_body]
pub(crate) fn system_time_now() -> SystemTime {
    SystemTime::now()
}

/// Time since the UNIX epoch (`SystemTime::duration_since(UNIX_EPOCH)`),
/// an error when the clock is set before the epoch.
#[verifier::external_body]
pub(crate) fn duration_since_unix_epoch(t: &SystemTime) -> Result<Duration, SystemTimeError> {
    t.duration_since(std::time::UNIX_EPOCH)
}

/// Fill `buf` from the operating system's entropy source (`getrandom::getrandom`).
#[verifier::external_body]
pub(crate) fn fill_random(buf: &mut [u8; 32]) -> Result<(), getrandom::Error> {
    getrandom::getrandom(buf)
}

/// The text of an entropy error (its `Display` output).
#[verifier::external_body]
pub(crate) fn entropy_error_text(e: &getrandom::Error) -> String {
    e.to_string()
}

/// The length of a duration in nanoseconds, as `Duration::as_nanos` gives it.
pub uninterp spec fn duration_nanos(d: Duration) -> u128;

/// A duration of `ms` milliseconds (`Duration::from_millis`).
#[verifier::external_body]
pub(crate) fn duration_from_millis(ms: u64) -> (r: Duration)
    ensures
        duration_nanos(r) == ms as int * 1_000_000,
{
    Duration::from_millis(ms)
}

/// Half a duration (`Duration / 2`), rounded down to the nanosecond.
#[verifier::external_body]
pub(crate) fn duration_half(d: &Duration) -> (r: Duration)
    ensures
        duration_nanos(r) == duration_nanos(*d) / 2,
{
    *d / 2
}

/// Whether `a` is at least as long as `b` (`Duration`'s ordering compares
/// lengths).
#[verifier::external_body]
pub(crate) fn duration_at_least(a: &Duration, b: &Duration) -> (r: bool)
    ensures
        r == (duration_nanos(*a) >= duration_nanos(*b)),
{
    *a >= *b
}

/// A millisecond count cut to its low 64 bits, as an `as u64` conversion does.
pub fn wrapping_millis(ms: u128) -> (r: u64)
    ensures
        r as int == ms as int % 0x1_0000_0000_0000_0000,
{
    let r = ms as u64;
    assert(r == ms % 0x1_0000_0000_0000_0000) by (bit_vector)
        requires
            r == ms as u64,
    ;
    r
}

/// A millisecond count held at `u64::MAX` when it does not fit.
pub fn saturating_millis(ms: u128) -> (r: u64)
    ensures
        r as int == if ms > u64::MAX { u64::MAX as int } else { ms as int },
{
    if ms > u64::MAX as u128 {
        u64::MAX
    } else {
        ms as u64
    }
}

/// Returns the current wall-clock time as milliseconds since the UNIX epoch,
/// or `0` if the system clock is earlier than the epoch.
pub fn current_timestamp() -> (r: u64)
    ensures
        r == 0 || exists|d: Duration| r as int == (duration_nanos(d) / 1_000_000) as int % 0x1_0000_0000_0000_0000,
{
    let now = system_time_now();
    match duration_since_unix_epoch(&now) {
        Ok(d) => {
            let ms = duration_as_millis(&d);
            wrapping_millis(ms)
        },
        Err(_) => 0,
    }
}

/// Milliseconds elapsed since `start`, saturated at `u64::MAX`.
pub fn elapsed_millis(start: &Instant) -> (r: u64)
    ensures
        exists|d: Duration|
            r as int == if duration_nanos(d) / 1_000_000 > u64::MAX {
                u64::MAX as int
            } else {
                (duration_nanos(d) / 1_000_000) as int
            },
{
    let d = instant_elapsed(start);
    let ms = duration_as_millis(&d);
    saturating_millis(ms)
}

} // verus!
