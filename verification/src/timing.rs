//! Time and chance: the clock, durations, and random jitter.

use std::time::Duration;
use tokio::time::Instant;
use vstd::prelude::*;

verus! {

/// `tokio::time::Instant`, carried through and never read.
#[verifier::external_type_specification]
#[verifier::external_body]
pub struct ExInstant(Instant);

/// The length of a duration in nanoseconds, as `Duration::as_nanos` gives it.
pub uninterp spec fn duration_nanos(duration: Duration) -> nat;

/// The longest duration, in nanoseconds: all of a `u64` in seconds and one nanosecond less than
/// a second.
pub const MAX_DURATION_NANOS: u128 = 18_446_744_073_709_551_615_999_999_999;

/// `Duration::as_nanos`: the whole length in nanoseconds, which no duration takes beyond
/// [`MAX_DURATION_NANOS`].
pub assume_specification[ Duration::as_nanos ](duration: &Duration) -> (nanos: u128)
    ensures
        nanos == duration_nanos(*duration),
        nanos <= MAX_DURATION_NANOS,
;

/// `Duration::from_millis`: a duration of that many milliseconds.
pub assume_specification[ Duration::from_millis ](millis: u64) -> (duration: Duration)
    ensures
        duration_nanos(duration) == millis * 1_000_000,
;

/// `Duration::from_micros`: a duration of that many microseconds.
pub assume_specification[ Duration::from_micros ](micros: u64) -> (duration: Duration)
    ensures
        duration_nanos(duration) == micros * 1_000,
;

/// The sum of two durations. `Duration`'s `+` panics where the sum is no duration.
#[verifier::external_body]
pub(crate) fn duration_sum(left: Duration, right: Duration) -> (sum: Duration)
    requires
        duration_nanos(left) + duration_nanos(right) <= MAX_DURATION_NANOS,
    ensures
        duration_nanos(sum) == duration_nanos(left) + duration_nanos(right),
{
    left + right
}

/// `Instant::now`: some point in time.
#[verifier::external_body]
pub(crate) fn clock_now() -> (now: Instant) {
    Instant::now()
}

/// `rand::random_range` on `0..bound`: some number below `bound`. The call panics on an empty
/// range.
#[verifier::external_body]
pub(crate) fn random_below(bound: u64) -> (number: u64)
    requires
        0 < bound,
    ensures
        number < bound,
{
    rand::random_range(0..bound)
}

} // verus!
