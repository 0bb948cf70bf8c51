//! The wall clock, as far as a deadline needs it.

use std::time::{Duration, Instant};
use vstd::prelude::*;

verus! {

/// `std::time::Instant`, a point on the monotonic clock. Nothing is known of
/// what it holds.
#[verifier::external_type_specification]
#[verifier::external_body]
pub struct ExInstant(std::time::Instant);

/// Calls `std::time::Instant::now`. Nothing is claimed of the instant that
/// comes back.
#[verifier::external_body]
fn now() -> Instant {
    Instant::now()
}

/// Calls `std::time::Instant::saturating_duration_since`, which gives the
/// time from `earlier` to `later`, or zero if `earlier` is the later one.
/// Nothing is claimed of the duration that comes back.
#[verifier::external_body]
fn time_between(earlier: &Instant, later: &Instant) -> Duration {
    later.saturating_duration_since(*earlier)
}

/// Calls `std::time::Duration::as_nanos`, the whole duration in nanoseconds.
/// Nothing is claimed of the number that comes back.
#[verifier::external_body]
fn nanoseconds(span: &Duration) -> u128 {
    span.as_nanos()
}

/// Whether a deadline of `limit` nanoseconds has passed after `elapsed`
/// nanoseconds: it has as soon as the two are equal.
pub fn reached(elapsed: u128, limit: u128) -> (passed: bool)
    ensures
        passed == (elapsed >= limit),
{
    elapsed >= limit
}

/// A deadline that runs from the moment the timer was started.
pub(crate) struct Timer {
    /// When the timer was started.
    started: Instant,
    /// The time allowed, in nanoseconds.
    limit: u128,
}

impl Timer {
    /// Starts a timer that allows `limit` from now on.
    pub(crate) fn start(limit: &Duration) -> Timer {
        Timer { started: now(), limit: nanoseconds(limit) }
    }

    /// Reads the clock, and says whether the time allowed has passed.
    pub(crate) fn expired(&self) -> (passed: bool)
        ensures
            exists|elapsed: u128| passed == #[trigger] is_reached(elapsed, self.limit()),
    {
        let current = now();
        let elapsed = time_between(&self.started, &current);
        let gone = nanoseconds(&elapsed);
        let passed = reached(gone, self.limit);
        assert(passed == is_reached(gone, self.limit()));
        passed
    }

    /// The time that the timer allows, in nanoseconds.
    pub(crate) closed spec fn limit(&self) -> u128 {
        self.limit
    }
}

/// A deadline of `limit` nanoseconds has passed after `elapsed` nanoseconds.
/// What the clock shows decides which `elapsed` a timer compares; with a
/// limit of zero every reading has passed it.
pub open spec fn is_reached(elapsed: u128, limit: u128) -> bool {
    elapsed >= limit
}

} // verus!
