//! The run timer: the few calls into `std::time` that the collector makes.
//!
//! Nothing is stated of the readings of the clock; a duration's whole
//! milliseconds are named by [`millis_of`].
use std::time::{Duration, Instant};
use vstd::prelude::*;

verus! {

/// `std::time::Instant`, carried through as an opaque value.
#[verifier::external_type_specification]
#[verifier::external_body]
pub struct ExInstant(Instant);

/// Calls `Instant::now`. The current reading of the monotonic clock: no
/// property of it is claimed.
#[verifier::external_body]
pub(crate) fn now() -> Instant {
    Instant::now()
}

/// Calls `Instant::elapsed`: the time passed since `start`. It depends on
/// the clock, so no property of it is claimed.
#[verifier::external_body]
pub(crate) fn elapsed_since(start: &Instant) -> Duration {
    start.elapsed()
}

/// The total number of whole milliseconds in `d`, as `Duration::as_millis`
/// gives it: a function of `d` alone.
pub uninterp spec fn millis_of(d: Duration) -> u128;

/// Calls `Duration::as_millis`: the whole milliseconds in `d`, named
/// [`millis_of`]. Nothing more is claimed of the value.
#[verifier::external_body]
pub(crate) fn whole_millis(d: &Duration) -> (ms: u128)
    ensures
        ms == millis_of(*d),
{
    d.as_millis()
}

} // verus!
