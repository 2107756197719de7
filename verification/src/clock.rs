//! The monotonic clock that drives the election timeout.
use std::time::{Duration, Instant};
use vstd::prelude::*;

verus! {

/// `std::time::Instant`, held opaque: the library only stores instants and
/// hands them back to the clock.
#[verifier::external_type_specification]
#[verifier::external_body]
pub struct ExInstant(Instant);

/// `std::time::Instant::now`: the current instant. Nothing is claimed of
/// the value, which depends on the time of the call.
#[verifier::external_body]
pub(crate) fn now() -> Instant {
    Instant::now()
}

/// `std::time::Instant::elapsed` on `since`: the time passed since then.
/// Nothing is claimed of the value, which depends on the time of the call.
#[verifier::external_body]
pub(crate) fn elapsed_since(since: &Instant) -> Duration {
    since.elapsed()
}

/// `std::time::Duration::as_micros`: the duration in whole microseconds.
/// Nothing is claimed of the value: a duration is held opaque.
#[verifier::external_body]
pub(crate) fn duration_micros(d: &Duration) -> u128 {
    d.as_micros()
}

} // verus!
