//! How long work took, for the listeners that are told of it.

use std::time::{Duration, Instant};

use vstd::prelude::*;

verus! {

/// A moment on the monotonic clock of the machine.
#[verifier::external_type_specification]
#[verifier::external_body]
pub struct ExInstant(Instant);

/// [`Instant::now`]: the moment of the call. Nothing is claimed of it.
#[verifier::external_body]
fn now() -> (r: Instant) {
    Instant::now()
}

/// [`Instant::elapsed`]: how long ago `start` was. Nothing is claimed of it.
#[verifier::external_body]
fn elapsed(start: &Instant) -> (r: Duration) {
    start.elapsed()
}

/// When work begins, where the host has a clock.
pub(crate) fn start_of_work(has_clock: bool) -> (r: Option<Instant>)
    ensures
        r is Some <==> has_clock,
{
    if has_clock {
        Some(now())
    } else {
        None
    }
}

/// How long ago work began: no time at all where the host has no clock.
pub(crate) fn time_since(start: &Option<Instant>) -> (r: Duration)
    ensures
        start is None ==> r == span(0),
{
    match start {
        Some(start) => elapsed(start),
        None => span_of_millis(0),
    }
}

/// The span of so many thousandths of a second.
pub uninterp spec fn span(millis: u64) -> Duration;

/// [`Duration::from_millis`]: the span of `millis` thousandths of a second.
/// The same number gives the same span; listeners alone read it.
#[verifier::external_body]
pub(crate) fn span_of_millis(millis: u64) -> (r: Duration)
    ensures
        r == span(millis),
{
    Duration::from_millis(millis)
}

} // verus!
