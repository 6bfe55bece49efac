//! The monotonic clock.

use vstd::prelude::*;
use std::time::Instant;

verus! {

/// `std::time::Instant`: a point on the monotonic clock, of which nothing is
/// known but what the clock says.
#[verifier::external_type_specification]
#[verifier::external_body]
pub struct ExInstant(std::time::Instant);

/// `Instant::now`: the clock's reading at the time of the call. No two calls
/// need give the same, so nothing is claimed of it.
#[verifier::external_body]
pub(crate) fn now() -> Instant {
    Instant::now()
}

/// `Instant::duration_since`, in nanoseconds: the time that passed on the
/// clock from `earlier` to `later`, and zero where `earlier` is the later of
/// the two. It depends on the two readings alone, which carry no value that
/// a contract could speak of, so nothing is claimed of it.
#[verifier::external_body]
pub(crate) fn nanos_between(earlier: &Instant, later: &Instant) -> u128 {
    later.duration_since(*earlier).as_nanos()
}

} // verus!
