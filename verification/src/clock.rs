use vstd::prelude::*;
use std::time::Instant;

verus! {

/// One second, in nanoseconds.
pub const SECOND: u128 = 1_000_000_000;

/// `std::time::Instant`: a reading of the monotonic clock. Nothing is known
/// of what it holds.
#[verifier::external_type_specification]
#[verifier::external_body]
pub struct ExInstant(Instant);

/// The present reading of the monotonic clock, from `Instant::now`.
#[verifier::external_body]
pub(crate) fn start() -> Instant {
    Instant::now()
}

/// The nanoseconds that have passed since `origin`, from `Instant::elapsed`.
/// Nothing is said of the number: it depends on when the call is made.
#[verifier::external_body]
pub(crate) fn nanos_since(origin: &Instant) -> u128 {
    origin.elapsed().as_nanos()
}

/// The time that passed from `earlier` to `now`, both in nanoseconds on one
/// clock; zero where `earlier` is the later one.
pub open spec fn elapsed(now: u128, earlier: u128) -> nat {
    if now >= earlier {
        (now - earlier) as nat
    } else {
        0
    }
}

/// The time that passed from `earlier` to `now`; zero where `earlier` is
/// the later one.
pub fn elapsed_between(now: u128, earlier: u128) -> (r: u128)
    ensures
        r == elapsed(now, earlier),
{
    if now >= earlier {
        now - earlier
    } else {
        0
    }
}

} // verus!
