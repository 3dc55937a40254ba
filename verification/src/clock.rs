//! The monotonic clock of `std::time`, which the monitor reads to pace its
//! sampling. Nothing is known of what it reads.
use vstd::prelude::*;
use std::time::{Duration, Instant};

verus! {

/// `std::time::Instant`, held as an opaque value.
#[verifier::external_type_specification]
#[verifier::external_body]
pub struct ExInstant(Instant);

/// Calls `Instant::now`. What it returns depends on the time of the call; nothing
/// is stated of it.
#[verifier::external_body]
pub(crate) fn instant_now() -> Instant {
    Instant::now()
}

/// Calls `Instant::elapsed`: the time since `since`, which depends on the time of
/// the call; nothing is stated of it.
#[verifier::external_body]
pub(crate) fn instant_elapsed(since: &Instant) -> Duration {
    since.elapsed()
}

/// Calls `Duration::as_nanos`: the whole number of nanoseconds in `d`. `Duration`
/// is opaque here (vstd declares it without fields), so the contract cannot relate
/// the result to `d`; nothing is stated of it.
#[verifier::external_body]
pub(crate) fn duration_as_nanos(d: &Duration) -> u128 {
    d.as_nanos()
}

} // verus!
