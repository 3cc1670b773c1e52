use std::time::{Duration, Instant};
use vstd::prelude::*;

verus! {

/// `std::time::Instant`, a reading of the monotonic clock.
#[verifier::external_type_specification]
#[verifier::external_body]
pub struct ExInstant(std::time::Instant);

/// The current reading of the monotonic clock.
///
/// Calls `std::time::Instant::now`. The reading depends on the time of the
/// call: nothing is stated of it.
#[verifier::external_body]
pub(crate) fn instant_now() -> (r: Instant)
{
    Instant::now()
}

/// The time that has passed since `start`.
///
/// Calls `Instant::elapsed`. It depends on the time of the call: nothing is
/// stated of it.
#[verifier::external_body]
fn elapsed(start: &Instant) -> (r: Duration)
{
    start.elapsed()
}

/// The whole milliseconds of a duration.
///
/// Calls `Duration::as_millis`. A `Duration` is opaque here, so nothing is
/// stated of the result.
#[verifier::external_body]
fn as_millis(d: &Duration) -> (r: u128)
{
    d.as_millis()
}

/// The milliseconds that have passed since `start`, cut to their low 64
/// bits.
pub(crate) fn elapsed_millis(start: &Instant) -> (r: u64)
{
    let ms = as_millis(&elapsed(start));
    #[verifier::truncate] (ms as u64)
}

} // verus!
