//! Wall-clock readings, used to time each request.
use vstd::prelude::*;

use std::time::{Duration, Instant};

verus! {

#[verifier::external_type_specification]
#[verifier::external_body]
pub struct ExInstant(Instant);

/// Relies on `std::time::Instant::now`: a reading of a monotonic clock.
pub assume_specification[ Instant::now ]() -> (r: Instant);

/// Relies on `std::time::Instant::elapsed`: the time passed since the reading.
pub assume_specification[ Instant::elapsed ](i: &Instant) -> (r: Duration);

/// Relies on `std::time::Duration::as_micros`: the whole microseconds of a
/// duration.
pub assume_specification[ Duration::as_micros ](d: &Duration) -> (r: u128);

/// Whole microseconds passed since `start`, saturated to the `u64` range.
pub fn micros_since(start: &Instant) -> (r: u64) {
    let d = start.elapsed();
    let us = d.as_micros();
    if us > u64::MAX as u128 {
        u64::MAX
    } else {
        us as u64
    }
}

} // verus!
