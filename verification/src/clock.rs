//! Trusted boundary around the monotonic clock, used only to fill the
//! diagnostic `took` field of a solver result; nothing is assumed of the
//! values it returns.

use vstd::prelude::*;

verus! {

#[verifier::external_type_specification]
#[verifier::external_body]
pub struct ExInstant(std::time::Instant);

/// Relies on `std::time::Instant::now`; the reading depends on the machine's
/// clock, so nothing is assumed of it.
#[verifier::external_body]
pub(crate) fn instant_now() -> std::time::Instant {
    std::time::Instant::now()
}

/// Relies on `std::time::Instant::elapsed` (converted to whole microseconds,
/// saturating on overflow of `u64`); the reading depends on the machine's
/// clock, so nothing is assumed of it.
#[verifier::external_body]
pub(crate) fn elapsed_micros(start: &std::time::Instant) -> u64 {
    u64::try_from(start.elapsed().as_micros()).unwrap_or(u64::MAX)
}

} // verus!
