//! The wall-clock readings behind the advisory time budget.

use vstd::prelude::*;

verus! {

/// Declares std::time::Instant for use in signatures: an opaque reading of
/// the monotonic clock.
#[verifier::external_type_specification]
#[verifier::external_body]
pub struct ExInstant(std::time::Instant);

/// Relies on std::time::Instant::now: an opaque reading of the monotonic clock.
#[verifier::external_body]
pub(crate) fn clock_now() -> std::time::Instant {
    std::time::Instant::now()
}

/// Relies on std::time::Instant::elapsed: the time since `start`. Nothing is
/// assumed of its value; every budget decision must hold whatever comes back.
#[verifier::external_body]
pub(crate) fn clock_elapsed(start: &std::time::Instant) -> core::time::Duration {
    start.elapsed()
}

/// Relies on core::time::Duration::as_millis: the duration in whole
/// milliseconds. Nothing is assumed of its value.
#[verifier::external_body]
pub(crate) fn duration_millis(d: &core::time::Duration) -> u128 {
    d.as_millis()
}

/// Milliseconds elapsed since `start`, as the budget checks and the per-tile
/// timings read them.
pub(crate) fn elapsed_ms(start: &std::time::Instant) -> u128 {
    let d = clock_elapsed(start);
    duration_millis(&d)
}

/// The advisory budget check: whether elapsed wall-clock time has reached the
/// limit. A limit of zero is exceeded before the first tile, whatever the
/// clock returns.
pub(crate) fn budget_exceeded(start: &std::time::Instant, time_limit_ms: u64) -> (r: bool)
    ensures
        time_limit_ms == 0 ==> r,
{
    elapsed_ms(start) >= time_limit_ms as u128
}

} // verus!
