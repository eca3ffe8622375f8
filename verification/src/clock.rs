use vstd::prelude::*;

verus! {

#[verifier::external_type_specification]
#[verifier::external_body]
pub struct ExInstant(std::time::Instant);

/// Relies on std's `Instant::now`: a reading of the monotonic clock.  The
/// value depends on the moment of the call, so nothing is promised of it.
#[verifier::external_body]
pub fn instant_now() -> (t: std::time::Instant) {
    std::time::Instant::now()
}

/// Relies on std's `Instant::elapsed`: the time since `start`, here in
/// milliseconds.  The value depends on the moment of the call, so nothing is
/// promised of it.
#[verifier::external_body]
pub fn elapsed_millis(start: &std::time::Instant) -> (ms: u64) {
    let full = start.elapsed().as_millis();
    full as u64
}

} // verus!
