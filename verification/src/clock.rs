//! The time a search may take.
use vstd::prelude::*;

verus! {

/// A moment of the machine's steady clock: `std::time::Instant`.
#[verifier::external_type_specification]
#[verifier::external_body]
pub struct ExInstant(std::time::Instant);

/// Measures the time since it was started against a limit.
pub struct Stopwatch {
    pub started: std::time::Instant,
    /// The limit in milliseconds.
    pub limit: u64,
}

/// Calls `std::time::Instant::now`. Nothing is claimed of the moment it
/// gives.
#[verifier::external_body]
fn now() -> (r: std::time::Instant) {
    std::time::Instant::now()
}

/// Calls `std::time::Instant::elapsed`. Nothing is claimed of the time it
/// gives.
#[verifier::external_body]
fn time_since(started: &std::time::Instant) -> (r: std::time::Duration) {
    started.elapsed()
}

/// Calls `std::time::Duration::as_millis`. Nothing is claimed of the
/// number it gives.
#[verifier::external_body]
fn whole_millis(time: &std::time::Duration) -> (r: u128) {
    time.as_millis()
}

/// Whether a limit is spent when `elapsed` has passed: a limit of
/// nothing is spent at once.
pub fn over_budget(elapsed: u128, limit: u64) -> (r: bool)
    ensures
        r == (elapsed >= limit),
{
    elapsed >= limit as u128
}

impl Stopwatch {
    /// Starts a stopwatch with a limit in seconds.
    pub fn start(seconds: u32) -> (w: Stopwatch)
        ensures
            w.limit == seconds * 1000,
    {
        Stopwatch { started: now(), limit: seconds as u64 * 1000 }
    }

    /// Whether the limit is spent: `over_budget` of the whole milliseconds
    /// that the clock says have passed since the start. Where the limit is
    /// nothing it is spent whatever the clock says; for every other limit
    /// the clock decides.
    pub fn expired(&self) -> (r: bool)
        ensures
            self.limit == 0 ==> r,
    {
        let time = time_since(&self.started);
        over_budget(whole_millis(&time), self.limit)
    }
}

} // verus!
