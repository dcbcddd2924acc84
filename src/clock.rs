//! Wall-clock budgets for the time-boxed search phases.
use vstd::prelude::*;

verus! {

#[verifier::external_type_specification]
#[verifier::external_body]
pub struct ExInstant(std::time::Instant);

/// Relies on std::time::Instant::now: a reading of the monotonic clock.
#[verifier::external_body]
fn clock_now() -> (r: std::time::Instant) {
    std::time::Instant::now()
}

/// Relies on std::time::Instant::elapsed: whole milliseconds since `start`,
/// saturated to `u64::MAX`. It depends on the clock, so nothing is promised.
#[verifier::external_body]
fn elapsed_ms(start: &std::time::Instant) -> (r: u64) {
    u64::try_from(start.elapsed().as_millis()).unwrap_or(u64::MAX)
}

/// Whether `elapsed_ms` milliseconds use up a budget of `budget_ms`.
pub fn budget_used(elapsed_ms: u64, budget_ms: u64) -> (r: bool)
    ensures
        r == (elapsed_ms >= budget_ms),
{
    elapsed_ms >= budget_ms
}

/// A point in time after which a search stops early and returns its best
/// result so far; or no limit at all.
pub struct Deadline {
    start: Option<std::time::Instant>,
    budget_ms: u64,
}

impl Deadline {
    /// Whether this deadline never expires.
    pub closed spec fn is_unlimited(&self) -> bool {
        self.start is None
    }

    /// A deadline that never expires.
    pub fn unlimited() -> (r: Self)
        ensures
            r.is_unlimited(),
    {
        Deadline { start: None, budget_ms: 0 }
    }

    /// A deadline `budget_ms` milliseconds from now.
    pub fn after_ms(budget_ms: u64) -> (r: Self)
        ensures
            !r.is_unlimited(),
    {
        Deadline { start: Some(clock_now()), budget_ms }
    }

    /// Whether the budget is used up; never for an unlimited deadline.
    pub fn expired(&self) -> (r: bool)
        ensures
            self.is_unlimited() ==> !r,
    {
        match &self.start {
            None => false,
            Some(s) => budget_used(elapsed_ms(s), self.budget_ms),
        }
    }
}

} // verus!
