//! The time budget of a search: a stopwatch, and the rule by which the
//! search looks at it.
use core::time::Duration;
use vstd::prelude::*;
use wasm_timer::Instant;

verus! {

/// `wasm_timer::Instant`, a moment on a clock that does not run backwards.
/// Nothing is known of what it holds.
#[verifier::external_type_specification]
#[verifier::external_body]
pub struct ExInstant(Instant);

/// The number of rounds of a search between two looks at the clock.
pub const POLL_EVERY: i32 = 50;

/// `Instant::now` reads the clock. Nothing is claimed of the result.
#[verifier::external_body]
fn read_clock() -> Instant {
    Instant::now()
}

/// `Instant::elapsed` gives the time that has passed since the instant.
/// Nothing is claimed of the result.
#[verifier::external_body]
fn time_since(start: &Instant) -> Duration {
    start.elapsed()
}

/// `Duration::as_millis` gives the whole milliseconds of a span of time.
/// Nothing is claimed of the result, since nothing is known of the span.
#[verifier::external_body]
fn whole_milliseconds(span: &Duration) -> u128 {
    span.as_millis()
}

/// A stopwatch that runs from the moment of its making.
pub struct Stopwatch {
    pub start: Instant,
}

impl Stopwatch {
    /// A stopwatch that runs from now.
    pub fn start() -> Self {
        Stopwatch { start: read_clock() }
    }

    /// The milliseconds since the stopwatch was started.
    pub fn elapsed_millis(&self) -> u128 {
        let span = time_since(&self.start);
        whole_milliseconds(&span)
    }
}

/// Whether the search looks at the clock after `count` rounds: after every
/// fiftieth. It never does so before a round is done.
pub fn poll_due(count: i32) -> (due: bool)
    requires
        count >= 0,
    ensures
        due == (count % 50 == 0),
{
    count % POLL_EVERY == 0
}

/// Whether a budget of `budget` milliseconds is spent after `elapsed`
/// milliseconds.
pub fn budget_spent(elapsed: u128, budget: u128) -> (spent: bool)
    ensures
        spent == (elapsed >= budget),
{
    elapsed >= budget
}

} // verus!
