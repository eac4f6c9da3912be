//! A small stopwatch for ad-hoc performance notes.

use vstd::prelude::*;

verus! {

/// A point in time, opaque to verification.
#[verifier::external_type_specification]
#[verifier::external_body]
pub struct ExInstant(std::time::Instant);

/// The present moment.
///
/// Relies on `Instant::now`; nothing can be promised of the value.
#[verifier::external_body]
fn instant_now() -> std::time::Instant {
    std::time::Instant::now()
}

/// A stopwatch started at creation, with a description that can grow.
#[derive(Debug)]
pub struct QuickTimer {
    /// When the stopwatch started.
    pub start: std::time::Instant,
    /// What the timer measures.
    pub description: String,
}

impl QuickTimer {
    /// Starts a stopwatch with a description.
    pub fn new(description: &str) -> (r: QuickTimer)
        ensures
            r.description@ == description@,
    {
        QuickTimer { start: instant_now(), description: description.to_owned() }
    }

    /// Appends to the description.
    pub fn add_info(&mut self, info: &str)
        ensures
            final(self).description@ == old(self).description@ + info@,
    {
        self.description.append(info);
    }

    /// How many milliseconds have passed since the start.
    ///
    /// Relies on `Instant::elapsed`; the value depends on the clock, so
    /// nothing is promised of it.
    #[verifier::external_body]
    pub fn elapsed_millis(&self) -> u128 {
        self.start.elapsed().as_millis()
    }
}

} // verus!
