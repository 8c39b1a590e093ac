//! The search budget: a wall-clock ceiling and a match-count ceiling
//! shared across one search invocation.
//!
//! Once either ceiling is crossed, traversal stops cooperatively: the
//! routines consult the budget before doing further work. The clock is
//! outside the model, so nothing is promised about when time runs out;
//! what is promised is that a budget that reports room to continue has
//! not reached its match ceiling.

use vstd::prelude::*;
use std::time::Instant;

verus! {

/// The moment a search started, measured by the standard library's
/// monotone clock. The value is opaque: nothing is assumed about it.
#[verifier::external_type_specification]
#[verifier::external_body]
pub struct ExInstant(Instant);

/// Relies on `std::time::Instant::now`: an opaque reading of the
/// monotone clock. Nothing is promised about the value.
pub assume_specification[ Instant::now ]() -> Instant;

/// Relies on `std::time::Instant::elapsed`: the time since `start`, in
/// whole milliseconds, saturated into a `u64`. The clock is outside the
/// model, so nothing is promised about the value.
#[verifier::external_body]
fn elapsed_millis(start: &Instant) -> u64 {
    u64::try_from(start.elapsed().as_millis()).unwrap_or(u64::MAX)
}

/// Stop after this many matches have been recorded.
pub const MAX_MATCHES: usize = 20;

/// Stop exploring after this many milliseconds.
pub const MAX_SEARCH_TIME_MS: u64 = 500;

/// Per-invocation budget: the start instant, the two ceilings, and how
/// many matches have been recorded so far.
pub struct SearchContext {
    pub start_time: Instant,
    pub max_matches: usize,
    pub max_time: u64,
    pub current_matches: usize,
}

impl SearchContext {
    /// A fresh budget: the clock starts now, no match recorded yet.
    pub fn new() -> (r: Self)
        ensures
            r.current_matches == 0,
            r.max_matches == MAX_MATCHES,
            r.max_time == MAX_SEARCH_TIME_MS,
    {
        SearchContext {
            start_time: Instant::now(),
            max_matches: MAX_MATCHES,
            max_time: MAX_SEARCH_TIME_MS,
            current_matches: 0,
        }
    }

    /// Whether traversal may go on. Time is outside the model, so only
    /// one direction is promised: a budget that says to continue has
    /// room for more matches.
    pub fn should_continue(&self) -> (r: bool)
        ensures
            r ==> self.current_matches < self.max_matches,
    {
        self.current_matches < self.max_matches
            && elapsed_millis(&self.start_time) < self.max_time
    }

    /// Whether the time ceiling alone has not yet been crossed. Used by
    /// the exhaustive walk, which bounds its work by time only so that
    /// it finds all matches of a known-good directory. Time is outside
    /// the model, so nothing is promised about the answer.
    pub fn time_remaining(&self) -> bool {
        elapsed_millis(&self.start_time) <= self.max_time
    }

    /// Records one more match. The count saturates rather than wrap,
    /// so recording is always permitted.
    pub fn add_match(&mut self)
        ensures
            budget_advanced(*old(self), *final(self), 1),
    {
        if self.current_matches < usize::MAX {
            self.current_matches = self.current_matches + 1;
        }
    }
}

/// How a walk leaves the budget behind: the ceilings and the start
/// instant untouched, and the match count advanced by exactly
/// `appended` recorded matches (saturating at the machine limit).
pub open spec fn budget_advanced(before: SearchContext, after: SearchContext, appended: int)
    -> bool {
    &&& appended >= 0
    &&& after.max_matches == before.max_matches
    &&& after.max_time == before.max_time
    &&& after.start_time == before.start_time
    &&& after.current_matches == if before.current_matches + appended <= usize::MAX as int {
        before.current_matches + appended
    } else {
        usize::MAX as int
    }
}

/// Advancing the budget twice advances it by the sum.
pub proof fn lemma_budget_advanced_trans(
    a: SearchContext,
    b: SearchContext,
    c: SearchContext,
    k1: int,
    k2: int,
)
    requires
        budget_advanced(a, b, k1),
        budget_advanced(b, c, k2),
    ensures
        budget_advanced(a, c, k1 + k2),
{
}

} // verus!
