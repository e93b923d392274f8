//! Cooperative cancellation.

use vstd::prelude::*;
use enough::StopReason;

verus! {

/// Why an operation was stopped; see [`StopReason`].
#[verifier::external_type_specification]
#[verifier::external_body]
pub struct ExStopReason(enough::StopReason);

/// A source of cancellation that long operations ask from time to time.
pub trait Stop {
    /// The source is known never to ask for a stop.
    open spec fn never_stops(&self) -> bool {
        false
    }

    /// Check if the operation should stop.
    fn check(&self) -> (r: Result<(), StopReason>)
        ensures
            self.never_stops() ==> r is Ok,
    ;
}

/// A [`Stop`] that never stops.
#[derive(Debug, Clone, Copy, PartialEq, Eq, Hash)]
pub struct Unstoppable;

impl Stop for Unstoppable {
    open spec fn never_stops(&self) -> bool {
        true
    }

    fn check(&self) -> (r: Result<(), StopReason>) {
        Ok(())
    }
}

} // verus!
