//! Recording helpers for the instrumentation side: a timestamp base for
//! elapsed-time measurements.
use vstd::prelude::*;

verus! {

#[verifier::external_type_specification]
#[verifier::external_body]
pub struct ExInstant(std::time::Instant);

/// The base instant that elapsed-time measurements are taken against.
pub struct Timestamp {
    pub start: std::time::Instant,
}

impl Timestamp {
    /// A timestamp measuring from the given instant.
    pub fn new(start: std::time::Instant) -> (r: Self)
        ensures
            r.start == start,
    {
        Timestamp { start }
    }
}

} // verus!
