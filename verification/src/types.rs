//! Identifiers and logical time.

use vstd::prelude::*;

verus! {

/// A point in logical time, in milliseconds.
#[derive(Debug, Clone, Copy, PartialEq, Eq, Structural, PartialOrd, Ord, Hash)]
pub struct Timestamp(pub u64);

impl Timestamp {
    /// The earliest instant.
    pub fn zero() -> (t: Timestamp)
        ensures
            t.0 == 0,
    {
        Timestamp(0)
    }

    /// The number of milliseconds that this instant stands for.
    pub fn millis(&self) -> (m: u64)
        ensures
            m == self.0,
    {
        self.0
    }
}

impl From<u64> for Timestamp {
    fn from(millis: u64) -> (t: Timestamp) {
        Timestamp(millis)
    }
}

impl vstd::std_specs::convert::FromSpecImpl<u64> for Timestamp {
    open spec fn obeys_from_spec() -> bool {
        true
    }

    open spec fn from_spec(millis: u64) -> Timestamp {
        Timestamp(millis)
    }
}

/// The identity of one validator, fixed for a whole run.
#[derive(Debug, Clone, Copy, PartialEq, Eq, Structural, PartialOrd, Ord, Hash)]
pub struct ValidatorId(pub u64);

} // verus!
