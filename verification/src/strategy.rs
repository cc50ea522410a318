//! Delivery schedules and the strategies that choose them.

use crate::types::Timestamp;
use vstd::prelude::*;

verus! {

/// What becomes of one message on its way to one recipient.
#[derive(Debug, Clone, Copy, PartialEq, Eq, Structural)]
pub enum DeliverySchedule {
    /// The message is delivered at this instant.
    AtInstant(Timestamp),
    /// The message is lost.
    Drop,
}

impl DeliverySchedule {
    /// Delivery at `instant`.
    pub fn at(instant: Timestamp) -> (s: DeliverySchedule)
        ensures
            s == DeliverySchedule::AtInstant(instant),
    {
        DeliverySchedule::AtInstant(instant)
    }

    /// The loss of a message that was to be delivered at `_instant`.
    pub fn drop(_instant: Timestamp) -> (s: DeliverySchedule)
        ensures
            s == DeliverySchedule::Drop,
    {
        DeliverySchedule::Drop
    }
}

impl From<Timestamp> for DeliverySchedule {
    fn from(timestamp: Timestamp) -> (s: DeliverySchedule) {
        DeliverySchedule::at(timestamp)
    }
}

impl vstd::std_specs::convert::FromSpecImpl<Timestamp> for DeliverySchedule {
    open spec fn obeys_from_spec() -> bool {
        true
    }

    open spec fn from_spec(timestamp: Timestamp) -> DeliverySchedule {
        DeliverySchedule::AtInstant(timestamp)
    }
}

impl From<u64> for DeliverySchedule {
    fn from(instant: u64) -> (s: DeliverySchedule) {
        DeliverySchedule::at(Timestamp(instant))
    }
}

impl vstd::std_specs::convert::FromSpecImpl<u64> for DeliverySchedule {
    open spec fn obeys_from_spec() -> bool {
        true
    }

    open spec fn from_spec(instant: u64) -> DeliverySchedule {
        DeliverySchedule::AtInstant(Timestamp(instant))
    }
}

/// A source of random numbers, handed explicitly to every operation that may
/// need one. Nothing is promised of the numbers.
pub trait RandomSource {
    fn next_u64(&mut self) -> u64;
}

/// A policy that may change a value on its way through the network, with the
/// help of a random source: delay a delivery, drop it, or leave it alone.
///
/// The outcome may depend on the arguments and on the state of the random
/// source only, so that a run can be repeated from its seed.
pub trait Strategy<Item> {
    /// Whether the strategy may turn `proposed` into `outcome`. The outcome
    /// may depend on the random source, so this is a relation. A strategy
    /// that does not say what it allows is taken to allow anything.
    open spec fn allows(&self, proposed: Item, outcome: Item) -> bool {
        true
    }

    fn map<R: RandomSource>(&self, rng: &mut R, i: Item) -> (outcome: Item)
        ensures
            self.allows(i, outcome),
    ;
}

/// The strategy that changes nothing.
pub struct NoOpDelay;

impl<Item> Strategy<Item> for NoOpDelay {
    open spec fn allows(&self, proposed: Item, outcome: Item) -> bool {
        outcome == proposed
    }

    fn map<R: RandomSource>(&self, rng: &mut R, i: Item) -> (outcome: Item) {
        i
    }
}

} // verus!
