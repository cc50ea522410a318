//! Messages and the way they are addressed.

use crate::types::ValidatorId;
use std::fmt::Debug;
use vstd::prelude::*;

verus! {

/// The recipients of a message.
#[derive(Debug, Clone, Copy, PartialEq, Eq, Structural)]
pub enum Target {
    /// Exactly one validator.
    SingleValidator(ValidatorId),
    /// Every validator that is registered when the message is dispatched.
    All,
}

/// A payload together with the validator that sent it.
///
/// The network never looks into the payload.
#[derive(Debug, PartialEq, Eq)]
pub struct Message<M: Clone + Debug> {
    pub sender: ValidatorId,
    pub payload: M,
}

impl<M: Clone + Debug> Message<M> {
    /// Whether `self` may be what cloning `source` gives: the same sender,
    /// and a payload that is a clone of the payload of `source`.
    pub open spec fn is_copy_of(self, source: Self) -> bool {
        &&& self.sender == source.sender
        &&& cloned(source.payload, self.payload)
    }

    pub fn new(sender: ValidatorId, payload: M) -> (m: Self)
        ensures
            m.sender == sender,
            m.payload == payload,
    {
        Message { sender, payload }
    }

    pub fn payload(&self) -> (p: &M)
        ensures
            *p == self.payload,
    {
        &self.payload
    }
}

impl<M: Clone + Debug> Clone for Message<M> {
    fn clone(&self) -> (copy: Self)
        ensures
            copy.is_copy_of(*self),
    {
        Message { sender: self.sender, payload: self.payload.clone() }
    }
}

/// A message on its way out: what is sent, and to whom.
pub struct TargetedMessage<M: Clone + Debug> {
    pub message: Message<M>,
    pub target: Target,
}

impl<M: Clone + Debug> TargetedMessage<M> {
    pub fn new(message: Message<M>, target: Target) -> (t: Self)
        ensures
            t.message == message,
            t.target == target,
    {
        TargetedMessage { message, target }
    }
}

} // verus!
