//! The bookkeeping that the network keeps for each validator.

use crate::message::Message;
use crate::types::ValidatorId;
use std::fmt::Debug;
use vstd::prelude::*;

verus! {

/// A validator in the test network: who it is, whether it is meant to
/// misbehave, what it has finalized, received and produced so far, and its
/// instance of the consensus protocol.
///
/// The network keeps the three histories and never looks into the
/// consensus instance.
pub struct Validator<C, M: Clone + Debug, D> {
    pub id: ValidatorId,
    /// Whether the validator should produce equivocations.
    pub is_faulty: bool,
    /// The consensus values that the validator has finalized, oldest first.
    finalized_values: Vec<C>,
    /// The messages that the validator has received, oldest first.
    messages_received: Vec<Message<M>>,
    /// The payloads that the validator has produced, oldest first.
    messages_produced: Vec<M>,
    /// The instance of the consensus protocol.
    pub consensus: D,
}

/// What a validator is, as plain values: the histories as sequences, oldest
/// entry first.
pub struct ValidatorView<C, M: Clone + Debug, D> {
    pub id: ValidatorId,
    pub is_faulty: bool,
    pub finalized: Seq<C>,
    pub received: Seq<Message<M>>,
    pub produced: Seq<M>,
    pub consensus: D,
}

impl<C, M: Clone + Debug, D> View for Validator<C, M, D> {
    type V = ValidatorView<C, M, D>;

    closed spec fn view(&self) -> ValidatorView<C, M, D> {
        ValidatorView {
            id: self.id,
            is_faulty: self.is_faulty,
            finalized: self.finalized_values@,
            received: self.messages_received@,
            produced: self.messages_produced@,
            consensus: self.consensus,
        }
    }
}

impl<C, M: Clone + Debug, D> Validator<C, M, D> {
    /// A validator that has not yet finalized, received or produced anything.
    pub fn new(id: ValidatorId, is_faulty: bool, consensus: D) -> (v: Self)
        ensures
            v@ == (ValidatorView {
                id,
                is_faulty,
                finalized: Seq::<C>::empty(),
                received: Seq::<Message<M>>::empty(),
                produced: Seq::<M>::empty(),
                consensus,
            }),
    {
        Validator {
            id,
            is_faulty,
            finalized_values: Vec::new(),
            messages_received: Vec::new(),
            messages_produced: Vec::new(),
            consensus,
        }
    }

    pub fn is_faulty(&self) -> (faulty: bool)
        ensures
            faulty == self@.is_faulty,
    {
        self.is_faulty
    }

    pub fn validator_id(&self) -> (id: ValidatorId)
        ensures
            id == self@.id,
    {
        self.id
    }

    /// Appends `finalized_values`, in their order, to what the validator
    /// has finalized. Nothing else changes.
    pub fn push_finalized(&mut self, finalized_values: Vec<C>)
        ensures
            final(self)@ == (ValidatorView {
                finalized: old(self)@.finalized + finalized_values@,
                ..old(self)@
            }),
    {
        let mut values = finalized_values;
        self.finalized_values.append(&mut values);
    }

    /// Appends `messages`, in their order, to what the validator has
    /// received. Nothing else changes.
    pub fn push_messages_received(&mut self, messages: Vec<Message<M>>)
        ensures
            final(self)@ == (ValidatorView {
                received: old(self)@.received + messages@,
                ..old(self)@
            }),
    {
        let mut messages = messages;
        self.messages_received.append(&mut messages);
    }

    /// Appends `messages`, in their order, to what the validator has
    /// produced. Nothing else changes.
    pub fn push_messages_produced(&mut self, messages: Vec<M>)
        ensures
            final(self)@ == (ValidatorView {
                produced: old(self)@.produced + messages@,
                ..old(self)@
            }),
    {
        let mut messages = messages;
        self.messages_produced.append(&mut messages);
    }

    /// The consensus values finalized by the validator, oldest first.
    pub fn finalized_values(&self) -> (values: &Vec<C>)
        ensures
            values@ == self@.finalized,
    {
        &self.finalized_values
    }

    /// The messages received by the validator, oldest first.
    pub fn messages_received(&self) -> (messages: &Vec<Message<M>>)
        ensures
            messages@ == self@.received,
    {
        &self.messages_received
    }

    /// The payloads produced by the validator, oldest first.
    pub fn messages_produced(&self) -> (messages: &Vec<M>)
        ensures
            messages@ == self@.produced,
    {
        &self.messages_produced
    }

    pub fn finalized_count(&self) -> (count: usize)
        ensures
            count == self@.finalized.len(),
    {
        self.finalized_values.len()
    }
}

} // verus!
