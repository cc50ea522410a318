//! A deterministic discrete-event network for exercising consensus protocols.
//!
//! Validators exchange messages over a virtual network. The network owns a
//! registry of validators, a queue of scheduled deliveries that always yields
//! the earliest one first, and a delivery strategy that may delay or drop each
//! message on its way to each recipient.

pub mod types;
pub mod message;
pub mod strategy;
pub mod queue;
pub mod validator;
pub mod registry;
pub mod net;
