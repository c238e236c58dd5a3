//! A typed finite-state-machine runtime: states exchange inbound and outbound
//! messages, a driver steps one machine through its protocol, and an
//! orchestrator routes inbound messages to machines by identifier.

pub mod message;
pub mod message_channel;
pub mod protocol;
pub mod state;
pub mod state_machine;
pub mod state_machine_orchestrator;
