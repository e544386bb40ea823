//! Crash-consistent persistence engine for oracle-settled contract and
//! channel lifecycles: a tagged record codec, the contract and channel
//! lifecycle state machines, and a sled-backed store committing every
//! logical transition atomically.

pub mod chain_monitor;
pub mod channel;
pub mod codec;
pub mod contract;
pub mod error;
pub mod laws;
pub mod store;

