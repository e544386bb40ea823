//! The chain monitor snapshot: opaque recovery data that lets a restarted
//! process detect a counterparty broadcasting an outdated channel state.
//!
//! The store keeps a single snapshot and overwrites it whole on every
//! persist; no history is retained, because the snapshot is a
//! point-in-time recomputable watch-state, not an audit log.

use vstd::prelude::*;

verus! {

/// A point-in-time snapshot of the chain watch state, carried as opaque
/// bytes.
#[derive(Debug, Clone, PartialEq, Eq)]
pub struct ChainMonitor {
    /// The serialized watch state.
    pub data: Vec<u8>,
}

} // verus!
