//! The error taxonomy surfaced by the lifecycle engines and the store.

use vstd::prelude::*;

verus! {

/// An error code.
///
/// Variants carry the rendered message of the failing component, so that a
/// caller can distinguish "entity not found" (a valid `None`/empty result,
/// never an error) from "entity malformed" (`StorageError`) from "operation
/// illegal in this phase" (`InvalidState`).
#[derive(Debug, PartialEq, Eq)]
pub enum Error {
    /// A decoded record could not be converted to the internal representation.
    Conversion(String),
    /// An IO error.
    IOError(String),
    /// Some invalid parameters were provided.
    InvalidParameters(String),
    /// An invalid state was encountered, likely to indicate a bug.
    InvalidState(String),
    /// An error occurred in the wallet component.
    WalletError(String),
    /// An error occurred in the blockchain component.
    BlockchainError(String),
    /// The storage component encountered an error.
    StorageError(String),
    /// The oracle component encountered an error.
    OracleError(String),
    /// An error occurred in the DLC library.
    DlcError(String),
    /// An error occurred in the Secp library.
    SecpError(String),
}

} // verus!
