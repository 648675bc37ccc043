use vstd::prelude::*;
use crate::types::BlockHash;

verus! {

/// The failure taxonomy of one reconciliation cycle.
///
/// The verified core produces `NotFound`, `ReorgTooDeep` and
/// `StoreConstraintViolation`; `NodeUnavailable` and `StoreUnavailable`
/// stand for transport failures that the surrounding runtime maps onto
/// this type when a node or mirror call cannot be completed.
#[derive(Debug)]
pub enum SyncError {
    /// The node could not be reached; recoverable, retry next cycle.
    NodeUnavailable,
    /// The named header is absent from the node view; recoverable,
    /// treated as a reorg signal.
    NotFound(BlockHash),
    /// No common ancestor within the configured walk-back depth; fatal,
    /// the cycle must never guess a wrong fork point.
    ReorgTooDeep,
    /// The mirror could not be reached; recoverable, retry next cycle.
    StoreUnavailable,
    /// A plan contradicts the mirror's chain invariant; fatal, indicates
    /// a modeling bug.
    StoreConstraintViolation,
}

} // verus!
