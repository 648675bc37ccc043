//! A chain-indexing synchronizer.
//!
//! The crate keeps a local mirror of a blockchain consistent with the
//! canonical chain served by a node.  Each reconciliation cycle compares
//! the mirror's tip with the node's best hash, walks backward to the fork
//! point, and applies the minimal rollback-and-extend plan, atomically.

pub mod errors;
pub mod laws;
pub mod node;
pub mod plan;
pub mod store;
pub mod sync;
pub mod types;
