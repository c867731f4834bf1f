//! Derivation pipeline of the UniFi rollup.
//!
//! The crate turns finality notifications of the base chain into the rollup's
//! own transaction batches: it decodes the rollup contract's logs, rebuilds
//! each submitted batch from the transaction that carried it (or from its
//! blobs), checks the batch against its digest, and keeps the per-chain
//! sequencing rule that the rollup contract enforces on chain.

pub mod avs;
pub mod blob;
pub mod chain;
pub mod codec;
pub mod derive;
pub mod digest;
pub mod error;
pub mod event;
pub mod lookup;
pub mod primitives;
pub mod rollup;
pub mod sequence;
pub mod store;
