//! The two hash functions that the pipeline takes from the alloy crates.
//!
//! Neither is written out here. Each result has a name, and the contracts of
//! the library say which bytes were hashed.

use vstd::prelude::*;

verus! {

/// The Keccak-256 digest of `data`.
pub uninterp spec fn keccak256_digest(data: Seq<u8>) -> [u8; 32];

/// The versioned hash that EIP-4844 derives from a KZG commitment.
pub uninterp spec fn versioned_hash(commitment: [u8; 48]) -> [u8; 32];

/// Calls `alloy_primitives::keccak256`. Trusted: the 32 bytes that come back
/// are the Keccak-256 digest of `data`, and depend on nothing else.
#[verifier::external_body]
pub(crate) fn keccak256(data: &[u8]) -> (digest: [u8; 32])
    ensures
        digest == keccak256_digest(data@),
{
    alloy_primitives::keccak256(data).0
}

/// Calls `alloy_eips::eip4844::kzg_to_versioned_hash`. Trusted: the 32 bytes
/// that come back are the versioned hash of the 48-byte `commitment`, and
/// depend on nothing else.
#[verifier::external_body]
pub(crate) fn kzg_to_versioned_hash(commitment: &[u8; 48]) -> (hash: [u8; 32])
    ensures
        hash == versioned_hash(*commitment),
{
    alloy_eips::eip4844::kzg_to_versioned_hash(commitment.as_slice()).0
}

} // verus!
