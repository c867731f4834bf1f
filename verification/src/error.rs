//! The errors of the derivation.

use vstd::prelude::*;

verus! {

/// Why no transaction set was derived from a submission.
#[derive(Clone, Debug, PartialEq, Eq)]
pub enum DeriveError {
    /// The payload of a blob-carrying transaction is no list of versioned
    /// hashes.
    MalformedReference,
    /// The blobs that were found do not fill the list of expected hashes.
    IncompleteBatch,
    /// The blobs of the batch hold no payload that can be read.
    MalformedBlobs,
    /// The batch does not have the digest that the submission announced.
    IntegrityMismatch { expected: [u8; 32], actual: [u8; 32] },
    /// The batch is no list of signed transactions.
    MalformedTransactionList,
    /// The signer of the transaction at this place of the set cannot be
    /// recovered.
    SignerRecoveryFailure { index: usize },
}

} // verus!
