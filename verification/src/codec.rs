//! The decoders that the pipeline takes from the alloy crates: RLP lists,
//! the payload of blobs, and signed transactions.
//!
//! None of them is written out here. What each returns depends on the bytes
//! it is given and on nothing else, so each result has a name, and the
//! contracts of the library say which bytes were decoded.

use crate::blob::BYTES_PER_BLOB;
use alloy_consensus::transaction::SignerRecoverable;
use alloy_consensus::Transaction;
use alloy_eips::eip2718::{Decodable2718, Encodable2718};
use alloy_eips::eip4844::builder::SidecarCoder;
use alloy_rlp::Decodable;
use vstd::prelude::*;

verus! {

/// The error of an RLP decoder.
#[verifier::external_type_specification]
#[verifier::external_body]
pub struct ExRlpError(alloy_rlp::Error);

/// The error of a signer recovery.
#[verifier::external_type_specification]
#[verifier::external_body]
pub struct ExRecoveryError(alloy_consensus::crypto::RecoveryError);

/// The 32-byte strings of the RLP list at the head of `data`, if there is
/// one.
pub uninterp spec fn rlp_hash_list(data: Seq<u8>) -> Option<Seq<[u8; 32]>>;

/// The byte strings that the simple blob coding has laid into `blobs`, if
/// the blobs hold such a coding.
pub uninterp spec fn blob_payloads(blobs: Seq<Seq<u8>>) -> Option<Seq<Seq<u8>>>;

/// The signed transactions of the RLP list at the head of `data`, each in
/// its EIP-2718 encoding, if there is such a list.
pub uninterp spec fn transaction_list(data: Seq<u8>) -> Option<Seq<Seq<u8>>>;

/// The chain id that the transaction with the EIP-2718 encoding `encoded`
/// is bound to, if `encoded` is a transaction and is bound to one.
pub uninterp spec fn transaction_chain_id(encoded: Seq<u8>) -> Option<u64>;

/// The address that signed the transaction with the EIP-2718 encoding
/// `encoded`, if `encoded` is a transaction with a sound signature.
pub uninterp spec fn transaction_signer(encoded: Seq<u8>) -> Option<[u8; 20]>;

/// The byte strings of `items`.
pub open spec fn byte_views(items: Seq<Vec<u8>>) -> Seq<Seq<u8>> {
    Seq::new(items.len(), |i: int| items[i]@)
}

/// Calls `Vec::<B256>::decode` of alloy_rlp on `data`. Trusted: it fails or
/// returns the list of 32-byte strings that stands at the head of `data`,
/// and which of the two depends on `data` alone.
#[verifier::external_body]
pub(crate) fn decode_hash_list(data: &[u8]) -> (r: Result<Vec<[u8; 32]>, alloy_rlp::Error>)
    ensures
        match r {
            Ok(hashes) => rlp_hash_list(data@) == Some(hashes@),
            Err(_) => rlp_hash_list(data@).is_none(),
        },
{
    let mut buf = data;
    let hashes = Vec::<alloy_primitives::B256>::decode(&mut buf)?;
    Ok(hashes.into_iter().map(|h| h.0).collect())
}

/// Calls `SimpleCoder::decode_all` of alloy_eips on `blobs`, each turned into
/// a `Blob` by `FixedBytes::from_slice`, which takes no other length than
/// that of a blob. Trusted: it fails or returns the byte strings that were
/// laid into the blobs, and which of the two depends on the blobs alone.
#[verifier::external_body]
pub(crate) fn decode_blobs(blobs: &Vec<Vec<u8>>) -> (r: Option<Vec<Vec<u8>>>)
    requires
        forall|i: int| 0 <= i < blobs@.len() ==> (#[trigger] blobs@[i])@.len() == BYTES_PER_BLOB,
    ensures
        match r {
            Some(chunks) => blob_payloads(byte_views(blobs@)) == Some(byte_views(chunks@)),
            None => blob_payloads(byte_views(blobs@)).is_none(),
        },
{
    let fixed: Vec<alloy_eips::eip4844::Blob> =
        blobs.iter().map(|b| alloy_eips::eip4844::Blob::from_slice(b)).collect();
    alloy_eips::eip4844::builder::SimpleCoder::default().decode_all(&fixed)
}

/// Calls `Vec::<TxEnvelope>::decode` of alloy_consensus on `data`, and
/// `encoded_2718` on each transaction that it returns. Trusted: it fails or
/// returns the transactions of the list that stands at the head of `data`,
/// and which of the two depends on `data` alone.
#[verifier::external_body]
pub(crate) fn decode_transaction_list(data: &[u8]) -> (r: Result<Vec<Vec<u8>>, alloy_rlp::Error>)
    ensures
        match r {
            Ok(items) => transaction_list(data@) == Some(byte_views(items@)),
            Err(_) => transaction_list(data@).is_none(),
        },
{
    let mut buf = data;
    let transactions = Vec::<alloy_consensus::TxEnvelope>::decode(&mut buf)?;
    Ok(transactions.iter().map(|tx| tx.encoded_2718()).collect())
}

/// Calls `TxEnvelope::decode_2718` of alloy_consensus on `encoded`, and
/// `Transaction::chain_id` on the transaction that it returns. Trusted: the
/// result depends on `encoded` alone; there is none where `encoded` does not
/// decode.
#[verifier::external_body]
pub(crate) fn chain_id_of(encoded: &[u8]) -> (r: Option<u64>)
    ensures
        r == transaction_chain_id(encoded@),
{
    let mut buf = encoded;
    alloy_consensus::TxEnvelope::decode_2718(&mut buf).ok().and_then(|tx| tx.chain_id())
}

/// Calls `TxEnvelope::decode_2718` of alloy_consensus on `encoded`, and
/// `SignerRecoverable::recover_signer` on the transaction that it returns.
/// Trusted: it fails or returns the signer's address, and which of the two
/// depends on `encoded` alone; it fails where `encoded` does not decode.
#[verifier::external_body]
pub(crate) fn recover_signer_of(encoded: &[u8]) -> (r: Result<
    [u8; 20],
    alloy_consensus::crypto::RecoveryError,
>)
    ensures
        match r {
            Ok(signer) => transaction_signer(encoded@) == Some(signer),
            Err(_) => transaction_signer(encoded@).is_none(),
        },
{
    let mut buf = encoded;
    let tx = alloy_consensus::TxEnvelope::decode_2718(&mut buf).map_err(
        alloy_consensus::crypto::RecoveryError::from_source,
    )?;
    tx.recover_signer().map(|address| address.into_array())
}

} // verus!
