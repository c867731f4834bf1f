//! From a submission to the transactions of the rollup: the batch is rebuilt,
//! held against its digest, read as a list of signed transactions, and
//! narrowed to the transactions of one rollup chain, each with its signer.

use crate::blob::{raw_batch, reconstruct_batch, BlobCandidate};
use crate::chain::Transaction;
use crate::codec::{
    byte_views, chain_id_of, decode_transaction_list, recover_signer_of, transaction_chain_id,
    transaction_list, transaction_signer,
};
use crate::digest::{keccak256, keccak256_digest};
use crate::error::DeriveError;
use crate::primitives::{bytes32_eq, read_bytes};
use vstd::prelude::*;

verus! {

/// A signed transaction of a batch with what the decoder says of it.
#[derive(Clone, Debug, PartialEq, Eq)]
pub struct DecodedTransaction {
    /// The EIP-2718 encoding of the transaction.
    pub encoded: Vec<u8>,
    /// The chain that the transaction is bound to, if it is bound to one.
    pub chain_id: Option<u64>,
    /// The signer of the transaction, if its signature gives one.
    pub signer: Option<[u8; 20]>,
}

/// A `DecodedTransaction` with its encoding as a byte string.
pub struct DecodedTransactionView {
    pub encoded: Seq<u8>,
    pub chain_id: Option<u64>,
    pub signer: Option<[u8; 20]>,
}

impl View for DecodedTransaction {
    type V = DecodedTransactionView;

    open spec fn view(&self) -> DecodedTransactionView {
        DecodedTransactionView {
            encoded: self.encoded@,
            chain_id: self.chain_id,
            signer: self.signer,
        }
    }
}

/// A transaction of the rollup with the address that signed it.
#[derive(Clone, Debug, PartialEq, Eq)]
pub struct DerivedTransaction {
    /// The EIP-2718 encoding of the transaction.
    pub encoded: Vec<u8>,
    pub sender: [u8; 20],
}

/// A `DerivedTransaction` with its encoding as a byte string.
pub struct DerivedTransactionView {
    pub encoded: Seq<u8>,
    pub sender: [u8; 20],
}

impl View for DerivedTransaction {
    type V = DerivedTransactionView;

    open spec fn view(&self) -> DerivedTransactionView {
        DerivedTransactionView { encoded: self.encoded@, sender: self.sender }
    }
}

/// The views of `items`.
pub open spec fn decoded_views(items: Seq<DecodedTransaction>) -> Seq<DecodedTransactionView> {
    Seq::new(items.len(), |i: int| items[i]@)
}

/// The views of `set`.
pub open spec fn derived_views(set: Seq<DerivedTransaction>) -> Seq<DerivedTransactionView> {
    Seq::new(set.len(), |i: int| set[i]@)
}

/// Each encoded transaction with its chain id and its signer.
pub open spec fn described(items: Seq<Seq<u8>>) -> Seq<DecodedTransactionView> {
    Seq::new(
        items.len(),
        |i: int|
            DecodedTransactionView {
                encoded: items[i],
                chain_id: transaction_chain_id(items[i]),
                signer: transaction_signer(items[i]),
            },
    )
}

/// The transactions of `items` that are bound to `chain_id`, in their order,
/// each with its signer. A transaction of the chain without a signer spoils
/// the whole list; the error names the place of the first such transaction
/// among `items`.
pub open spec fn retained(items: Seq<DecodedTransactionView>, chain_id: u64) -> Result<
    Seq<DerivedTransactionView>,
    DeriveError,
>
    decreases items.len(),
{
    if items.len() == 0 {
        Ok(Seq::empty())
    } else {
        match retained(items.drop_last(), chain_id) {
            Err(e) => Err(e),
            Ok(set) => {
                let last = items.last();
                if last.chain_id != Some(chain_id) {
                    Ok(set)
                } else {
                    match last.signer {
                        Some(sender) => Ok(
                            set.push(DerivedTransactionView { encoded: last.encoded, sender }),
                        ),
                        None => Err(
                            DeriveError::SignerRecoveryFailure {
                                index: (items.len() - 1) as usize,
                            },
                        ),
                    }
                }
            },
        }
    }
}

/// The transaction set of a raw batch: the batch must have the digest
/// `digest`, must be a list of signed transactions, and each of its
/// transactions that is bound to `chain_id` must have a signer.
pub open spec fn derived_from_raw(raw: Seq<u8>, digest: [u8; 32], chain_id: u64) -> Result<
    Seq<DerivedTransactionView>,
    DeriveError,
> {
    if keccak256_digest(raw) != digest {
        Err(DeriveError::IntegrityMismatch { expected: digest, actual: keccak256_digest(raw) })
    } else {
        match transaction_list(raw) {
            None => Err(DeriveError::MalformedTransactionList),
            Some(items) => retained(described(items), chain_id),
        }
    }
}

/// The transaction set of a submission: that of its raw batch, where the
/// batch can be rebuilt.
pub open spec fn derived(
    blob_carrying: bool,
    candidates: Seq<BlobCandidate>,
    payload: Seq<u8>,
    digest: [u8; 32],
    chain_id: u64,
) -> Result<Seq<DerivedTransactionView>, DeriveError> {
    match raw_batch(blob_carrying, candidates, payload) {
        Err(e) => Err(e),
        Ok(raw) => derived_from_raw(raw, digest, chain_id),
    }
}

/// Asks the decoder for the chain id and the signer of each transaction.
pub fn describe_transactions(items: &Vec<Vec<u8>>) -> (r: Vec<DecodedTransaction>)
    ensures
        decoded_views(r@) == described(byte_views(items@)),
{
    let mut r: Vec<DecodedTransaction> = Vec::new();
    let mut i: usize = 0;
    while i < items.len()
        invariant
            i <= items.len(),
            r.len() == i,
            forall|k: int| 0 <= k < i ==> (#[trigger] r@[k])@ == described(byte_views(items@))[k],
        decreases items.len() - i,
    {
        let item = &items[i];
        let encoded = read_bytes(item.as_slice(), 0, item.len());
        assert(item@.subrange(0, item@.len() as int) == item@);
        let chain_id = chain_id_of(item.as_slice());
        let signer = match recover_signer_of(item.as_slice()) {
            Ok(signer) => Some(signer),
            Err(_) => None,
        };
        r.push(DecodedTransaction { encoded, chain_id, signer });
        i += 1;
    }
    assert(decoded_views(r@) =~= described(byte_views(items@)));
    r
}

/// Keeps the transactions that are bound to `chain_id`, each with its
/// signer.
pub fn retain_for_chain(items: &Vec<DecodedTransaction>, chain_id: u64) -> (r: Result<
    Vec<DerivedTransaction>,
    DeriveError,
>)
    ensures
        match r {
            Ok(set) => retained(decoded_views(items@), chain_id) == Ok::<
                Seq<DerivedTransactionView>,
                DeriveError,
            >(derived_views(set@)),
            Err(e) => retained(decoded_views(items@), chain_id) == Err::<
                Seq<DerivedTransactionView>,
                DeriveError,
            >(e),
        },
{
    let mut set: Vec<DerivedTransaction> = Vec::new();
    let mut i: usize = 0;
    assert(decoded_views(items@).take(0) =~= Seq::<DecodedTransactionView>::empty());
    assert(derived_views(set@) =~= Seq::<DerivedTransactionView>::empty());
    while i < items.len()
        invariant
            i <= items.len(),
            retained(decoded_views(items@).take(i as int), chain_id) == Ok::<
                Seq<DerivedTransactionView>,
                DeriveError,
            >(derived_views(set@)),
        decreases items.len() - i,
    {
        let ghost before = set@;
        proof {
            assert(decoded_views(items@).take(i + 1).drop_last() == decoded_views(items@).take(
                i as int,
            ));
            assert(decoded_views(items@).take(i + 1).last() == items@[i as int]@);
        }
        let item = &items[i];
        let bound = match item.chain_id {
            Some(id) => id == chain_id,
            None => false,
        };
        if bound {
            match item.signer {
                Some(sender) => {
                    let encoded = read_bytes(item.encoded.as_slice(), 0, item.encoded.len());
                    assert(item.encoded@.subrange(0, item.encoded@.len() as int) == item.encoded@);
                    set.push(DerivedTransaction { encoded, sender });
                    assert(derived_views(set@) =~= derived_views(before).push(
                        DerivedTransactionView { encoded: item.encoded@, sender },
                    ));
                },
                None => {
                    proof {
                        lemma_retained_fails_on(decoded_views(items@), i + 1, chain_id);
                        assert(decoded_views(items@).take(items.len() as int) == decoded_views(
                            items@,
                        ));
                    }
                    return Err(DeriveError::SignerRecoveryFailure { index: i });
                },
            }
        }
        i += 1;
    }
    assert(decoded_views(items@).take(items.len() as int) == decoded_views(items@));
    Ok(set)
}

/// Once a part of the list has failed, the whole list fails in the same way.
proof fn lemma_retained_fails_on(items: Seq<DecodedTransactionView>, n: int, chain_id: u64)
    requires
        0 <= n <= items.len(),
        retained(items.take(n), chain_id).is_err(),
    ensures
        retained(items, chain_id) == retained(items.take(n), chain_id),
    decreases items.len() - n,
{
    if n < items.len() {
        assert(items.take(n + 1).drop_last() == items.take(n));
        lemma_retained_fails_on(items, n + 1, chain_id);
    } else {
        assert(items.take(n) == items);
    }
}

/// Reads a raw batch: checks it against `digest`, decodes its transactions,
/// and keeps those of `chain_id` with their signers.
pub fn decode_batch(raw: &[u8], digest: &[u8; 32], chain_id: u64) -> (r: Result<
    Vec<DerivedTransaction>,
    DeriveError,
>)
    ensures
        match r {
            Ok(set) => derived_from_raw(raw@, *digest, chain_id) == Ok::<
                Seq<DerivedTransactionView>,
                DeriveError,
            >(derived_views(set@)),
            Err(e) => derived_from_raw(raw@, *digest, chain_id) == Err::<
                Seq<DerivedTransactionView>,
                DeriveError,
            >(e),
        },
{
    let actual = keccak256(raw);
    if !bytes32_eq(&actual, digest) {
        return Err(DeriveError::IntegrityMismatch { expected: *digest, actual });
    }
    let items = match decode_transaction_list(raw) {
        Ok(items) => items,
        Err(_) => {
            return Err(DeriveError::MalformedTransactionList);
        },
    };
    let decoded = describe_transactions(&items);
    retain_for_chain(&decoded, chain_id)
}

/// Derives the transactions of the rollup chain `chain_id` from a submission.
///
/// `tx` is the transaction that made the submission, `block_data` the payload
/// that it embeds and `block_data_hash` the digest that the submission
/// announced. Where `tx` carries blobs, `blobs` are the blobs that were found
/// for it, and `block_data` names the ones that make up the batch; else
/// `block_data` is the batch itself.
pub fn derive_transactions(
    tx: &Transaction,
    blobs: &Vec<BlobCandidate>,
    block_data: &[u8],
    block_data_hash: &[u8; 32],
    chain_id: u64,
) -> (r: Result<Vec<DerivedTransaction>, DeriveError>)
    ensures
        match r {
            Ok(set) => derived(tx.blob_carrying, blobs@, block_data@, *block_data_hash, chain_id)
                == Ok::<Seq<DerivedTransactionView>, DeriveError>(derived_views(set@)),
            Err(e) => derived(tx.blob_carrying, blobs@, block_data@, *block_data_hash, chain_id)
                == Err::<Seq<DerivedTransactionView>, DeriveError>(e),
        },
{
    let raw = match reconstruct_batch(tx.blob_carrying, blobs, block_data) {
        Ok(raw) => raw,
        Err(e) => {
            return Err(e);
        },
    };
    decode_batch(raw.as_slice(), block_data_hash, chain_id)
}

/// A batch that is rebuilt from blobs gives the transactions that the same
/// bytes give when a transaction embeds them: if the blobs of a submission
/// hold `raw`, its transaction set is that of `raw`.
pub proof fn lemma_blob_batch_is_read_as_raw(
    candidates: Seq<BlobCandidate>,
    payload: Seq<u8>,
    raw: Seq<u8>,
    digest: [u8; 32],
    chain_id: u64,
)
    requires
        raw_batch(true, candidates, payload) == Ok::<Seq<u8>, DeriveError>(raw),
    ensures
        derived(true, candidates, payload, digest, chain_id) == derived(
            false,
            Seq::empty(),
            raw,
            digest,
            chain_id,
        ),
        derived(true, candidates, payload, digest, chain_id) == derived_from_raw(
            raw,
            digest,
            chain_id,
        ),
{
}

/// Only one digest opens a batch: where a submission gives a transaction set
/// with `digest`, it gives none with any other digest, but the error that
/// names both digests.
pub proof fn lemma_other_digest_is_refused(
    blob_carrying: bool,
    candidates: Seq<BlobCandidate>,
    payload: Seq<u8>,
    digest: [u8; 32],
    other: [u8; 32],
    chain_id: u64,
)
    requires
        derived(blob_carrying, candidates, payload, digest, chain_id).is_ok(),
        other != digest,
    ensures
        derived(blob_carrying, candidates, payload, other, chain_id) == Err::<
            Seq<DerivedTransactionView>,
            DeriveError,
        >(DeriveError::IntegrityMismatch { expected: other, actual: digest }),
{
}

/// A transaction set comes only from a batch with the announced digest:
/// where a submission gives a set, its batch was rebuilt, and the Keccak-256
/// digest of the batch is `digest`.
pub proof fn lemma_set_has_the_announced_digest(
    blob_carrying: bool,
    candidates: Seq<BlobCandidate>,
    payload: Seq<u8>,
    digest: [u8; 32],
    chain_id: u64,
)
    requires
        derived(blob_carrying, candidates, payload, digest, chain_id).is_ok(),
    ensures
        raw_batch(blob_carrying, candidates, payload).is_ok(),
        keccak256_digest(raw_batch(blob_carrying, candidates, payload).unwrap()) == digest,
{
}

} // verus!
