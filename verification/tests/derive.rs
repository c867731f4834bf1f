use alloy_consensus::{SignableTransaction, TxEnvelope, TxLegacy};
use alloy_eips::eip2718::Encodable2718;
use alloy_eips::eip4844::builder::{SidecarBuilder, SimpleCoder};
use alloy_eips::eip4844::kzg_to_versioned_hash;
use alloy_primitives::{keccak256, Address, Signature, TxKind, B256, U256};
use k256::ecdsa::SigningKey;
use unifi_rollup::blob::{
    concatenate, contains_hash, reconstruct_batch, select_blobs, versioned_hashes, BlobCandidate,
    BYTES_PER_BLOB,
};
use unifi_rollup::chain::Transaction;
use unifi_rollup::derive::{
    decode_batch, derive_transactions, describe_transactions, retain_for_chain,
    DecodedTransaction, DerivedTransaction,
};
use unifi_rollup::error::DeriveError;

fn key(n: u8) -> SigningKey {
    SigningKey::from_slice(&[n; 32]).unwrap()
}

fn address_of(n: u8) -> [u8; 20] {
    Address::from_private_key(&key(n)).into_array()
}

fn unsigned(chain_id: Option<u64>, nonce: u64, input: Vec<u8>) -> TxLegacy {
    TxLegacy {
        chain_id,
        nonce,
        gas_price: 1,
        gas_limit: 21000,
        to: TxKind::Call(Address::ZERO),
        value: U256::from(nonce),
        input: input.into(),
    }
}

fn signed(chain_id: Option<u64>, nonce: u64, signer: u8, input: Vec<u8>) -> TxEnvelope {
    let tx = unsigned(chain_id, nonce, input);
    let hash = tx.signature_hash();
    let (signature, recovery) = key(signer).sign_prehash_recoverable(hash.as_slice()).unwrap();
    TxEnvelope::Legacy(tx.into_signed(Signature::from((signature, recovery))))
}

fn unrecoverable(chain_id: Option<u64>, nonce: u64) -> TxEnvelope {
    let tx = unsigned(chain_id, nonce, Vec::new());
    TxEnvelope::Legacy(tx.into_signed(Signature::new(U256::from(1), U256::MAX, false)))
}

fn batch(transactions: &Vec<TxEnvelope>) -> Vec<u8> {
    alloy_rlp::encode(transactions)
}

fn plain() -> Transaction {
    Transaction { hash: [0x11; 32], blob_carrying: false, input: Vec::new() }
}

fn carrying() -> Transaction {
    Transaction { hash: [0x22; 32], blob_carrying: true, input: Vec::new() }
}

fn derived_of(tx: &TxEnvelope, signer: u8) -> DerivedTransaction {
    DerivedTransaction { encoded: tx.encoded_2718(), sender: address_of(signer) }
}

fn blobs_of(raw: &[u8]) -> Vec<Vec<u8>> {
    SidecarBuilder::<SimpleCoder>::from_slice(raw)
        .take()
        .into_iter()
        .map(|blob| blob.to_vec())
        .collect()
}

fn commitment(n: u8) -> [u8; 48] {
    let mut c = [n; 48];
    c[47] = n.wrapping_mul(3);
    c
}

fn hash_of(commitment: &[u8; 48]) -> [u8; 32] {
    kzg_to_versioned_hash(commitment).0
}

fn reference(hashes: &Vec<[u8; 32]>) -> Vec<u8> {
    let list: Vec<B256> = hashes.iter().map(|h| B256::from(*h)).collect();
    alloy_rlp::encode(&list)
}

fn candidates(blobs: &Vec<Vec<u8>>, commitments: &Vec<[u8; 48]>) -> Vec<BlobCandidate> {
    blobs
        .iter()
        .zip(commitments.iter())
        .map(|(blob, commitment)| BlobCandidate::new(blob.clone(), *commitment).unwrap())
        .collect()
}

/// A batch of three transactions of chain 7 that fills more than two blobs.
fn long_batch() -> (Vec<TxEnvelope>, Vec<u8>) {
    let transactions = vec![
        signed(Some(7), 0, 1, vec![0xab; 150_000]),
        signed(Some(7), 1, 2, vec![0xcd; 120_000]),
        signed(Some(7), 2, 3, vec![0xef; 10]),
    ];
    let raw = batch(&transactions);
    (transactions, raw)
}

#[test]
fn embedded_batch_gives_its_transactions_with_their_senders() {
    let transactions = vec![signed(Some(7), 0, 1, vec![1, 2, 3]), signed(Some(7), 1, 2, vec![])];
    let raw = batch(&transactions);
    let digest = keccak256(&raw).0;
    let derived = derive_transactions(&plain(), &Vec::new(), &raw, &digest, 7);
    assert_eq!(
        derived,
        Ok(vec![derived_of(&transactions[0], 1), derived_of(&transactions[1], 2)])
    );
}

#[test]
fn transactions_of_other_chains_are_left_out() {
    let transactions = vec![
        signed(Some(7), 0, 1, vec![]),
        signed(Some(8), 0, 2, vec![]),
        signed(None, 0, 3, vec![]),
        signed(Some(7), 1, 4, vec![9]),
    ];
    let raw = batch(&transactions);
    let digest = keccak256(&raw).0;
    let derived = derive_transactions(&plain(), &Vec::new(), &raw, &digest, 7);
    assert_eq!(
        derived,
        Ok(vec![derived_of(&transactions[0], 1), derived_of(&transactions[3], 4)])
    );
    let other = derive_transactions(&plain(), &Vec::new(), &raw, &digest, 8);
    assert_eq!(other, Ok(vec![derived_of(&transactions[1], 2)]));
}

#[test]
fn empty_batch_is_an_empty_set() {
    let raw = batch(&Vec::new());
    assert_eq!(raw, vec![0xc0]);
    let digest = keccak256(&raw).0;
    assert_eq!(derive_transactions(&plain(), &Vec::new(), &raw, &digest, 7), Ok(Vec::new()));
}

#[test]
fn wrong_digest_is_an_integrity_mismatch() {
    let transactions = vec![signed(Some(7), 0, 1, vec![])];
    let raw = batch(&transactions);
    let digest = keccak256(&raw).0;
    for flipped in [0usize, 13, 31] {
        let mut other = digest;
        other[flipped] ^= 0x01;
        assert_eq!(
            derive_transactions(&plain(), &Vec::new(), &raw, &other, 7),
            Err(DeriveError::IntegrityMismatch { expected: other, actual: digest })
        );
    }
}

#[test]
fn digest_is_checked_before_the_list_is_read() {
    let raw = vec![0xff, 0x00, 0x01];
    assert_eq!(
        decode_batch(&raw, &[0u8; 32], 7),
        Err(DeriveError::IntegrityMismatch { expected: [0u8; 32], actual: keccak256(&raw).0 })
    );
}

#[test]
fn batch_that_is_no_list_is_malformed() {
    let raw = vec![0x01, 0x02, 0x03];
    let digest = keccak256(&raw).0;
    assert_eq!(decode_batch(&raw, &digest, 7), Err(DeriveError::MalformedTransactionList));
    let empty: Vec<u8> = Vec::new();
    let digest = keccak256(&empty).0;
    assert_eq!(decode_batch(&empty, &digest, 7), Err(DeriveError::MalformedTransactionList));
}

#[test]
fn transaction_without_a_signer_spoils_the_batch() {
    let transactions =
        vec![signed(Some(7), 0, 1, vec![]), unrecoverable(Some(7), 1), signed(Some(7), 2, 1, vec![])];
    let raw = batch(&transactions);
    let digest = keccak256(&raw).0;
    assert_eq!(
        decode_batch(&raw, &digest, 7),
        Err(DeriveError::SignerRecoveryFailure { index: 1 })
    );
}

#[test]
fn transaction_without_a_signer_on_another_chain_does_no_harm() {
    let transactions = vec![unrecoverable(Some(9), 0), signed(Some(7), 0, 5, vec![])];
    let raw = batch(&transactions);
    let digest = keccak256(&raw).0;
    assert_eq!(decode_batch(&raw, &digest, 7), Ok(vec![derived_of(&transactions[1], 5)]));
}

#[test]
fn retain_for_chain_keeps_order_and_reports_the_first_failure() {
    let item = |chain_id: Option<u64>, signer: Option<[u8; 20]>, tag: u8| DecodedTransaction {
        encoded: vec![tag],
        chain_id,
        signer,
    };
    let items = vec![
        item(Some(1), Some([1; 20]), 10),
        item(Some(2), None, 11),
        item(Some(1), Some([2; 20]), 12),
    ];
    assert_eq!(
        retain_for_chain(&items, 1),
        Ok(vec![
            DerivedTransaction { encoded: vec![10], sender: [1; 20] },
            DerivedTransaction { encoded: vec![12], sender: [2; 20] },
        ])
    );
    assert_eq!(retain_for_chain(&items, 2), Err(DeriveError::SignerRecoveryFailure { index: 1 }));
    assert_eq!(retain_for_chain(&items, 3), Ok(Vec::new()));
    let failing = vec![item(Some(1), None, 1), item(Some(1), None, 2)];
    assert_eq!(
        retain_for_chain(&failing, 1),
        Err(DeriveError::SignerRecoveryFailure { index: 0 })
    );
}

#[test]
fn blob_batch_reads_as_the_embedded_batch() {
    let (transactions, raw) = long_batch();
    let digest = keccak256(&raw).0;
    let blobs = blobs_of(&raw);
    assert_eq!(blobs.len(), 3);
    let commitments = vec![commitment(1), commitment(2), commitment(3)];
    let hashes: Vec<[u8; 32]> = commitments.iter().map(hash_of).collect();
    let found = candidates(&blobs, &commitments);
    let payload = reference(&hashes);

    assert_eq!(reconstruct_batch(true, &found, &payload), Ok(raw.clone()));
    let from_blobs = derive_transactions(&carrying(), &found, &payload, &digest, 7);
    let embedded = derive_transactions(&plain(), &Vec::new(), &raw, &digest, 7);
    assert_eq!(from_blobs, embedded);
    assert_eq!(
        from_blobs,
        Ok(vec![
            derived_of(&transactions[0], 1),
            derived_of(&transactions[1], 2),
            derived_of(&transactions[2], 3),
        ])
    );
}

#[test]
fn blobs_are_joined_in_the_order_of_the_hash_list() {
    let (_, raw) = long_batch();
    let blobs = blobs_of(&raw);
    let commitments = vec![commitment(1), commitment(2), commitment(3)];
    let hashes: Vec<[u8; 32]> = commitments.iter().map(hash_of).collect();
    let payload = reference(&hashes);
    let shuffled = candidates(
        &vec![blobs[2].clone(), blobs[0].clone(), blobs[1].clone()],
        &vec![commitments[2], commitments[0], commitments[1]],
    );
    assert_eq!(reconstruct_batch(true, &shuffled, &payload), Ok(raw));
}

#[test]
fn missing_blob_is_an_incomplete_batch() {
    let (_, raw) = long_batch();
    let digest = keccak256(&raw).0;
    let blobs = blobs_of(&raw);
    let commitments = vec![commitment(1), commitment(2), commitment(3)];
    let hashes: Vec<[u8; 32]> = commitments.iter().map(hash_of).collect();
    let payload = reference(&hashes);
    let two = candidates(&blobs[..2].to_vec(), &commitments[..2].to_vec());
    assert_eq!(
        derive_transactions(&carrying(), &two, &payload, &digest, 7),
        Err(DeriveError::IncompleteBatch)
    );
    assert_eq!(
        derive_transactions(&carrying(), &Vec::new(), &payload, &digest, 7),
        Err(DeriveError::IncompleteBatch)
    );
}

#[test]
fn blob_with_another_commitment_does_not_count() {
    let (_, raw) = long_batch();
    let digest = keccak256(&raw).0;
    let blobs = blobs_of(&raw);
    let commitments = vec![commitment(1), commitment(2), commitment(3)];
    let hashes: Vec<[u8; 32]> = commitments.iter().map(hash_of).collect();
    let payload = reference(&hashes);
    let mut flipped = commitments.clone();
    flipped[1][5] ^= 0x80;
    let found = candidates(&blobs, &flipped);
    assert_eq!(
        derive_transactions(&carrying(), &found, &payload, &digest, 7),
        Err(DeriveError::IncompleteBatch)
    );
}

#[test]
fn blobs_that_are_not_asked_for_are_passed_over() {
    let (_, raw) = long_batch();
    let blobs = blobs_of(&raw);
    let commitments = vec![commitment(1), commitment(2), commitment(3)];
    let hashes: Vec<[u8; 32]> = commitments.iter().map(hash_of).collect();
    let payload = reference(&hashes);
    let mut all_blobs = vec![vec![0u8; BYTES_PER_BLOB]];
    all_blobs.extend(blobs.iter().cloned());
    let mut all_commitments = vec![commitment(9)];
    all_commitments.extend(commitments.iter().cloned());
    let found = candidates(&all_blobs, &all_commitments);
    assert_eq!(reconstruct_batch(true, &found, &payload), Ok(raw));
}

#[test]
fn payload_that_is_no_hash_list_is_a_malformed_reference() {
    let found: Vec<BlobCandidate> = Vec::new();
    assert_eq!(
        reconstruct_batch(true, &found, &[0x01, 0x02]),
        Err(DeriveError::MalformedReference)
    );
    assert_eq!(reconstruct_batch(true, &found, &[]), Err(DeriveError::MalformedReference));
    assert_eq!(reconstruct_batch(false, &found, &[0x01, 0x02]), Ok(vec![0x01, 0x02]));
}

#[test]
fn blobs_without_a_payload_are_malformed() {
    let commitments = vec![commitment(1)];
    let hashes: Vec<[u8; 32]> = commitments.iter().map(hash_of).collect();
    let payload = reference(&hashes);
    let found = candidates(&vec![vec![0xffu8; BYTES_PER_BLOB]], &commitments);
    assert_eq!(reconstruct_batch(true, &found, &payload), Err(DeriveError::MalformedBlobs));
    let none: Vec<BlobCandidate> = Vec::new();
    assert_eq!(
        reconstruct_batch(true, &none, &reference(&Vec::new())),
        Err(DeriveError::MalformedBlobs)
    );
}

#[test]
fn blob_of_zeros_holds_an_empty_batch_of_bytes() {
    let commitments = vec![commitment(4)];
    let hashes: Vec<[u8; 32]> = commitments.iter().map(hash_of).collect();
    let payload = reference(&hashes);
    let found = candidates(&vec![vec![0u8; BYTES_PER_BLOB]], &commitments);
    assert_eq!(reconstruct_batch(true, &found, &payload), Ok(Vec::new()));
}

#[test]
fn candidate_must_have_the_length_of_a_blob() {
    assert!(BlobCandidate::new(vec![0u8; BYTES_PER_BLOB], [0u8; 48]).is_some());
    assert!(BlobCandidate::new(vec![0u8; BYTES_PER_BLOB - 1], [0u8; 48]).is_none());
    assert!(BlobCandidate::new(Vec::new(), [0u8; 48]).is_none());
    let candidate = BlobCandidate::new(vec![7u8; BYTES_PER_BLOB], [3u8; 48]).unwrap();
    assert_eq!(candidate.blob().len(), BYTES_PER_BLOB);
    assert_eq!(candidate.commitment(), &[3u8; 48]);
}

#[test]
fn versioned_hashes_are_those_of_the_commitments() {
    let commitments = vec![commitment(1), commitment(2)];
    let found = candidates(
        &vec![vec![0u8; BYTES_PER_BLOB], vec![0u8; BYTES_PER_BLOB]],
        &commitments,
    );
    let hashes = versioned_hashes(&found);
    assert_eq!(hashes, vec![hash_of(&commitments[0]), hash_of(&commitments[1])]);
    assert_eq!(hashes[0][0], 0x01);
    assert_ne!(&hashes[0][..], &commitments[0][..32]);
}

#[test]
fn each_expected_hash_takes_a_blob_of_its_own() {
    let a = [0xaa; 32];
    let b = [0xbb; 32];
    let c = [0xcc; 32];
    assert_eq!(select_blobs(&vec![a, b], &vec![a, b]), Some(vec![0, 1]));
    assert_eq!(select_blobs(&vec![b, a], &vec![a, b]), Some(vec![1, 0]));
    assert_eq!(select_blobs(&vec![c, b, a], &vec![a, b]), Some(vec![2, 1]));
    assert_eq!(select_blobs(&vec![a, a], &vec![a, a]), Some(vec![0, 1]));
    assert_eq!(select_blobs(&vec![a], &vec![a, a]), None);
    assert_eq!(select_blobs(&vec![a, a], &vec![a, b]), None);
    assert_eq!(select_blobs(&vec![a, a, b], &vec![a, b]), None);
    assert_eq!(select_blobs(&vec![a], &vec![a, b]), None);
    assert_eq!(select_blobs(&vec![c], &Vec::new()), Some(Vec::new()));
    assert_eq!(select_blobs(&Vec::new(), &Vec::new()), Some(Vec::new()));
}

#[test]
fn contains_hash_looks_through_the_list() {
    let list = vec![[1u8; 32], [2u8; 32]];
    assert!(contains_hash(&list, &[2u8; 32]));
    assert!(!contains_hash(&list, &[3u8; 32]));
    assert!(!contains_hash(&Vec::new(), &[1u8; 32]));
}

#[test]
fn concatenate_joins_in_order() {
    assert_eq!(concatenate(&vec![vec![1, 2], vec![], vec![3]]), vec![1, 2, 3]);
    assert_eq!(concatenate(&Vec::new()), Vec::<u8>::new());
}

#[test]
fn blob_has_the_length_that_the_coder_works_on() {
    assert_eq!(BYTES_PER_BLOB, alloy_eips::eip4844::BYTES_PER_BLOB);
}

#[test]
fn decoder_tells_chain_and_signer_of_each_transaction() {
    let bound = signed(Some(7), 0, 1, vec![1]);
    let unbound = signed(None, 1, 2, vec![]);
    let unsound = unrecoverable(Some(9), 2);
    let items = vec![bound.encoded_2718(), unbound.encoded_2718(), unsound.encoded_2718(), vec![0xff]];
    assert_eq!(
        describe_transactions(&items),
        vec![
            DecodedTransaction {
                encoded: items[0].clone(),
                chain_id: Some(7),
                signer: Some(address_of(1)),
            },
            DecodedTransaction {
                encoded: items[1].clone(),
                chain_id: None,
                signer: Some(address_of(2)),
            },
            DecodedTransaction { encoded: items[2].clone(), chain_id: Some(9), signer: None },
            DecodedTransaction { encoded: vec![0xff], chain_id: None, signer: None },
        ]
    );
    assert!(describe_transactions(&Vec::new()).is_empty());
}
