use alloy_consensus::{SignableTransaction, TxEnvelope, TxLegacy};
use alloy_eips::eip2718::Encodable2718;
use alloy_eips::eip4844::builder::{SidecarBuilder, SimpleCoder};
use alloy_eips::eip4844::kzg_to_versioned_hash;
use alloy_primitives::{keccak256, Address, Signature, TxKind, B256, U256};
use k256::ecdsa::SigningKey;
use unifi_rollup::blob::BlobCandidate;
use unifi_rollup::chain::{Block, Chain, ChainNotification, Receipt, Transaction};
use unifi_rollup::derive::DerivedTransaction;
use unifi_rollup::error::DeriveError;
use unifi_rollup::event::{block_submitted_topic, Log, RollupEvent};
use unifi_rollup::lookup::{
    after_failure, after_reply, BlobSource, BlobStep, FailureStep, RetryPolicy,
};
use unifi_rollup::rollup::{
    is_of_chain, process_events, process_submission, Outcome, PipelineError, RollupConfig,
    SuppliedBlobs, UnifiRollup,
};
use unifi_rollup::sequence::{SequenceError, SequenceState};
use unifi_rollup::store::{DerivedRecord, StateStore};

const CONTRACT: [u8; 20] = [0x5c; 20];
const CHAIN_ID: u64 = 7;

fn config() -> RollupConfig {
    RollupConfig { rollup_contract: CONTRACT, chain_id: CHAIN_ID }
}

fn word(n: u64) -> [u8; 32] {
    let mut w = [0u8; 32];
    w[24..].copy_from_slice(&n.to_be_bytes());
    w
}

fn key(n: u8) -> SigningKey {
    SigningKey::from_slice(&[n; 32]).unwrap()
}

fn signed(chain_id: u64, nonce: u64, signer: u8, input: Vec<u8>) -> TxEnvelope {
    let tx = TxLegacy {
        chain_id: Some(chain_id),
        nonce,
        gas_price: 1,
        gas_limit: 21000,
        to: TxKind::Call(Address::ZERO),
        value: U256::ZERO,
        input: input.into(),
    };
    let hash = tx.signature_hash();
    let (signature, recovery) = key(signer).sign_prehash_recoverable(hash.as_slice()).unwrap();
    TxEnvelope::Legacy(tx.into_signed(Signature::from((signature, recovery))))
}

fn derived_of(tx: &TxEnvelope, signer: u8) -> DerivedTransaction {
    DerivedTransaction {
        encoded: tx.encoded_2718(),
        sender: Address::from_private_key(&key(signer)).into_array(),
    }
}

/// A batch of one transaction of the rollup chain, told apart by `tag`.
fn batch(tag: u8) -> (Vec<u8>, Vec<DerivedTransaction>) {
    let tx = signed(CHAIN_ID, tag as u64, tag, vec![tag; 3]);
    (alloy_rlp::encode(&vec![tx.clone()]), vec![derived_of(&tx, tag)])
}

fn call_input(chain_id: u64, sequence: [u8; 32], digest: [u8; 32], data: &[u8]) -> Vec<u8> {
    let mut input = vec![0xf4, 0xfc, 0xa1, 0xde];
    input.extend_from_slice(&word(chain_id));
    input.extend_from_slice(&sequence);
    input.extend_from_slice(&word(30_000_000));
    input.extend_from_slice(&digest);
    input.extend_from_slice(&word(160));
    input.extend_from_slice(&word(data.len() as u64));
    input.extend_from_slice(data);
    while (input.len() - 4) % 32 != 0 {
        input.push(0);
    }
    input
}

fn submitted(chain_id: u64, digest: [u8; 32]) -> Log {
    let mut data = word(30_000_000).to_vec();
    data.extend_from_slice(&digest);
    Log { address: CONTRACT, topics: vec![block_submitted_topic(), word(chain_id)], data }
}

/// A block with one transaction that submits `payload` with the digest
/// `digest` and the number `sequence` to the rollup chain `chain_id`.
fn submitting_block(
    number: u64,
    fork: u8,
    chain_id: u64,
    sequence: u64,
    digest: [u8; 32],
    payload: &[u8],
    blob_carrying: bool,
) -> Block {
    let mut hash = word(number);
    hash[0] = fork;
    Block {
        number,
        hash,
        body: vec![Transaction {
            hash: [number as u8 ^ fork; 32],
            blob_carrying,
            input: call_input(chain_id, word(sequence), digest, payload),
        }],
        receipts: vec![Some(Receipt { logs: vec![submitted(chain_id, digest)] })],
    }
}

fn good_block(number: u64, fork: u8, sequence: u64, tag: u8) -> (Block, DerivedRecord) {
    let (raw, transactions) = batch(tag);
    let digest = keccak256(&raw).0;
    let block = submitting_block(number, fork, CHAIN_ID, sequence, digest, &raw, false);
    (block, DerivedRecord { chain_id: CHAIN_ID, sequence, block_hash: digest, transactions })
}

fn quiet_block(number: u64, fork: u8) -> Block {
    let mut hash = word(number);
    hash[0] = fork;
    Block { number, hash, body: Vec::new(), receipts: Vec::new() }
}

fn chain(blocks: Vec<Block>) -> Chain {
    Chain::new(blocks).unwrap()
}

fn state(number: u64, height: u64) -> SequenceState {
    SequenceState { last_sequence_number: number, last_submission_height: height }
}

fn heights(rollup: &UnifiRollup) -> Vec<u64> {
    rollup.store().read_range(0, u64::MAX).iter().map(|(height, _)| *height).collect()
}

fn none() -> Vec<SuppliedBlobs> {
    Vec::new()
}

#[test]
fn new_pipeline_has_seen_nothing() {
    let rollup = UnifiRollup::new(config());
    assert_eq!(rollup.config(), config());
    assert_eq!(rollup.store().len(), 0);
    assert_eq!(rollup.validator().state(CHAIN_ID), state(0, 0));
}

#[test]
fn submission_at_height_100_is_taken_and_a_repeat_at_101_is_refused() {
    let mut rollup = UnifiRollup::new(config());
    let (first, record) = good_block(100, 0, 0, 1);
    let outcome = rollup.process_notification(
        &ChainNotification::Committed { new: chain(vec![first]) },
        &none(),
    );
    assert_eq!(
        outcome,
        Ok(Outcome { rollback: None, written: vec![100], finished_height: Some(100) })
    );
    assert_eq!(rollup.validator().state(7), state(1, 100));
    assert_eq!(rollup.store().read(100), Some(&record));

    let (second, _) = good_block(101, 0, 0, 2);
    let refused = rollup.process_notification(
        &ChainNotification::Committed { new: chain(vec![second]) },
        &none(),
    );
    assert_eq!(
        refused,
        Err(PipelineError::Sequence {
            chain_id: 7,
            height: 101,
            violation: SequenceError::NonMonotonicSequence { expected: 1 },
        })
    );
    assert_eq!(rollup.validator().state(7), state(1, 100));
    assert_eq!(heights(&rollup), vec![100]);
}

#[test]
fn committed_chain_is_written_block_by_block() {
    let mut rollup = UnifiRollup::new(config());
    let (a, record_a) = good_block(10, 0, 0, 1);
    let (c, record_c) = good_block(12, 0, 1, 2);
    let outcome = rollup.process_notification(
        &ChainNotification::Committed { new: chain(vec![a, quiet_block(11, 0), c]) },
        &none(),
    );
    assert_eq!(
        outcome,
        Ok(Outcome { rollback: None, written: vec![10, 12], finished_height: Some(12) })
    );
    assert_eq!(rollup.store().read(10), Some(&record_a));
    assert_eq!(rollup.store().read(11), None);
    assert_eq!(rollup.store().read(12), Some(&record_c));
    assert_eq!(rollup.store().last_processed_height(), Some(12));
    assert_eq!(rollup.validator().state(CHAIN_ID), state(2, 12));
}

#[test]
fn quiet_chain_is_finished_without_a_write() {
    let mut rollup = UnifiRollup::new(config());
    let outcome = rollup.handle_chain_committed(&chain(vec![quiet_block(69, 0)]), &none());
    assert_eq!(
        outcome,
        Ok(Outcome { rollback: None, written: Vec::new(), finished_height: Some(69) })
    );
    assert_eq!(rollup.store().len(), 0);
    assert_eq!(rollup.validator().state(CHAIN_ID), state(0, 0));
}

#[test]
fn failing_notification_changes_nothing() {
    let mut rollup = UnifiRollup::new(config());
    let (a, _) = good_block(10, 0, 0, 1);
    let (b, _) = good_block(11, 0, 5, 2);
    let outcome = rollup.process_notification(
        &ChainNotification::Committed { new: chain(vec![a, b]) },
        &none(),
    );
    assert_eq!(
        outcome,
        Err(PipelineError::Sequence {
            chain_id: CHAIN_ID,
            height: 11,
            violation: SequenceError::NonMonotonicSequence { expected: 1 },
        })
    );
    assert_eq!(rollup.store().len(), 0);
    assert_eq!(rollup.validator().state(CHAIN_ID), state(0, 0));
}

#[test]
fn same_notification_twice_gives_the_same_store() {
    let (a, record_a) = good_block(10, 0, 0, 1);
    let (b, record_b) = good_block(11, 0, 1, 2);
    let notification = ChainNotification::Committed { new: chain(vec![a, b]) };

    let mut rollup = UnifiRollup::new(config());
    let first = rollup.process_notification(&notification, &none());
    assert!(first.is_ok());
    let after_first: Vec<(u64, DerivedRecord)> = rollup
        .store()
        .read_range(0, u64::MAX)
        .into_iter()
        .map(|(height, record)| (height, record.clone()))
        .collect();
    assert_eq!(after_first, vec![(10, record_a), (11, record_b)]);

    // Without the sequence state put back, the second run is refused.
    let again = rollup.process_notification(&notification, &none());
    assert_eq!(
        again,
        Err(PipelineError::Sequence {
            chain_id: CHAIN_ID,
            height: 10,
            violation: SequenceError::NonMonotonicSequence { expected: 2 },
        })
    );

    // A pipeline that starts over gives the same store.
    let mut fresh = UnifiRollup::new(config());
    assert_eq!(fresh.process_notification(&notification, &none()), first);
    let after_second: Vec<(u64, DerivedRecord)> = fresh
        .store()
        .read_range(0, u64::MAX)
        .into_iter()
        .map(|(height, record)| (height, record.clone()))
        .collect();
    assert_eq!(after_second, after_first);
    assert_eq!(fresh.validator().state(CHAIN_ID), rollup.validator().state(CHAIN_ID));
}

#[test]
fn reorg_leaves_only_the_new_branch() {
    let mut rollup = UnifiRollup::new(config());
    let (a10, _) = good_block(10, 0, 0, 1);
    let (a11, _) = good_block(11, 0, 1, 2);
    let (a12, _) = good_block(12, 0, 2, 3);
    let old_blocks = vec![a10.clone(), a11.clone(), a12.clone()];
    assert!(rollup
        .process_notification(&ChainNotification::Committed { new: chain(old_blocks.clone()) }, &none())
        .is_ok());
    assert_eq!(rollup.validator().state(CHAIN_ID), state(3, 12));

    let (b10, record_10) = good_block(10, 1, 0, 4);
    let (b11, record_11) = good_block(11, 1, 1, 5);
    let outcome = rollup.process_notification(
        &ChainNotification::Reorged { old: chain(old_blocks), new: chain(vec![b10, b11]) },
        &none(),
    );
    assert_eq!(
        outcome,
        Ok(Outcome { rollback: Some((10, 12)), written: vec![10, 11], finished_height: Some(11) })
    );
    assert_eq!(heights(&rollup), vec![10, 11]);
    assert_eq!(rollup.store().read(10), Some(&record_10));
    assert_eq!(rollup.store().read(11), Some(&record_11));
    assert_eq!(rollup.store().read(12), None);
    assert_eq!(rollup.validator().state(CHAIN_ID), state(2, 11));
}

#[test]
fn reorg_keeps_the_blocks_that_both_chains_start_with() {
    let mut rollup = UnifiRollup::new(config());
    let (a10, record_10) = good_block(10, 0, 0, 1);
    let (a11, _) = good_block(11, 0, 1, 2);
    let (a12, _) = good_block(12, 0, 2, 3);
    let old_blocks = vec![a10.clone(), a11, a12];
    assert!(rollup
        .process_notification(&ChainNotification::Committed { new: chain(old_blocks.clone()) }, &none())
        .is_ok());

    let (b11, record_11) = good_block(11, 1, 1, 5);
    let outcome = rollup.handle_chain_reorged(&chain(old_blocks), &chain(vec![a10, b11]), &none());
    assert_eq!(
        outcome,
        Ok(Outcome { rollback: Some((11, 12)), written: vec![11], finished_height: Some(11) })
    );
    assert_eq!(heights(&rollup), vec![10, 11]);
    assert_eq!(rollup.store().read(10), Some(&record_10));
    assert_eq!(rollup.store().read(11), Some(&record_11));
    assert_eq!(rollup.validator().state(CHAIN_ID), state(2, 11));
}

#[test]
fn failing_reorg_rolls_nothing_back() {
    let mut rollup = UnifiRollup::new(config());
    let (a10, record_10) = good_block(10, 0, 0, 1);
    let (a11, record_11) = good_block(11, 0, 1, 2);
    let old_blocks = vec![a10, a11];
    assert!(rollup
        .process_notification(&ChainNotification::Committed { new: chain(old_blocks.clone()) }, &none())
        .is_ok());

    let (b10, _) = good_block(10, 1, 1, 4);
    let outcome = rollup.process_notification(
        &ChainNotification::Reorged { old: chain(old_blocks), new: chain(vec![b10]) },
        &none(),
    );
    assert_eq!(
        outcome,
        Err(PipelineError::Sequence {
            chain_id: CHAIN_ID,
            height: 10,
            violation: SequenceError::NonMonotonicSequence { expected: 0 },
        })
    );
    assert_eq!(rollup.store().read(10), Some(&record_10));
    assert_eq!(rollup.store().read(11), Some(&record_11));
    assert_eq!(rollup.validator().state(CHAIN_ID), state(2, 11));
}

#[test]
fn revert_rolls_back_and_reports_nothing() {
    let mut rollup = UnifiRollup::new(config());
    let (a10, record_10) = good_block(10, 0, 0, 1);
    let (a11, _) = good_block(11, 0, 1, 2);
    let (a12, _) = good_block(12, 0, 2, 3);
    assert!(rollup
        .process_notification(
            &ChainNotification::Committed { new: chain(vec![a10, a11.clone(), a12.clone()]) },
            &none()
        )
        .is_ok());

    let outcome =
        rollup.process_notification(&ChainNotification::Reverted { old: chain(vec![a11, a12]) }, &none());
    assert_eq!(
        outcome,
        Ok(Outcome { rollback: Some((11, 12)), written: Vec::new(), finished_height: None })
    );
    assert_eq!(heights(&rollup), vec![10]);
    assert_eq!(rollup.store().read(10), Some(&record_10));
    assert_eq!(rollup.validator().state(CHAIN_ID), state(1, 10));

    // The chain goes on from where the rollback left it.
    let (again, _) = good_block(11, 2, 1, 9);
    assert!(rollup.handle_chain_committed(&chain(vec![again]), &none()).is_ok());
    assert_eq!(rollup.validator().state(CHAIN_ID), state(2, 11));
}

#[test]
fn revert_of_everything_starts_the_chain_over() {
    let mut rollup = UnifiRollup::new(config());
    let (a10, _) = good_block(10, 0, 0, 1);
    let all = vec![a10];
    assert!(rollup.handle_chain_committed(&chain(all.clone()), &none()).is_ok());
    assert!(rollup.handle_chain_reverted(&chain(all)).is_ok());
    assert_eq!(rollup.store().len(), 0);
    assert_eq!(rollup.validator().state(CHAIN_ID), state(0, 0));
}

#[test]
fn events_of_other_rollup_chains_are_passed_over() {
    let mut rollup = UnifiRollup::new(config());
    let (raw, _) = batch(1);
    let foreign = submitting_block(10, 0, 8, 5, keccak256(&raw).0, &raw, false);
    let outcome = rollup.handle_chain_committed(&chain(vec![foreign]), &none());
    assert_eq!(
        outcome,
        Ok(Outcome { rollback: None, written: Vec::new(), finished_height: Some(10) })
    );
    assert_eq!(rollup.store().len(), 0);
}

#[test]
fn second_submission_in_one_block_is_refused() {
    let mut rollup = UnifiRollup::new(config());
    let (mut block, _) = good_block(10, 0, 0, 1);
    let (other_raw, _) = batch(2);
    let other_digest = keccak256(&other_raw).0;
    block.body.push(Transaction {
        hash: [0x99; 32],
        blob_carrying: false,
        input: call_input(CHAIN_ID, word(1), other_digest, &other_raw),
    });
    block.receipts.push(Some(Receipt { logs: vec![submitted(CHAIN_ID, other_digest)] }));
    let outcome = rollup.handle_chain_committed(&chain(vec![block]), &none());
    assert_eq!(
        outcome,
        Err(PipelineError::Sequence {
            chain_id: CHAIN_ID,
            height: 10,
            violation: SequenceError::DuplicateSubmissionHeight { height: 10 },
        })
    );
    assert_eq!(rollup.store().len(), 0);
}

#[test]
fn transaction_that_is_no_submission_is_malformed() {
    let mut rollup = UnifiRollup::new(config());
    let (mut block, _) = good_block(10, 0, 0, 1);
    block.body[0].input = vec![0xde, 0xad];
    assert_eq!(
        rollup.handle_chain_committed(&chain(vec![block]), &none()),
        Err(PipelineError::MalformedSubmission { height: 10 })
    );
}

#[test]
fn batch_with_another_digest_is_refused() {
    let mut rollup = UnifiRollup::new(config());
    let (raw, _) = batch(1);
    let digest = keccak256(&raw).0;
    let mut announced = digest;
    announced[7] ^= 0x10;
    let block = submitting_block(10, 0, CHAIN_ID, 0, announced, &raw, false);
    assert_eq!(
        rollup.handle_chain_committed(&chain(vec![block]), &none()),
        Err(PipelineError::Derive {
            height: 10,
            error: DeriveError::IntegrityMismatch { expected: announced, actual: digest },
        })
    );
    assert_eq!(rollup.validator().state(CHAIN_ID), state(0, 0));
}

#[test]
fn sequence_number_that_fits_no_counter_is_refused() {
    let mut rollup = UnifiRollup::new(config());
    let (raw, _) = batch(1);
    let digest = keccak256(&raw).0;
    let mut block = submitting_block(10, 0, CHAIN_ID, 0, digest, &raw, false);
    let mut huge = word(0);
    huge[0] = 1;
    block.body[0].input = call_input(CHAIN_ID, huge, digest, &raw);
    assert_eq!(
        rollup.handle_chain_committed(&chain(vec![block]), &none()),
        Err(PipelineError::Sequence {
            chain_id: CHAIN_ID,
            height: 10,
            violation: SequenceError::NonMonotonicSequence { expected: 0 },
        })
    );
}

/// A blob-carrying submission of three blobs: the block, its record, the
/// blobs with their commitments.
fn blob_block(number: u64, sequence: u64) -> (Block, DerivedRecord, Vec<(Vec<u8>, [u8; 48])>) {
    let txs = vec![
        signed(CHAIN_ID, 0, 1, vec![0xab; 150_000]),
        signed(CHAIN_ID, 1, 2, vec![0xcd; 120_000]),
    ];
    let raw = alloy_rlp::encode(&txs);
    let digest = keccak256(&raw).0;
    let blobs: Vec<Vec<u8>> = SidecarBuilder::<SimpleCoder>::from_slice(&raw)
        .take()
        .into_iter()
        .map(|blob| blob.to_vec())
        .collect();
    assert_eq!(blobs.len(), 3);
    let commitments = [[1u8; 48], [2u8; 48], [3u8; 48]];
    let hashes: Vec<B256> = commitments.iter().map(|c| kzg_to_versioned_hash(c)).collect();
    let payload = alloy_rlp::encode(&hashes);
    let block = submitting_block(number, 0, CHAIN_ID, sequence, digest, &payload, true);
    let record = DerivedRecord {
        chain_id: CHAIN_ID,
        sequence,
        block_hash: digest,
        transactions: vec![derived_of(&txs[0], 1), derived_of(&txs[1], 2)],
    };
    (block, record, blobs.into_iter().zip(commitments).collect())
}

fn supply_of(tx_hash: [u8; 32], blobs: &[(Vec<u8>, [u8; 48])]) -> Vec<SuppliedBlobs> {
    vec![SuppliedBlobs {
        tx_hash,
        blobs: blobs
            .iter()
            .map(|(blob, commitment)| BlobCandidate::new(blob.clone(), *commitment).unwrap())
            .collect(),
    }]
}

#[test]
fn blob_submission_is_derived_from_the_supplied_blobs() {
    let mut rollup = UnifiRollup::new(config());
    let (block, record, blobs) = blob_block(20, 0);
    let tx_hash = block.body[0].hash;
    let notification = ChainNotification::Committed { new: chain(vec![block]) };
    assert_eq!(rollup.blob_requests(&notification), vec![tx_hash]);
    let outcome = rollup.process_notification(&notification, &supply_of(tx_hash, &blobs));
    assert_eq!(
        outcome,
        Ok(Outcome { rollback: None, written: vec![20], finished_height: Some(20) })
    );
    assert_eq!(rollup.store().read(20), Some(&record));
    assert_eq!(rollup.validator().state(CHAIN_ID), state(1, 20));
}

#[test]
fn two_of_three_blobs_are_an_incomplete_batch() {
    let mut rollup = UnifiRollup::new(config());
    let (first, _) = good_block(19, 0, 0, 1);
    assert!(rollup.handle_chain_committed(&chain(vec![first]), &none()).is_ok());

    let (block, _, blobs) = blob_block(20, 1);
    let tx_hash = block.body[0].hash;
    let notification = ChainNotification::Committed { new: chain(vec![block]) };
    let outcome = rollup.process_notification(&notification, &supply_of(tx_hash, &blobs[..2]));
    assert_eq!(
        outcome,
        Err(PipelineError::Derive { height: 20, error: DeriveError::IncompleteBatch })
    );
    assert_eq!(rollup.validator().state(CHAIN_ID), state(1, 19));
    assert_eq!(heights(&rollup), vec![19]);

    let unsupplied = rollup.process_notification(&notification, &none());
    assert_eq!(
        unsupplied,
        Err(PipelineError::Derive { height: 20, error: DeriveError::IncompleteBatch })
    );
    let for_another = rollup.process_notification(&notification, &supply_of([0xee; 32], &blobs));
    assert_eq!(
        for_another,
        Err(PipelineError::Derive { height: 20, error: DeriveError::IncompleteBatch })
    );
    assert_eq!(rollup.validator().state(CHAIN_ID), state(1, 19));
}

#[test]
fn blobs_are_asked_for_blob_transactions_of_the_chain_only() {
    let rollup = UnifiRollup::new(config());
    let (plain, _) = good_block(10, 0, 0, 1);
    let (carrying, _, _) = blob_block(11, 1);
    let wanted = carrying.body[0].hash;
    let (raw, _) = batch(3);
    let foreign = submitting_block(12, 0, 8, 0, keccak256(&raw).0, &raw, true);
    let blocks = vec![plain, carrying, foreign];
    assert_eq!(
        rollup.blob_requests(&ChainNotification::Committed { new: chain(blocks.clone()) }),
        vec![wanted]
    );
    assert!(rollup
        .blob_requests(&ChainNotification::Reverted { old: chain(blocks.clone()) })
        .is_empty());
    assert_eq!(
        rollup.blob_requests(&ChainNotification::Reorged {
            old: chain(vec![blocks[0].clone()]),
            new: chain(blocks.clone()),
        }),
        vec![wanted]
    );
    assert!(rollup
        .blob_requests(&ChainNotification::Reorged {
            old: chain(blocks[..2].to_vec()),
            new: chain(blocks),
        })
        .is_empty());
}

#[test]
fn submission_is_derived_before_its_number_is_checked() {
    let (block, _) = good_block(10, 0, 4, 1);
    let event = RollupEvent::BlockSubmitted {
        chain_id: word(CHAIN_ID),
        gas_limit: word(30_000_000),
        block_hash: [0u8; 32],
    };
    let (raw, _) = batch(1);
    let r = process_submission(&config(), &none(), state(0, 0), &block, &block.body[0], &event);
    assert_eq!(
        r,
        Err(PipelineError::Derive {
            height: 10,
            error: DeriveError::IntegrityMismatch {
                expected: [0u8; 32],
                actual: keccak256(&raw).0
            },
        })
    );
}

#[test]
fn run_of_events_stops_at_the_first_failure() {
    let (a, record_a) = good_block(10, 0, 3, 1);
    let (b, record_b) = good_block(11, 0, 4, 2);
    let (c, _) = good_block(12, 0, 9, 3);
    let digest = |block: &Block, record: &DerivedRecord| {
        (
            block.clone(),
            RollupEvent::BlockSubmitted {
                chain_id: word(CHAIN_ID),
                gas_limit: word(30_000_000),
                block_hash: record.block_hash,
            },
        )
    };
    let (a, event_a) = digest(&a, &record_a);
    let (b, event_b) = digest(&b, &record_b);
    let found = vec![(&a, &a.body[0], event_a), (&b, &b.body[0], event_b)];
    assert_eq!(
        process_events(&config(), &none(), &found, state(3, 0)),
        Ok((state(5, 11), vec![(10, record_a), (11, record_b)]))
    );
    let failing = vec![(&c, &c.body[0], event_a), (&a, &a.body[0], event_a)];
    assert!(process_events(&config(), &none(), &failing, state(3, 0)).is_err());
    assert_eq!(process_events(&config(), &none(), &Vec::new(), state(3, 0)), Ok((state(3, 0), Vec::new())));
}

#[test]
fn event_is_of_the_chain_that_its_word_spells() {
    let event = |chain_id: [u8; 32]| RollupEvent::BlockSubmitted {
        chain_id,
        gas_limit: word(0),
        block_hash: [0; 32],
    };
    assert!(is_of_chain(&event(word(7)), 7));
    assert!(!is_of_chain(&event(word(8)), 7));
    assert!(!is_of_chain(&event([0xff; 32]), u64::MAX));
    assert!(is_of_chain(&event(word(u64::MAX)), u64::MAX));
}

#[test]
fn cache_is_asked_before_the_archive() {
    let blobs = || vec![BlobCandidate::new(vec![0u8; 131072], [9u8; 48]).unwrap()];
    assert_eq!(after_reply(BlobSource::LocalCache, Some(blobs())), BlobStep::Found(blobs()));
    assert_eq!(
        after_reply(BlobSource::LocalCache, None),
        BlobStep::Ask(BlobSource::RemoteFallback)
    );
    assert_eq!(after_reply(BlobSource::RemoteFallback, Some(blobs())), BlobStep::Found(blobs()));
    assert_eq!(after_reply(BlobSource::RemoteFallback, None), BlobStep::Missing);
    assert_eq!(after_reply(BlobSource::LocalCache, Some(Vec::new())), BlobStep::Found(Vec::new()));
}

#[test]
fn pipeline_goes_on_from_the_records_of_a_store() {
    let (a10, record_10) = good_block(10, 0, 0, 1);
    let (a11, record_11) = good_block(11, 0, 1, 2);
    let mut store = StateStore::new();
    store.write(10, record_10.clone());
    store.write(11, record_11.clone());

    let mut rollup = UnifiRollup::resume(config(), store);
    assert_eq!(rollup.validator().state(CHAIN_ID), state(2, 11));
    assert_eq!(rollup.store().read(10), Some(&record_10));
    assert_eq!(rollup.store().read(11), Some(&record_11));

    let (a12, _) = good_block(12, 0, 2, 3);
    assert!(rollup.handle_chain_committed(&chain(vec![a12]), &none()).is_ok());
    assert_eq!(rollup.validator().state(CHAIN_ID), state(3, 12));
    assert!(rollup.handle_chain_reverted(&chain(vec![a10, a11])).is_ok());
    assert_eq!(heights(&rollup), vec![12]);

    let empty = UnifiRollup::resume(config(), StateStore::new());
    assert_eq!(empty.validator().state(CHAIN_ID), state(0, 0));
    assert_eq!(empty.store().len(), 0);
}

#[test]
fn failing_source_is_asked_until_the_attempts_are_used_up() {
    let policy = RetryPolicy { attempts: 3 };
    assert_eq!(after_failure(1, policy), FailureStep::Retry);
    assert_eq!(after_failure(2, policy), FailureStep::Retry);
    assert_eq!(after_failure(3, policy), FailureStep::Escalate);
    assert_eq!(after_failure(4, policy), FailureStep::Escalate);
    assert_eq!(after_failure(1, RetryPolicy { attempts: 1 }), FailureStep::Escalate);
    assert_eq!(after_failure(1, RetryPolicy { attempts: 0 }), FailureStep::Escalate);
}

#[test]
fn submission_is_read_from_the_transaction_of_the_receipt() {
    let mut rollup = UnifiRollup::new(config());
    let (mut block, record) = good_block(30, 0, 0, 1);
    let submitting = block.body.remove(0);
    let receipt = block.receipts.remove(0);
    block.body = vec![
        Transaction { hash: [0x41; 32], blob_carrying: true, input: vec![0xde, 0xad] },
        submitting,
    ];
    block.receipts = vec![None, receipt];
    let notification = ChainNotification::Committed { new: chain(vec![block]) };
    assert!(rollup.blob_requests(&notification).is_empty());
    assert_eq!(
        rollup.process_notification(&notification, &none()),
        Ok(Outcome { rollback: None, written: vec![30], finished_height: Some(30) })
    );
    assert_eq!(rollup.store().read(30), Some(&record));
    assert_eq!(rollup.validator().state(CHAIN_ID), state(1, 30));
}

#[test]
fn revert_right_after_a_commit_gives_back_what_was_there() {
    let mut rollup = UnifiRollup::new(config());
    let (a10, record_10) = good_block(10, 0, 0, 1);
    assert!(rollup.handle_chain_committed(&chain(vec![a10]), &none()).is_ok());
    let before = rollup.validator().state(CHAIN_ID);

    let (a11, _) = good_block(11, 0, 1, 2);
    let (a12, _) = good_block(12, 0, 2, 3);
    let added = vec![a11, a12];
    assert!(rollup.handle_chain_committed(&chain(added.clone()), &none()).is_ok());
    assert_eq!(rollup.validator().state(CHAIN_ID), state(3, 12));
    assert!(rollup.handle_chain_reverted(&chain(added)).is_ok());

    assert_eq!(rollup.validator().state(CHAIN_ID), before);
    assert_eq!(heights(&rollup), vec![10]);
    assert_eq!(rollup.store().read(10), Some(&record_10));
}
