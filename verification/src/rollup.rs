//! The consumer of the notifications: it takes one notification at a time,
//! rolls back what a reorg or a revert took off the chain, derives the
//! submissions of the blocks that were added, and keeps the sequence state
//! and the store in step.

use crate::blob::BlobCandidate;
use crate::chain::{
    chain_events, decode_blocks_from, heights_rise, is_chain, lemma_chain_rises,
    lemma_events_are_within, lemma_events_rise, located, numbers_rise, Block, Chain,
    ChainNotification, Transaction,
};
use crate::derive::{derive_transactions, derived, derived_views, DerivedTransactionView};
use crate::error::DeriveError;
use crate::event::{decode_submit_block_call, decoded_call, RollupEvent};
use crate::primitives::{be_value, bytes32_eq, word_to_u64};
use crate::sequence::{
    advance, initial_state, state_of, step, SequenceError, SequenceState, SequenceValidator,
};
use crate::store::{heights, DerivedRecord, DerivedRecordView, StateStore};
use vstd::prelude::*;

verus! {

/// What one instance of the pipeline follows.
#[derive(Clone, Copy, Debug, PartialEq, Eq)]
pub struct RollupConfig {
    /// The address of the rollup contract on the base chain.
    pub rollup_contract: [u8; 20],
    /// The rollup chain whose submissions are derived.
    pub chain_id: u64,
}

/// The blobs that were found for one transaction.
#[derive(Debug, PartialEq, Eq)]
pub struct SuppliedBlobs {
    pub tx_hash: [u8; 32],
    pub blobs: Vec<BlobCandidate>,
}

/// Why a notification was not applied.
#[derive(Clone, Debug, PartialEq, Eq)]
pub enum PipelineError {
    /// The transaction behind a submission event at this height is no call
    /// that submits a block, so the batch and the sequence number of the
    /// submission cannot be read. The notification is not applied: a
    /// submission that the contract took must not be left out of the store.
    MalformedSubmission { height: u64 },
    /// No transaction set could be derived from the submission at this
    /// height.
    Derive { height: u64, error: DeriveError },
    /// The submission at this height breaks the sequencing rule of its
    /// chain.
    Sequence { chain_id: u64, height: u64, violation: SequenceError },
}

/// The blobs that `supply` has for the transaction `tx_hash`: those of the
/// first entry for it at or after `from`.
pub open spec fn supplied_from(supply: Seq<SuppliedBlobs>, tx_hash: [u8; 32], from: int) -> Option<
    Seq<BlobCandidate>,
>
    decreases supply.len() - from,
{
    if from < 0 || from >= supply.len() {
        None
    } else if supply[from].tx_hash == tx_hash {
        Some(supply[from].blobs@)
    } else {
        supplied_from(supply, tx_hash, from + 1)
    }
}

/// The blobs that `supply` has for the transaction `tx_hash`.
pub open spec fn supplied(supply: Seq<SuppliedBlobs>, tx_hash: [u8; 32]) -> Option<
    Seq<BlobCandidate>,
> {
    supplied_from(supply, tx_hash, 0)
}

/// The blobs to derive the submission of `transaction` from: none for a
/// transaction that carries none, else those that were found for it.
pub open spec fn candidates_for(supply: Seq<SuppliedBlobs>, transaction: Transaction) -> Option<
    Seq<BlobCandidate>,
> {
    if transaction.blob_carrying {
        supplied(supply, transaction.hash)
    } else {
        Some(Seq::empty())
    }
}

/// The sequencing rule on a sequence number as the call carries it, a
/// 256-bit word: a number that does not fit 64 bits is never the one due.
pub open spec fn claimed_step(state: SequenceState, sequence_num: [u8; 32], height: u64) -> Result<
    SequenceState,
    SequenceError,
> {
    if be_value(sequence_num@) > u64::MAX {
        Err(SequenceError::NonMonotonicSequence { expected: state.last_sequence_number })
    } else {
        step(state, be_value(sequence_num@) as u64, height)
    }
}

/// What one event of the contract adds, with the chain of the pipeline in
/// `state`: nothing, where the event is of another rollup chain; else the
/// record of the submission and the state after it. The call behind the event
/// must decode, its batch must be derived, and only then is its sequence
/// number held against the state.
pub open spec fn submission(
    config: RollupConfig,
    supply: Seq<SuppliedBlobs>,
    state: SequenceState,
    block: Block,
    transaction: Transaction,
    event: RollupEvent,
) -> Result<Option<(SequenceState, DerivedRecordView)>, PipelineError> {
    let height = block.number;
    match event {
        RollupEvent::BlockSubmitted { chain_id, gas_limit, block_hash } => {
            if be_value(chain_id@) != config.chain_id {
                Ok(None)
            } else {
                match decoded_call(transaction.input@) {
                    None => Err(PipelineError::MalformedSubmission { height }),
                    Some(call) => match candidates_for(supply, transaction) {
                        None => Err(
                            PipelineError::Derive { height, error: DeriveError::IncompleteBatch },
                        ),
                        Some(candidates) => match derived(
                            transaction.blob_carrying,
                            candidates,
                            call.block_data,
                            block_hash,
                            config.chain_id,
                        ) {
                            Err(error) => Err(PipelineError::Derive { height, error }),
                            Ok(transactions) => match claimed_step(
                                state,
                                call.header.sequence_num,
                                height,
                            ) {
                                Err(violation) => Err(
                                    PipelineError::Sequence {
                                        chain_id: config.chain_id,
                                        height,
                                        violation,
                                    },
                                ),
                                Ok(next) => Ok(
                                    Some(
                                        (
                                            next,
                                            DerivedRecordView {
                                                chain_id: config.chain_id,
                                                sequence: state.last_sequence_number,
                                                block_hash,
                                                transactions,
                                            },
                                        ),
                                    ),
                                ),
                            },
                        },
                    },
                }
            }
        },
    }
}

/// How far a run of events has come: the state of the chain, and the records
/// to write, each with its height.
pub struct Progress {
    pub state: SequenceState,
    pub writes: Seq<(u64, DerivedRecordView)>,
}

/// What a run of events adds to `start`. The first event that fails ends the
/// run with its error.
pub open spec fn processed_events(
    config: RollupConfig,
    supply: Seq<SuppliedBlobs>,
    events: Seq<(Block, Transaction, RollupEvent)>,
    start: Progress,
) -> Result<Progress, PipelineError>
    decreases events.len(),
{
    if events.len() == 0 {
        Ok(start)
    } else {
        match processed_events(config, supply, events.drop_last(), start) {
            Err(e) => Err(e),
            Ok(progress) => {
                let (block, transaction, event) = events.last();
                match submission(config, supply, progress.state, block, transaction, event) {
                    Err(e) => Err(e),
                    Ok(None) => Ok(progress),
                    Ok(Some((next, record))) => Ok(
                        Progress {
                            state: next,
                            writes: progress.writes.push((block.number, record)),
                        },
                    ),
                }
            },
        }
    }
}

/// Once a part of a run has failed, the whole run fails in the same way.
proof fn lemma_run_fails_on(
    config: RollupConfig,
    supply: Seq<SuppliedBlobs>,
    events: Seq<(Block, Transaction, RollupEvent)>,
    start: Progress,
    n: int,
)
    requires
        0 <= n <= events.len(),
        processed_events(config, supply, events.take(n), start).is_err(),
    ensures
        processed_events(config, supply, events, start) == processed_events(
            config,
            supply,
            events.take(n),
            start,
        ),
    decreases events.len() - n,
{
    if n < events.len() {
        assert(events.take(n + 1).drop_last() == events.take(n));
        lemma_run_fails_on(config, supply, events, start, n + 1);
    } else {
        assert(events.take(n) == events);
    }
}

/// The records of `writes`, each with its height.
pub open spec fn write_views(writes: Seq<(u64, DerivedRecord)>) -> Seq<(u64, DerivedRecordView)> {
    Seq::new(writes.len(), |i: int| (writes[i].0, writes[i].1@))
}

fn find_supplied<'a>(supply: &'a Vec<SuppliedBlobs>, tx_hash: &[u8; 32]) -> (r: Option<
    &'a Vec<BlobCandidate>,
>)
    ensures
        match r {
            Some(blobs) => supplied(supply@, *tx_hash) == Some(blobs@),
            None => supplied(supply@, *tx_hash).is_none(),
        },
{
    let mut i: usize = 0;
    while i < supply.len()
        invariant
            i <= supply.len(),
            supplied(supply@, *tx_hash) == supplied_from(supply@, *tx_hash, i as int),
        decreases supply.len() - i,
    {
        if bytes32_eq(&supply[i].tx_hash, tx_hash) {
            return Some(&supply[i].blobs);
        }
        i += 1;
    }
    None
}

fn claim(state: SequenceState, sequence_num: &[u8; 32], height: u64) -> (r: Result<
    SequenceState,
    SequenceError,
>)
    ensures
        r == claimed_step(state, *sequence_num, height),
{
    match word_to_u64(sequence_num) {
        Some(sequence) => advance(state, sequence, height),
        None => Err(SequenceError::NonMonotonicSequence { expected: state.last_sequence_number }),
    }
}

/// Derives the submission behind one event of the contract and holds it
/// against the state of its chain.
pub fn process_submission(
    config: &RollupConfig,
    supply: &Vec<SuppliedBlobs>,
    state: SequenceState,
    block: &Block,
    transaction: &Transaction,
    event: &RollupEvent,
) -> (r: Result<Option<(SequenceState, DerivedRecord)>, PipelineError>)
    ensures
        match r {
            Ok(Some((next, record))) => submission(
                *config,
                supply@,
                state,
                *block,
                *transaction,
                *event,
            ) == Ok::<Option<(SequenceState, DerivedRecordView)>, PipelineError>(
                Some((next, record@)),
            ),
            Ok(None) => submission(*config, supply@, state, *block, *transaction, *event) == Ok::<
                Option<(SequenceState, DerivedRecordView)>,
                PipelineError,
            >(None),
            Err(e) => submission(*config, supply@, state, *block, *transaction, *event) == Err::<
                Option<(SequenceState, DerivedRecordView)>,
                PipelineError,
            >(e),
        },
{
    let height = block.number;
    match event {
        RollupEvent::BlockSubmitted { chain_id, gas_limit, block_hash } => {
            match word_to_u64(chain_id) {
                Some(id) => {
                    if id != config.chain_id {
                        return Ok(None);
                    }
                },
                None => {
                    return Ok(None);
                },
            }
            let call = match decode_submit_block_call(transaction.input.as_slice()) {
                Some(call) => call,
                None => {
                    return Err(PipelineError::MalformedSubmission { height });
                },
            };
            let none: Vec<BlobCandidate> = Vec::new();
            let candidates: &Vec<BlobCandidate> = if transaction.blob_carrying {
                match find_supplied(supply, &transaction.hash) {
                    Some(blobs) => blobs,
                    None => {
                        return Err(
                            PipelineError::Derive { height, error: DeriveError::IncompleteBatch },
                        );
                    },
                }
            } else {
                assert(none@ =~= Seq::<BlobCandidate>::empty());
                &none
            };
            let transactions = match derive_transactions(
                transaction,
                candidates,
                call.block_data.as_slice(),
                block_hash,
                config.chain_id,
            ) {
                Ok(transactions) => transactions,
                Err(error) => {
                    return Err(PipelineError::Derive { height, error });
                },
            };
            match claim(state, &call.header.sequence_num, height) {
                Ok(next) => Ok(
                    Some(
                        (
                            next,
                            DerivedRecord {
                                chain_id: config.chain_id,
                                sequence: state.last_sequence_number,
                                block_hash: *block_hash,
                                transactions,
                            },
                        ),
                    ),
                ),
                Err(violation) => Err(
                    PipelineError::Sequence { chain_id: config.chain_id, height, violation },
                ),
            }
        },
    }
}

/// Derives the submissions behind a run of events, one after the other.
pub fn process_events(
    config: &RollupConfig,
    supply: &Vec<SuppliedBlobs>,
    found: &Vec<(&Block, &Transaction, RollupEvent)>,
    start: SequenceState,
) -> (r: Result<(SequenceState, Vec<(u64, DerivedRecord)>), PipelineError>)
    ensures
        match r {
            Ok((state, writes)) => processed_events(
                *config,
                supply@,
                located(found@),
                Progress { state: start, writes: Seq::empty() },
            ) == Ok::<Progress, PipelineError>(Progress { state, writes: write_views(writes@) }),
            Err(e) => processed_events(
                *config,
                supply@,
                located(found@),
                Progress { state: start, writes: Seq::empty() },
            ) == Err::<Progress, PipelineError>(e),
        },
{
    let ghost begin = Progress { state: start, writes: Seq::empty() };
    let mut state = start;
    let mut writes: Vec<(u64, DerivedRecord)> = Vec::new();
    let mut i: usize = 0;
    assert(located(found@).take(0) =~= Seq::<(Block, Transaction, RollupEvent)>::empty());
    assert(write_views(writes@) =~= Seq::<(u64, DerivedRecordView)>::empty());
    while i < found.len()
        invariant
            i <= found.len(),
            begin == (Progress { state: start, writes: Seq::empty() }),
            processed_events(*config, supply@, located(found@).take(i as int), begin) == Ok::<
                Progress,
                PipelineError,
            >(Progress { state, writes: write_views(writes@) }),
        decreases found.len() - i,
    {
        let ghost before = writes@;
        proof {
            assert(located(found@).take(i + 1).drop_last() == located(found@).take(i as int));
            assert(located(found@).take(i + 1).last() == located(found@)[i as int]);
        }
        let block: &Block = found[i].0;
        let transaction: &Transaction = found[i].1;
        match process_submission(config, supply, state, block, transaction, &found[i].2) {
            Ok(Some((next, record))) => {
                state = next;
                writes.push((block.number, record));
                assert(write_views(writes@) =~= write_views(before).push(
                    (block.number, record@),
                ));
            },
            Ok(None) => {},
            Err(e) => {
                proof {
                    lemma_run_fails_on(*config, supply@, located(found@), begin, i + 1);
                }
                return Err(e);
            },
        }
        i += 1;
    }
    assert(located(found@).take(found.len() as int) == located(found@));
    Ok((state, writes))
}

/// How many blocks two chains have in common at their start, counted from
/// place `i` on: blocks of one height and one hash.
pub open spec fn shared_from(old: Seq<Block>, new: Seq<Block>, i: int) -> int
    decreases old.len() - i,
{
    if 0 <= i < old.len() && i < new.len() && old[i].number == new[i].number && old[i].hash
        == new[i].hash {
        shared_from(old, new, i + 1)
    } else {
        i
    }
}

/// How many blocks two chains have in common at their start.
pub open spec fn shared(old: Seq<Block>, new: Seq<Block>) -> int {
    shared_from(old, new, 0)
}

/// What a notification asks for.
pub struct Plan {
    /// The heights whose records are taken out of the store, lowest and
    /// highest.
    pub rollback: Option<(u64, u64)>,
    /// The events to derive submissions from.
    pub events: Seq<(Block, Transaction, RollupEvent)>,
    /// The height to report as finished.
    pub finished_height: Option<u64>,
}

/// What a notification asks of a pipeline that follows the contract at
/// `target`. Blocks that were added are read for events of the contract, and
/// the highest of them is reported as finished. Blocks that were taken off
/// have their heights rolled back. In a reorg the blocks that both chains
/// start with stay as they are: they are neither rolled back nor read again.
pub open spec fn plan_of(notification: ChainNotification, target: [u8; 20]) -> Plan {
    match notification {
        ChainNotification::Committed { new } => Plan {
            rollback: None,
            events: chain_events(new@, target),
            finished_height: Some(new@.last().number),
        },
        ChainNotification::Reorged { old, new } => {
            let kept = shared(old@, new@);
            Plan {
                rollback: if kept < old@.len() {
                    Some((old@[kept].number, old@.last().number))
                } else {
                    None
                },
                events: chain_events(new@.skip(kept), target),
                finished_height: Some(new@.last().number),
            }
        },
        ChainNotification::Reverted { old } => Plan {
            rollback: Some((old@[0].number, old@.last().number)),
            events: Seq::empty(),
            finished_height: None,
        },
    }
}

/// Whether `height` is the greatest height of `table`.
pub open spec fn is_top(table: Map<u64, DerivedRecordView>, height: u64) -> bool {
    table.dom().contains(height) && forall|h: u64| table.dom().contains(h) ==> h <= height
}

/// The number after `sequence`, as far as there is one.
pub open spec fn next_number(sequence: u64) -> u64 {
    if sequence == u64::MAX {
        u64::MAX
    } else {
        (sequence + 1) as u64
    }
}

/// The sequence state that the records of `table` stand for: the state after
/// the submission of the greatest height, and the initial state where there is
/// no record.
pub open spec fn rebuilt_state(table: Map<u64, DerivedRecordView>) -> SequenceState {
    if exists|h: u64| is_top(table, h) {
        let top = choose|h: u64| is_top(table, h);
        SequenceState {
            last_sequence_number: next_number(table[top].sequence),
            last_submission_height: top,
        }
    } else {
        initial_state()
    }
}

/// `table` after the records of `writes` were put into it, in their order.
pub open spec fn apply_writes(
    table: Map<u64, DerivedRecordView>,
    writes: Seq<(u64, DerivedRecordView)>,
) -> Map<u64, DerivedRecordView>
    decreases writes.len(),
{
    if writes.len() == 0 {
        table
    } else {
        apply_writes(table, writes.drop_last()).insert(writes.last().0, writes.last().1)
    }
}

/// The heights of `writes`.
pub open spec fn written_heights(writes: Seq<(u64, DerivedRecordView)>) -> Seq<u64> {
    Seq::new(writes.len(), |i: int| writes[i].0)
}

/// What the caller has to make durable, and to report, after a notification
/// was applied.
#[derive(Clone, Debug, PartialEq, Eq)]
pub struct Outcome {
    /// The heights that were rolled back, lowest and highest.
    pub rollback: Option<(u64, u64)>,
    /// The heights whose records were written, in the order of the writes.
    pub written: Vec<u64>,
    /// The height to report as finished.
    pub finished_height: Option<u64>,
}

/// An `Outcome` with its heights as a sequence.
pub struct OutcomeView {
    pub rollback: Option<(u64, u64)>,
    pub written: Seq<u64>,
    pub finished_height: Option<u64>,
}

impl View for Outcome {
    type V = OutcomeView;

    open spec fn view(&self) -> OutcomeView {
        OutcomeView {
            rollback: self.rollback,
            written: self.written@,
            finished_height: self.finished_height,
        }
    }
}

/// A pipeline after a notification.
pub struct Applied {
    pub states: Map<u64, SequenceState>,
    pub table: Map<u64, DerivedRecordView>,
    pub outcome: OutcomeView,
}

/// The table that the events of a plan are derived on top of.
pub open spec fn rolled_back(table: Map<u64, DerivedRecordView>, rollback: Option<(u64, u64)>)
    -> Map<u64, DerivedRecordView> {
    match rollback {
        Some((lo, hi)) => table.remove_keys(heights(lo, hi)),
        None => table,
    }
}

/// The state of the chain that the events of a plan start from: after a
/// rollback the state that the records left in the store stand for, else the
/// state that the validator holds.
pub open spec fn start_state(
    config: RollupConfig,
    states: Map<u64, SequenceState>,
    table: Map<u64, DerivedRecordView>,
    rollback: Option<(u64, u64)>,
) -> SequenceState {
    match rollback {
        Some(_) => rebuilt_state(rolled_back(table, rollback)),
        None => state_of(states, config.chain_id),
    }
}

/// What carrying out `plan` makes of a pipeline with the sequence states
/// `states` and the store `table`. Nothing is changed unless every
/// submission of the plan succeeds.
pub open spec fn applied_plan(
    config: RollupConfig,
    states: Map<u64, SequenceState>,
    table: Map<u64, DerivedRecordView>,
    plan: Plan,
    supply: Seq<SuppliedBlobs>,
) -> Result<Applied, PipelineError> {
    let start = Progress {
        state: start_state(config, states, table, plan.rollback),
        writes: Seq::empty(),
    };
    match processed_events(config, supply, plan.events, start) {
        Err(e) => Err(e),
        Ok(progress) => Ok(
            Applied {
                states: states.insert(config.chain_id, progress.state),
                table: apply_writes(rolled_back(table, plan.rollback), progress.writes),
                outcome: OutcomeView {
                    rollback: plan.rollback,
                    written: written_heights(progress.writes),
                    finished_height: plan.finished_height,
                },
            },
        ),
    }
}

/// What a notification makes of a pipeline.
pub open spec fn applied(
    config: RollupConfig,
    states: Map<u64, SequenceState>,
    table: Map<u64, DerivedRecordView>,
    notification: ChainNotification,
    supply: Seq<SuppliedBlobs>,
) -> Result<Applied, PipelineError> {
    applied_plan(config, states, table, plan_of(notification, config.rollup_contract), supply)
}

/// The rollup pipeline of one rollup chain: its sequence validator and its
/// store of derived results.
///
/// One pipeline follows one rollup chain, the one of its configuration. The
/// submissions of other rollup chains to the same contract belong to other
/// pipelines: this one passes their events over, derives nothing from them
/// and does not hold them against a sequence state. Its validator is a map
/// over chain ids like any other, of which the pipeline moves one entry.
pub struct UnifiRollup {
    config: RollupConfig,
    validator: SequenceValidator,
    store: StateStore,
}

impl UnifiRollup {
    /// What the pipeline follows.
    pub closed spec fn spec_config(&self) -> RollupConfig {
        self.config
    }

    /// The sequence states that the validator holds.
    pub closed spec fn states(&self) -> Map<u64, SequenceState> {
        self.validator@
    }

    /// The records of the store.
    pub closed spec fn table(&self) -> Map<u64, DerivedRecordView> {
        self.store@
    }

    /// Whether `r` is what carrying out a plan with the result `expected`
    /// returns, and `self` the pipeline that it leaves behind `before`.
    pub open spec fn follows(
        &self,
        before: &UnifiRollup,
        r: Result<Outcome, PipelineError>,
        expected: Result<Applied, PipelineError>,
    ) -> bool {
        &&& self.spec_config() == before.spec_config()
        &&& match r {
            Ok(outcome) => expected.is_ok() && expected.unwrap().outcome == outcome@
                && self.states() == expected.unwrap().states && self.table()
                == expected.unwrap().table,
            Err(e) => expected == Err::<Applied, PipelineError>(e) && self.states()
                == before.states() && self.table() == before.table(),
        }
    }

    /// Whether the validator holds, for the chain of the pipeline, the state
    /// that the records of the store stand for.
    pub open spec fn is_in_step(&self) -> bool {
        in_step(self.spec_config(), self.states(), self.table())
    }

    /// A pipeline that has seen nothing yet.
    pub fn new(config: RollupConfig) -> (rollup: UnifiRollup)
        ensures
            rollup.spec_config() == config,
            rollup.states() == Map::<u64, SequenceState>::empty(),
            rollup.table() == Map::<u64, DerivedRecordView>::empty(),
            rollup.is_in_step(),
    {
        let rollup = UnifiRollup {
            config,
            validator: SequenceValidator::new(),
            store: StateStore::new(),
        };
        assert(forall|h: u64| !is_top(rollup.table(), h));
        rollup
    }

    /// A pipeline that goes on from the records of `store`, which are those
    /// of the pipeline's chain: the chain is in the state that the records
    /// stand for.
    pub fn resume(config: RollupConfig, store: StateStore) -> (rollup: UnifiRollup)
        ensures
            rollup.spec_config() == config,
            rollup.table() == store@,
            rollup.states() == Map::<u64, SequenceState>::empty().insert(
                config.chain_id,
                rebuilt_state(store@),
            ),
            rollup.is_in_step(),
    {
        let mut rollup = UnifiRollup { config, validator: SequenceValidator::new(), store };
        assert(rollup.table().remove_keys(heights(1, 0)) =~= rollup.table());
        let state = rollup.start_of(Some((1, 0)));
        rollup.validator.restore(config.chain_id, state);
        rollup
    }

    /// What the pipeline follows.
    pub fn config(&self) -> (config: RollupConfig)
        ensures
            config == self.spec_config(),
    {
        self.config
    }

    /// The sequence validator of the pipeline.
    pub fn validator(&self) -> (validator: &SequenceValidator)
        ensures
            validator@ == self.states(),
    {
        &self.validator
    }

    /// The store of the pipeline.
    pub fn store(&self) -> (store: &StateStore)
        ensures
            store@ == self.table(),
    {
        &self.store
    }

    /// The state that the events of a plan with this rollback start from.
    fn start_of(&self, rollback: Option<(u64, u64)>) -> (state: SequenceState)
        ensures
            state == start_state(self.spec_config(), self.states(), self.table(), rollback),
    {
        match rollback {
            Some((lo, hi)) => {
                let ghost left = self.table().remove_keys(heights(lo, hi));
                match self.store.last_outside(lo, hi) {
                    Some((top, record)) => {
                        proof {
                            assert(is_top(left, top));
                            let chosen = choose|h: u64| is_top(left, h);
                            assert(is_top(left, chosen));
                            assert(chosen == top);
                        }
                        let next = if record.sequence == u64::MAX {
                            u64::MAX
                        } else {
                            record.sequence + 1
                        };
                        SequenceState { last_sequence_number: next, last_submission_height: top }
                    },
                    None => {
                        assert(forall|h: u64| !is_top(left, h));
                        SequenceState { last_sequence_number: 0, last_submission_height: 0 }
                    },
                }
            },
            None => self.validator.state(self.config.chain_id),
        }
    }

    /// Carries out a plan: derives the submissions behind `found`, and if all
    /// of them succeed, rolls back, writes the records and moves the sequence
    /// state.
    fn carry_out(
        &mut self,
        rollback: Option<(u64, u64)>,
        found: &Vec<(&Block, &Transaction, RollupEvent)>,
        finished_height: Option<u64>,
        supply: &Vec<SuppliedBlobs>,
    ) -> (r: Result<Outcome, PipelineError>)
        ensures
            final(self).follows(
                old(self),
                r,
                applied_plan(
                    old(self).spec_config(),
                    old(self).states(),
                    old(self).table(),
                    Plan { rollback, events: located(found@), finished_height },
                    supply@,
                ),
            ),
    {
        let start = self.start_of(rollback);
        let (state, mut writes) = match process_events(&self.config, supply, found, start) {
            Ok(done) => done,
            Err(e) => {
                return Err(e);
            },
        };
        let ghost all = write_views(writes@);
        let ghost base = rolled_back(self.table(), rollback);
        match rollback {
            Some((lo, hi)) => {
                self.store.delete_range(lo, hi);
            },
            None => {},
        }
        let mut written: Vec<u64> = Vec::new();
        assert(all.take(0) =~= Seq::<(u64, DerivedRecordView)>::empty());
        assert(written@ =~= written_heights(all.take(0)));
        while writes.len() > 0
            invariant
                written@.len() + writes@.len() == all.len(),
                write_views(writes@) == all.skip(written@.len() as int),
                written@ == written_heights(all.take(written@.len() as int)),
                self.store@ == apply_writes(base, all.take(written@.len() as int)),
                self.config == old(self).config,
                self.validator@ == old(self).validator@,
            decreases writes@.len(),
        {
            let ghost done = written@.len() as int;
            let ghost rest = writes@;
            let (height, record) = writes.remove(0);
            proof {
                assert(all[done] == write_views(rest)[0]);
                assert(all.take(done + 1).drop_last() == all.take(done));
                assert(all.take(done + 1).last() == (height, record@));
                assert forall|i: int| 0 <= i < writes@.len() implies write_views(writes@)[i]
                    == all.skip(done + 1)[i] by {
                    assert(writes@[i] == rest[i + 1]);
                    assert(write_views(rest)[i + 1] == all.skip(done)[i + 1]);
                }
                assert(write_views(writes@) =~= all.skip(done + 1));
            }
            self.store.write(height, record);
            written.push(height);
            assert(written@ =~= written_heights(all.take(done + 1)));
        }
        assert(all.take(all.len() as int) == all);
        self.validator.restore(self.config.chain_id, state);
        Ok(Outcome { rollback, written, finished_height })
    }

    /// Applies the notification that the blocks of `chain` were added: derives
    /// the submissions in them, writes their records, and reports the highest
    /// block as finished.
    pub fn handle_chain_committed(&mut self, chain: &Chain, supply: &Vec<SuppliedBlobs>) -> (r:
        Result<Outcome, PipelineError>)
        ensures
            final(self).follows(
                old(self),
                r,
                applied(
                    old(self).spec_config(),
                    old(self).states(),
                    old(self).table(),
                    ChainNotification::Committed { new: *chain },
                    supply@,
                ),
            ),
            old(self).is_in_step() && extends_store(
                old(self).spec_config(),
                old(self).table(),
                ChainNotification::Committed { new: *chain },
            ) ==> final(self).is_in_step(),
    {
        let blocks = chain.blocks();
        let target = self.config.rollup_contract;
        let found = decode_blocks_from(blocks, 0, &target);
        assert(blocks@.skip(0) == blocks@);
        let tip = chain.tip().number;
        let r = self.carry_out(None, &found, Some(tip), supply);
        proof {
            let notification = ChainNotification::Committed { new: *chain };
            if r.is_ok() && old(self).is_in_step() && extends_store(
                old(self).spec_config(),
                old(self).table(),
                notification,
            ) {
                lemma_notification_keeps_in_step(
                    old(self).spec_config(),
                    old(self).states(),
                    old(self).table(),
                    notification,
                    supply@,
                );
            }
        }
        r
    }

    /// Applies the notification that the blocks of `old` were taken off the
    /// chain and those of `new` put in their place: rolls back the heights of
    /// `old` that `new` does not share, then derives the submissions in the
    /// blocks of `new` that `old` does not share.
    pub fn handle_chain_reorged(
        &mut self,
        old_chain: &Chain,
        new_chain: &Chain,
        supply: &Vec<SuppliedBlobs>,
    ) -> (r: Result<Outcome, PipelineError>)
        ensures
            final(self).follows(
                old(self),
                r,
                applied(
                    old(self).spec_config(),
                    old(self).states(),
                    old(self).table(),
                    ChainNotification::Reorged { old: *old_chain, new: *new_chain },
                    supply@,
                ),
            ),
            old(self).is_in_step() && extends_store(
                old(self).spec_config(),
                old(self).table(),
                ChainNotification::Reorged { old: *old_chain, new: *new_chain },
            ) ==> final(self).is_in_step(),
    {
        let kept = shared_prefix(old_chain, new_chain);
        let old_blocks = old_chain.blocks();
        let new_blocks = new_chain.blocks();
        let rollback = if kept < old_blocks.len() {
            Some((old_blocks[kept].number, old_chain.tip().number))
        } else {
            None
        };
        let target = self.config.rollup_contract;
        let found = decode_blocks_from(new_blocks, kept, &target);
        let tip = new_chain.tip().number;
        let r = self.carry_out(rollback, &found, Some(tip), supply);
        proof {
            let notification = ChainNotification::Reorged { old: *old_chain, new: *new_chain };
            if r.is_ok() && old(self).is_in_step() && extends_store(
                old(self).spec_config(),
                old(self).table(),
                notification,
            ) {
                lemma_notification_keeps_in_step(
                    old(self).spec_config(),
                    old(self).states(),
                    old(self).table(),
                    notification,
                    supply@,
                );
            }
        }
        r
    }

    /// Applies the notification that the blocks of `chain` were taken off the
    /// chain: rolls back their heights. Nothing is derived and nothing is
    /// reported as finished.
    pub fn handle_chain_reverted(&mut self, chain: &Chain) -> (r: Result<Outcome, PipelineError>)
        ensures
            r.is_ok(),
            final(self).follows(
                old(self),
                r,
                applied(
                    old(self).spec_config(),
                    old(self).states(),
                    old(self).table(),
                    ChainNotification::Reverted { old: *chain },
                    Seq::empty(),
                ),
            ),
            final(self).is_in_step(),
    {
        let range = chain.range();
        let found: Vec<(&Block, &Transaction, RollupEvent)> = Vec::new();
        let supply: Vec<SuppliedBlobs> = Vec::new();
        assert(located(found@) =~= Seq::<(Block, Transaction, RollupEvent)>::empty());
        assert(supply@ =~= Seq::<SuppliedBlobs>::empty());
        self.carry_out(Some(range), &found, None, &supply)
    }

    /// Applies one notification. `supply` holds the blobs that were found for
    /// the transactions that `blob_requests` names. Either the whole
    /// notification is applied, or the pipeline stays as it was and the error
    /// says which submission failed.
    pub fn process_notification(
        &mut self,
        notification: &ChainNotification,
        supply: &Vec<SuppliedBlobs>,
    ) -> (r: Result<Outcome, PipelineError>)
        ensures
            final(self).follows(
                old(self),
                r,
                applied(
                    old(self).spec_config(),
                    old(self).states(),
                    old(self).table(),
                    *notification,
                    supply@,
                ),
            ),
            old(self).is_in_step() && extends_store(
                old(self).spec_config(),
                old(self).table(),
                *notification,
            ) ==> final(self).is_in_step(),
    {
        match notification {
            ChainNotification::Committed { new } => self.handle_chain_committed(new, supply),
            ChainNotification::Reorged { old, new } => self.handle_chain_reorged(old, new, supply),
            ChainNotification::Reverted { old } => self.handle_chain_reverted(old),
        }
    }

    /// The transactions whose blobs have to be found before `notification` can
    /// be applied, by their hashes.
    pub fn blob_requests(&self, notification: &ChainNotification) -> (hashes: Vec<[u8; 32]>)
        ensures
            hashes@ == requested(
                self.spec_config(),
                plan_of(*notification, self.spec_config().rollup_contract).events,
            ),
    {
        let target = self.config.rollup_contract;
        let found = match notification {
            ChainNotification::Committed { new } => {
                let blocks = new.blocks();
                assert(blocks@.skip(0) == blocks@);
                decode_blocks_from(blocks, 0, &target)
            },
            ChainNotification::Reorged { old, new } => {
                let kept = shared_prefix(old, new);
                decode_blocks_from(new.blocks(), kept, &target)
            },
            ChainNotification::Reverted { old } => {
                let none: Vec<(&Block, &Transaction, RollupEvent)> = Vec::new();
                assert(located(none@) =~= Seq::<(Block, Transaction, RollupEvent)>::empty());
                none
            },
        };
        let mut hashes: Vec<[u8; 32]> = Vec::new();
        let mut i: usize = 0;
        assert(located(found@).take(0) =~= Seq::<(Block, Transaction, RollupEvent)>::empty());
        while i < found.len()
            invariant
                i <= found.len(),
                hashes@ == requested(self.config, located(found@).take(i as int)),
            decreases found.len() - i,
        {
            proof {
                assert(located(found@).take(i + 1).drop_last() == located(found@).take(i as int));
                assert(located(found@).take(i + 1).last() == located(found@)[i as int]);
            }
            let transaction: &Transaction = found[i].1;
            if transaction.blob_carrying && is_of_chain(&found[i].2, self.config.chain_id) {
                hashes.push(transaction.hash);
            }
            i += 1;
        }
        assert(located(found@).take(found.len() as int) == located(found@));
        hashes
    }
}

/// Whether `event` is of the rollup chain `chain_id`.
pub open spec fn of_chain(event: RollupEvent, chain_id: u64) -> bool {
    match event {
        RollupEvent::BlockSubmitted { chain_id: word, gas_limit, block_hash } => be_value(word@)
            == chain_id,
    }
}

/// Whether `event` is of the rollup chain `chain_id`.
pub fn is_of_chain(event: &RollupEvent, chain_id: u64) -> (r: bool)
    ensures
        r == of_chain(*event, chain_id),
{
    match event {
        RollupEvent::BlockSubmitted { chain_id: word, gas_limit, block_hash } => {
            match word_to_u64(word) {
                Some(id) => id == chain_id,
                None => false,
            }
        },
    }
}

/// The hashes of the transactions behind `events` whose blobs are needed:
/// those that carry blobs and submit to the chain of the pipeline.
pub open spec fn requested(config: RollupConfig, events: Seq<(Block, Transaction, RollupEvent)>)
    -> Seq<[u8; 32]>
    decreases events.len(),
{
    if events.len() == 0 {
        Seq::empty()
    } else {
        let before = requested(config, events.drop_last());
        let (block, transaction, event) = events.last();
        if transaction.blob_carrying && of_chain(event, config.chain_id) {
            before.push(transaction.hash)
        } else {
            before
        }
    }
}

fn shared_prefix(old_chain: &Chain, new_chain: &Chain) -> (kept: usize)
    ensures
        kept == shared(old_chain@, new_chain@),
        kept <= old_chain@.len(),
        kept <= new_chain@.len(),
{
    let old_blocks = old_chain.blocks();
    let new_blocks = new_chain.blocks();
    let mut i: usize = 0;
    while i < old_blocks.len() && i < new_blocks.len() && old_blocks[i].number
        == new_blocks[i].number && bytes32_eq(&old_blocks[i].hash, &new_blocks[i].hash)
        invariant
            i <= old_blocks.len(),
            i <= new_blocks.len(),
            shared(old_blocks@, new_blocks@) == shared_from(old_blocks@, new_blocks@, i as int),
        decreases old_blocks.len() - i,
    {
        i += 1;
    }
    i
}

/// The record that `writes` puts at `height` last, if it puts one there.
spec fn last_write(writes: Seq<(u64, DerivedRecordView)>, height: u64) -> Option<
    DerivedRecordView,
>
    decreases writes.len(),
{
    if writes.len() == 0 {
        None
    } else if writes.last().0 == height {
        Some(writes.last().1)
    } else {
        last_write(writes.drop_last(), height)
    }
}

/// After a run of writes a height has the record that was written there
/// last, and else the record that it had.
proof fn lemma_apply_writes(
    table: Map<u64, DerivedRecordView>,
    writes: Seq<(u64, DerivedRecordView)>,
    height: u64,
)
    ensures
        apply_writes(table, writes).dom().contains(height) == (table.dom().contains(height)
            || last_write(writes, height).is_some()),
        apply_writes(table, writes)[height] == match last_write(writes, height) {
            Some(record) => record,
            None => table[height],
        },
    decreases writes.len(),
{
    if writes.len() > 0 {
        lemma_apply_writes(table, writes.drop_last(), height);
    }
}

/// Writing the same records a second time changes nothing.
pub proof fn lemma_writes_twice(
    table: Map<u64, DerivedRecordView>,
    writes: Seq<(u64, DerivedRecordView)>,
)
    ensures
        apply_writes(apply_writes(table, writes), writes) == apply_writes(table, writes),
{
    let once = apply_writes(table, writes);
    let twice = apply_writes(once, writes);
    assert forall|h: u64| #[trigger] twice.dom().contains(h) == once.dom().contains(h) by {
        lemma_apply_writes(table, writes, h);
        lemma_apply_writes(once, writes, h);
    }
    assert forall|h: u64| once.dom().contains(h) implies #[trigger] twice[h] == once[h] by {
        lemma_apply_writes(table, writes, h);
        lemma_apply_writes(once, writes, h);
    }
    assert(twice.dom() =~= once.dom());
    assert(twice =~= once);
}

/// Applying a notification of added blocks is repeatable: when it is applied
/// a second time to the store that it left, with the sequence states put back
/// to what they were before, the store and the states come out as they did the
/// first time.
pub proof fn lemma_committed_twice(
    config: RollupConfig,
    states: Map<u64, SequenceState>,
    table: Map<u64, DerivedRecordView>,
    new: Chain,
    supply: Seq<SuppliedBlobs>,
)
    requires
        applied(config, states, table, ChainNotification::Committed { new }, supply).is_ok(),
    ensures
        ({
            let first = applied(
                config,
                states,
                table,
                ChainNotification::Committed { new },
                supply,
            ).unwrap();
            applied(config, states, first.table, ChainNotification::Committed { new }, supply)
                == Ok::<Applied, PipelineError>(first)
        }),
{
    let plan = plan_of(ChainNotification::Committed { new }, config.rollup_contract);
    let start = Progress { state: state_of(states, config.chain_id), writes: Seq::empty() };
    let progress = processed_events(config, supply, plan.events, start).unwrap();
    lemma_writes_twice(table, progress.writes);
}

/// The records of a run carry the sequence numbers from the one that was due
/// at its start on, without a gap, and the state at its end counts them.
pub proof fn lemma_records_are_numbered_in_a_row(
    config: RollupConfig,
    supply: Seq<SuppliedBlobs>,
    events: Seq<(Block, Transaction, RollupEvent)>,
    start: SequenceState,
)
    requires
        processed_events(
            config,
            supply,
            events,
            Progress { state: start, writes: Seq::empty() },
        ).is_ok(),
    ensures
        ({
            let end = processed_events(
                config,
                supply,
                events,
                Progress { state: start, writes: Seq::empty() },
            ).unwrap();
            &&& end.state.last_sequence_number == start.last_sequence_number + end.writes.len()
            &&& forall|i: int|
                0 <= i < end.writes.len() ==> (#[trigger] end.writes[i]).1.sequence
                    == start.last_sequence_number + i
        }),
    decreases events.len(),
{
    if events.len() > 0 {
        lemma_records_are_numbered_in_a_row(config, supply, events.drop_last(), start);
    }
}

/// Whether the heights of `writes` rise strictly.
spec fn writes_rise(writes: Seq<(u64, DerivedRecordView)>) -> bool {
    forall|i: int, j: int| 0 <= i < j < writes.len() ==> writes[i].0 < writes[j].0
}

/// Whether the chains of `notification` are chains.
pub open spec fn chains_are_valid(notification: ChainNotification) -> bool {
    match notification {
        ChainNotification::Committed { new } => is_chain(new@),
        ChainNotification::Reorged { old, new } => is_chain(old@) && is_chain(new@),
        ChainNotification::Reverted { old } => is_chain(old@),
    }
}

proof fn lemma_shared_from(old: Seq<Block>, new: Seq<Block>, i: int)
    requires
        0 <= i <= old.len(),
        i <= new.len(),
    ensures
        i <= shared_from(old, new, i) <= old.len(),
        shared_from(old, new, i) <= new.len(),
    decreases old.len() - i,
{
    if i < old.len() && i < new.len() && old[i].number == new[i].number && old[i].hash
        == new[i].hash {
        lemma_shared_from(old, new, i + 1);
    }
}

proof fn lemma_run_writes_rise(
    config: RollupConfig,
    supply: Seq<SuppliedBlobs>,
    events: Seq<(Block, Transaction, RollupEvent)>,
    start: SequenceState,
)
    requires
        heights_rise(events),
        processed_events(
            config,
            supply,
            events,
            Progress { state: start, writes: Seq::empty() },
        ).is_ok(),
    ensures
        ({
            let end = processed_events(
                config,
                supply,
                events,
                Progress { state: start, writes: Seq::empty() },
            ).unwrap();
            &&& writes_rise(end.writes)
            &&& end.writes.len() > 0 ==> events.len() > 0 && end.state.last_submission_height
                == end.writes.last().0 && end.writes.last().0 <= events.last().0.number
        }),
    decreases events.len(),
{
    if events.len() > 0 {
        let begin = Progress { state: start, writes: Seq::empty() };
        let shorter = events.drop_last();
        assert(heights_rise(shorter)) by {
            assert forall|i: int, j: int| 0 <= i <= j < shorter.len() implies shorter[i].0.number
                <= shorter[j].0.number by {
                assert(events[i].0.number <= events[j].0.number);
            }
        }
        lemma_run_writes_rise(config, supply, shorter, start);
        let before = processed_events(config, supply, shorter, begin).unwrap();
        let end = processed_events(config, supply, events, begin).unwrap();
        let (block, transaction, event) = events.last();
        if before.writes.len() > 0 {
            assert(shorter.last() == events[events.len() - 2]);
            assert(events[events.len() - 2].0.number <= events[events.len() - 1].0.number);
        }
        match submission(config, supply, before.state, block, transaction, event) {
            Ok(Some((next, record))) => {
                assert(end.writes == before.writes.push((block.number, record)));
                assert forall|i: int, j: int| 0 <= i < j < end.writes.len() implies end.writes[i].0
                    < end.writes[j].0 by {
                    if j < before.writes.len() {
                        assert(before.writes[i].0 < before.writes[j].0);
                    } else if i < before.writes.len() - 1 {
                        assert(before.writes[i].0 < before.writes[before.writes.len() - 1].0);
                    }
                }
            },
            _ => {},
        }
    }
}

/// One notification writes a height at most once, and writes the heights in
/// rising order.
pub proof fn lemma_heights_are_written_once(
    config: RollupConfig,
    states: Map<u64, SequenceState>,
    table: Map<u64, DerivedRecordView>,
    notification: ChainNotification,
    supply: Seq<SuppliedBlobs>,
)
    requires
        chains_are_valid(notification),
        applied(config, states, table, notification, supply).is_ok(),
    ensures
        ({
            let after = applied(config, states, table, notification, supply).unwrap();
            let written = after.outcome.written;
            forall|i: int, j: int| 0 <= i < j < written.len() ==> written[i] < written[j]
        }),
{
    let plan = plan_of(notification, config.rollup_contract);
    let start = start_state(config, states, table, plan.rollback);
    match notification {
        ChainNotification::Committed { new } => {
            lemma_chain_rises(new@);
            lemma_events_rise(new@, config.rollup_contract);
        },
        ChainNotification::Reorged { old, new } => {
            lemma_shared_from(old@, new@, 0);
            lemma_chain_rises(new@);
            let rest = new@.skip(shared(old@, new@));
            assert(numbers_rise(rest)) by {
                assert forall|i: int, j: int| 0 <= i <= j < rest.len() implies rest[i].number
                    <= rest[j].number by {
                    assert(new@[shared(old@, new@) + i].number <= new@[shared(old@, new@)
                        + j].number);
                }
            }
            lemma_events_rise(rest, config.rollup_contract);
        },
        ChainNotification::Reverted { old } => {},
    }
    lemma_run_writes_rise(config, supply, plan.events, start);
    let end = processed_events(
        config,
        supply,
        plan.events,
        Progress { state: start, writes: Seq::empty() },
    ).unwrap();
    let written = written_heights(end.writes);
    assert forall|i: int, j: int| 0 <= i < j < written.len() implies written[i] < written[j] by {
        assert(end.writes[i].0 < end.writes[j].0);
    }
}

/// Whether the state that the validator holds for the chain of the pipeline
/// is the state that the records of the store stand for.
pub open spec fn in_step(
    config: RollupConfig,
    states: Map<u64, SequenceState>,
    table: Map<u64, DerivedRecordView>,
) -> bool {
    state_of(states, config.chain_id) == rebuilt_state(table)
}

/// Whether every record of `table` stands below `height`.
pub open spec fn store_is_below(table: Map<u64, DerivedRecordView>, height: u64) -> bool {
    forall|h: u64| table.dom().contains(h) ==> h < height
}

/// The height of the lowest block that `notification` has read for events,
/// if it has any read.
pub open spec fn first_read(notification: ChainNotification) -> Option<u64> {
    match notification {
        ChainNotification::Committed { new } => Some(new@[0].number),
        ChainNotification::Reorged { old, new } => if shared(old@, new@) < new@.len() {
            Some(new@[shared(old@, new@)].number)
        } else {
            None
        },
        ChainNotification::Reverted { old } => None,
    }
}

/// Whether `notification` goes on where the store ends: the blocks that it
/// has read stand above every record that its rollback leaves in `table`.
pub open spec fn extends_store(
    config: RollupConfig,
    table: Map<u64, DerivedRecordView>,
    notification: ChainNotification,
) -> bool {
    match first_read(notification) {
        Some(height) => store_is_below(
            rolled_back(table, plan_of(notification, config.rollup_contract).rollback),
            height,
        ),
        None => true,
    }
}

proof fn lemma_last_write_is_a_write(writes: Seq<(u64, DerivedRecordView)>, height: u64)
    requires
        last_write(writes, height).is_some(),
    ensures
        exists|i: int| 0 <= i < writes.len() && (#[trigger] writes[i]).0 == height,
    decreases writes.len(),
{
    if writes.last().0 == height {
        assert(writes[writes.len() - 1].0 == height);
    } else {
        lemma_last_write_is_a_write(writes.drop_last(), height);
        let i = choose|i: int|
            0 <= i < writes.drop_last().len() && (#[trigger] writes.drop_last()[i]).0 == height;
        assert(writes[i].0 == height);
    }
}

proof fn lemma_writes_are_within(
    config: RollupConfig,
    supply: Seq<SuppliedBlobs>,
    events: Seq<(Block, Transaction, RollupEvent)>,
    start: SequenceState,
    floor: u64,
    ceiling: u64,
)
    requires
        forall|e: int|
            0 <= e < events.len() ==> floor <= (#[trigger] events[e]).0.number
                && events[e].0.number <= ceiling,
        processed_events(
            config,
            supply,
            events,
            Progress { state: start, writes: Seq::empty() },
        ).is_ok(),
    ensures
        ({
            let end = processed_events(
                config,
                supply,
                events,
                Progress { state: start, writes: Seq::empty() },
            ).unwrap();
            &&& end.writes.len() == 0 ==> end.state == start
            &&& forall|i: int|
                0 <= i < end.writes.len() ==> floor <= (#[trigger] end.writes[i]).0
                    && end.writes[i].0 <= ceiling
        }),
    decreases events.len(),
{
    if events.len() > 0 {
        let begin = Progress { state: start, writes: Seq::empty() };
        let shorter = events.drop_last();
        assert forall|e: int| 0 <= e < shorter.len() implies floor <= (
        #[trigger] shorter[e]).0.number && shorter[e].0.number <= ceiling by {
            assert(shorter[e] == events[e]);
        }
        lemma_writes_are_within(config, supply, shorter, start, floor, ceiling);
        let before = processed_events(config, supply, shorter, begin).unwrap();
        let end = processed_events(config, supply, events, begin).unwrap();
        let (block, transaction, event) = events.last();
        assert(events[events.len() - 1].0 == block);
        match submission(config, supply, before.state, block, transaction, event) {
            Ok(Some((next, record))) => {
                assert(end.writes == before.writes.push((block.number, record)));
                assert forall|i: int| 0 <= i < end.writes.len() implies floor <= (
                #[trigger] end.writes[i]).0 && end.writes[i].0 <= ceiling by {
                    if i < before.writes.len() {
                        assert(end.writes[i] == before.writes[i]);
                    }
                }
            },
            _ => {},
        }
    }
}

/// A run that starts from the state that a table stands for, over events
/// above the table, ends in the state that the table stands for after the
/// writes of the run.
proof fn lemma_run_ends_in_step(
    config: RollupConfig,
    supply: Seq<SuppliedBlobs>,
    events: Seq<(Block, Transaction, RollupEvent)>,
    base: Map<u64, DerivedRecordView>,
    floor: u64,
)
    requires
        heights_rise(events),
        forall|e: int| 0 <= e < events.len() ==> floor <= (#[trigger] events[e]).0.number,
        store_is_below(base, floor),
        processed_events(
            config,
            supply,
            events,
            Progress { state: rebuilt_state(base), writes: Seq::empty() },
        ).is_ok(),
    ensures
        ({
            let end = processed_events(
                config,
                supply,
                events,
                Progress { state: rebuilt_state(base), writes: Seq::empty() },
            ).unwrap();
            end.state == rebuilt_state(apply_writes(base, end.writes))
        }),
{
    let start = rebuilt_state(base);
    let end = processed_events(
        config,
        supply,
        events,
        Progress { state: start, writes: Seq::empty() },
    ).unwrap();
    lemma_writes_are_within(config, supply, events, start, floor, u64::MAX);
    lemma_run_writes_rise(config, supply, events, start);
    lemma_records_are_numbered_in_a_row(config, supply, events, start);
    let writes = end.writes;
    if writes.len() > 0 {
        let after = apply_writes(base, writes);
        let top = writes.last().0;
        lemma_apply_writes(base, writes, top);
        assert(writes[writes.len() - 1].0 == top);
        assert forall|h: u64| after.dom().contains(h) implies h <= top by {
            lemma_apply_writes(base, writes, h);
            if last_write(writes, h).is_some() {
                lemma_last_write_is_a_write(writes, h);
                let i = choose|i: int| 0 <= i < writes.len() && (#[trigger] writes[i]).0 == h;
                if i < writes.len() - 1 {
                    assert(writes[i].0 < writes[writes.len() - 1].0);
                }
            }
        }
        assert(is_top(after, top));
        let chosen = choose|h: u64| is_top(after, h);
        assert(is_top(after, chosen));
        assert(chosen == top);
        assert(writes[writes.len() - 1].1.sequence == start.last_sequence_number + writes.len()
            - 1);
    }
}

/// Cutting the heights of a chain out of a store that a commit of the chain
/// has written to, on top of records below the chain, gives the store from
/// before the commit.
proof fn lemma_rollback_of_writes(
    table: Map<u64, DerivedRecordView>,
    writes: Seq<(u64, DerivedRecordView)>,
    lo: u64,
    hi: u64,
)
    requires
        store_is_below(table, lo),
        forall|i: int|
            0 <= i < writes.len() ==> lo <= (#[trigger] writes[i]).0 && writes[i].0 <= hi,
    ensures
        apply_writes(table, writes).remove_keys(heights(lo, hi)) == table,
{
    let after = apply_writes(table, writes);
    let cut = after.remove_keys(heights(lo, hi));
    assert forall|h: u64| #[trigger] cut.dom().contains(h) == table.dom().contains(h) by {
        lemma_apply_writes(table, writes, h);
        if last_write(writes, h).is_some() {
            lemma_last_write_is_a_write(writes, h);
        }
    }
    assert forall|h: u64| table.dom().contains(h) implies #[trigger] cut[h] == table[h] by {
        lemma_apply_writes(table, writes, h);
        if last_write(writes, h).is_some() {
            lemma_last_write_is_a_write(writes, h);
        }
    }
    assert(cut.dom() =~= table.dom());
    assert(cut =~= table);
}

/// A notification that goes on where the store ends keeps validator and
/// store in step.
pub proof fn lemma_notification_keeps_in_step(
    config: RollupConfig,
    states: Map<u64, SequenceState>,
    table: Map<u64, DerivedRecordView>,
    notification: ChainNotification,
    supply: Seq<SuppliedBlobs>,
)
    requires
        chains_are_valid(notification),
        in_step(config, states, table),
        extends_store(config, table, notification),
        applied(config, states, table, notification, supply).is_ok(),
    ensures
        ({
            let after = applied(config, states, table, notification, supply).unwrap();
            in_step(config, after.states, after.table)
        }),
{
    let target = config.rollup_contract;
    let plan = plan_of(notification, target);
    let base = rolled_back(table, plan.rollback);
    assert(start_state(config, states, table, plan.rollback) == rebuilt_state(base));
    match notification {
        ChainNotification::Committed { new } => {
            lemma_chain_rises(new@);
            lemma_events_rise(new@, target);
            lemma_events_are_within(new@, target);
            lemma_run_ends_in_step(config, supply, plan.events, base, new@[0].number);
        },
        ChainNotification::Reorged { old, new } => {
            lemma_shared_from(old@, new@, 0);
            lemma_chain_rises(new@);
            let kept = shared(old@, new@);
            let rest = new@.skip(kept);
            if kept < new@.len() {
                assert(numbers_rise(rest)) by {
                    assert forall|i: int, j: int| 0 <= i <= j < rest.len() implies rest[i].number
                        <= rest[j].number by {
                        assert(new@[kept + i].number <= new@[kept + j].number);
                    }
                }
                lemma_events_rise(rest, target);
                lemma_events_are_within(rest, target);
                assert(rest[0] == new@[kept]);
                lemma_run_ends_in_step(config, supply, plan.events, base, new@[kept].number);
            } else {
                assert(rest =~= Seq::<Block>::empty());
            }
        },
        ChainNotification::Reverted { old } => {},
    }
}

/// A revert right after a commit gives back what was there before: where
/// validator and store were in step and the chain went on where the store
/// ended, taking the chain off again leaves the store and the state of the
/// pipeline's chain as they were before the chain was added.
pub proof fn lemma_revert_undoes_commit(
    config: RollupConfig,
    states: Map<u64, SequenceState>,
    table: Map<u64, DerivedRecordView>,
    chain: Chain,
    supply: Seq<SuppliedBlobs>,
)
    requires
        is_chain(chain@),
        in_step(config, states, table),
        store_is_below(table, chain@[0].number),
        applied(config, states, table, ChainNotification::Committed { new: chain }, supply).is_ok(),
    ensures
        ({
            let committed = applied(
                config,
                states,
                table,
                ChainNotification::Committed { new: chain },
                supply,
            ).unwrap();
            let reverted = applied(
                config,
                committed.states,
                committed.table,
                ChainNotification::Reverted { old: chain },
                Seq::empty(),
            );
            &&& reverted.is_ok()
            &&& reverted.unwrap().table == table
            &&& state_of(reverted.unwrap().states, config.chain_id) == state_of(
                states,
                config.chain_id,
            )
        }),
{
    lemma_commit_is_rolled_back(config, states, table, chain, supply);
}

/// After a commit of `chain` on top of records below it, cutting the heights
/// of `chain` out of the store gives the store from before.
proof fn lemma_commit_is_rolled_back(
    config: RollupConfig,
    states: Map<u64, SequenceState>,
    table: Map<u64, DerivedRecordView>,
    chain: Chain,
    supply: Seq<SuppliedBlobs>,
)
    requires
        is_chain(chain@),
        store_is_below(table, chain@[0].number),
        applied(config, states, table, ChainNotification::Committed { new: chain }, supply).is_ok(),
    ensures
        applied(
            config,
            states,
            table,
            ChainNotification::Committed { new: chain },
            supply,
        ).unwrap().table.remove_keys(heights(chain@[0].number, chain@.last().number)) == table,
{
    let target = config.rollup_contract;
    let start = state_of(states, config.chain_id);
    lemma_chain_rises(chain@);
    lemma_events_are_within(chain@, target);
    lemma_writes_are_within(
        config,
        supply,
        chain_events(chain@, target),
        start,
        chain@[0].number,
        chain@.last().number,
    );
    let end = processed_events(
        config,
        supply,
        chain_events(chain@, target),
        Progress { state: start, writes: Seq::empty() },
    ).unwrap();
    lemma_rollback_of_writes(table, end.writes, chain@[0].number, chain@.last().number);
}

/// A reorg leaves what the new branch alone would have left: where validator
/// and store were in step, the old branch went on where the store ended, and
/// the two branches have no block in common, the store and the state of the
/// pipeline's chain after the reorg are those that a commit of the new branch
/// in place of the old one gives. Nothing of the old branch remains.
pub proof fn lemma_reorg_is_commit_of_the_new_branch(
    config: RollupConfig,
    states: Map<u64, SequenceState>,
    table: Map<u64, DerivedRecordView>,
    old: Chain,
    new: Chain,
    old_supply: Seq<SuppliedBlobs>,
    supply: Seq<SuppliedBlobs>,
)
    requires
        is_chain(old@),
        is_chain(new@),
        shared(old@, new@) == 0,
        in_step(config, states, table),
        store_is_below(table, old@[0].number),
        applied(
            config,
            states,
            table,
            ChainNotification::Committed { new: old },
            old_supply,
        ).is_ok(),
    ensures
        ({
            let committed = applied(
                config,
                states,
                table,
                ChainNotification::Committed { new: old },
                old_supply,
            ).unwrap();
            let reorged = applied(
                config,
                committed.states,
                committed.table,
                ChainNotification::Reorged { old, new },
                supply,
            );
            let direct = applied(
                config,
                states,
                table,
                ChainNotification::Committed { new },
                supply,
            );
            match direct {
                Ok(wanted) => reorged.is_ok() && reorged.unwrap().table == wanted.table
                    && state_of(reorged.unwrap().states, config.chain_id) == state_of(
                    wanted.states,
                    config.chain_id,
                ) && reorged.unwrap().outcome.written == wanted.outcome.written,
                Err(e) => reorged == Err::<Applied, PipelineError>(e),
            }
        }),
{
    lemma_commit_is_rolled_back(config, states, table, old, old_supply);
    assert(new@.skip(0) =~= new@);
}

/// Whether the batch behind `event` can be derived: the transaction is a call
/// that submits a block, its blobs are there where it carries blobs, and the
/// batch gives a transaction set.
pub open spec fn derives(
    config: RollupConfig,
    supply: Seq<SuppliedBlobs>,
    transaction: Transaction,
    event: RollupEvent,
) -> bool {
    match event {
        RollupEvent::BlockSubmitted { chain_id, gas_limit, block_hash } => {
            &&& decoded_call(transaction.input@).is_some()
            &&& candidates_for(supply, transaction).is_some()
            &&& derived(
                transaction.blob_carrying,
                candidates_for(supply, transaction).unwrap(),
                decoded_call(transaction.input@).unwrap().block_data,
                block_hash,
                config.chain_id,
            ).is_ok()
        },
    }
}

/// The sequence number that the call of `transaction` carries.
pub open spec fn claimed_number(transaction: Transaction) -> nat
    recommends
        decoded_call(transaction.input@).is_some(),
{
    be_value(decoded_call(transaction.input@).unwrap().header.sequence_num@)
}

/// A submission of the pipeline's chain that derives, carries the number due
/// and stands at a height without a submission is taken: the state then has
/// the next number due and this height, and the record has the number that
/// was due.
pub proof fn lemma_due_submission_is_taken(
    config: RollupConfig,
    supply: Seq<SuppliedBlobs>,
    state: SequenceState,
    block: Block,
    transaction: Transaction,
    event: RollupEvent,
)
    requires
        of_chain(event, config.chain_id),
        derives(config, supply, transaction, event),
        claimed_number(transaction) == state.last_sequence_number,
        state.last_submission_height != block.number,
        state.last_sequence_number < u64::MAX,
    ensures
        submission(config, supply, state, block, transaction, event).is_ok(),
        submission(config, supply, state, block, transaction, event).unwrap().is_some(),
        ({
            let (next, record) = submission(
                config,
                supply,
                state,
                block,
                transaction,
                event,
            ).unwrap().unwrap();
            &&& next.last_sequence_number == state.last_sequence_number + 1
            &&& next.last_submission_height == block.number
            &&& record.sequence == state.last_sequence_number
            &&& record.chain_id == config.chain_id
        }),
{
}

/// A submission of the pipeline's chain that derives and does not carry the
/// number due is refused with the number that is due, whatever its height.
pub proof fn lemma_wrong_number_is_refused(
    config: RollupConfig,
    supply: Seq<SuppliedBlobs>,
    state: SequenceState,
    block: Block,
    transaction: Transaction,
    event: RollupEvent,
)
    requires
        of_chain(event, config.chain_id),
        derives(config, supply, transaction, event),
        claimed_number(transaction) != state.last_sequence_number,
    ensures
        submission(config, supply, state, block, transaction, event) == Err::<
            Option<(SequenceState, DerivedRecordView)>,
            PipelineError,
        >(
            PipelineError::Sequence {
                chain_id: config.chain_id,
                height: block.number,
                violation: SequenceError::NonMonotonicSequence {
                    expected: state.last_sequence_number,
                },
            },
        ),
{
}

/// An event of another rollup chain is passed over, whatever stands behind
/// it.
pub proof fn lemma_other_chain_is_passed_over(
    config: RollupConfig,
    supply: Seq<SuppliedBlobs>,
    state: SequenceState,
    block: Block,
    transaction: Transaction,
    event: RollupEvent,
)
    requires
        !of_chain(event, config.chain_id),
    ensures
        submission(config, supply, state, block, transaction, event) == Ok::<
            Option<(SequenceState, DerivedRecordView)>,
            PipelineError,
        >(None),
{
}

/// A commit whose one event is a submission of the pipeline's chain that
/// derives, carries the number due and stands at a free height succeeds: the
/// state of the chain then has the next number due and the height of the
/// submission, and the store has its record at that height.
pub proof fn lemma_commit_of_due_submission(
    config: RollupConfig,
    states: Map<u64, SequenceState>,
    table: Map<u64, DerivedRecordView>,
    new: Chain,
    supply: Seq<SuppliedBlobs>,
    block: Block,
    transaction: Transaction,
    event: RollupEvent,
)
    requires
        chain_events(new@, config.rollup_contract) == seq![(block, transaction, event)],
        of_chain(event, config.chain_id),
        derives(config, supply, transaction, event),
        claimed_number(transaction) == state_of(states, config.chain_id).last_sequence_number,
        state_of(states, config.chain_id).last_submission_height != block.number,
        state_of(states, config.chain_id).last_sequence_number < u64::MAX,
    ensures
        ({
            let before = state_of(states, config.chain_id);
            let r = applied(config, states, table, ChainNotification::Committed { new }, supply);
            &&& r.is_ok()
            &&& state_of(r.unwrap().states, config.chain_id) == SequenceState {
                last_sequence_number: (before.last_sequence_number + 1) as u64,
                last_submission_height: block.number,
            }
            &&& r.unwrap().table.dom().contains(block.number)
            &&& r.unwrap().table[block.number].sequence == before.last_sequence_number
            &&& r.unwrap().table.remove(block.number) == table.remove(block.number)
            &&& r.unwrap().outcome.written == seq![block.number]
        }),
{
    let events = chain_events(new@, config.rollup_contract);
    let state = state_of(states, config.chain_id);
    let start = Progress { state, writes: Seq::empty() };
    assert(events.drop_last() =~= Seq::<(Block, Transaction, RollupEvent)>::empty());
    assert(events.last() == (block, transaction, event));
    assert(processed_events(config, supply, events.drop_last(), start) == Ok::<
        Progress,
        PipelineError,
    >(start));
    lemma_due_submission_is_taken(config, supply, state, block, transaction, event);
    let (next, record) = submission(
        config,
        supply,
        state,
        block,
        transaction,
        event,
    ).unwrap().unwrap();
    let writes = Seq::<(u64, DerivedRecordView)>::empty().push((block.number, record));
    assert(writes.drop_last() =~= Seq::<(u64, DerivedRecordView)>::empty());
    assert(apply_writes(table, writes.drop_last()) == table);
    assert(writes.last() == (block.number, record));
    assert(apply_writes(table, writes) == table.insert(block.number, record));
    assert(written_heights(writes) =~= seq![block.number]);
    assert(table.insert(block.number, record).remove(block.number) =~= table.remove(
        block.number,
    ));
}

/// A commit whose one event is a submission of the pipeline's chain that
/// derives and does not carry the number due fails with the number that is
/// due, at whatever height the submission stands.
pub proof fn lemma_commit_of_wrong_number(
    config: RollupConfig,
    states: Map<u64, SequenceState>,
    table: Map<u64, DerivedRecordView>,
    new: Chain,
    supply: Seq<SuppliedBlobs>,
    block: Block,
    transaction: Transaction,
    event: RollupEvent,
)
    requires
        chain_events(new@, config.rollup_contract) == seq![(block, transaction, event)],
        of_chain(event, config.chain_id),
        derives(config, supply, transaction, event),
        claimed_number(transaction) != state_of(states, config.chain_id).last_sequence_number,
    ensures
        applied(config, states, table, ChainNotification::Committed { new }, supply) == Err::<
            Applied,
            PipelineError,
        >(
            PipelineError::Sequence {
                chain_id: config.chain_id,
                height: block.number,
                violation: SequenceError::NonMonotonicSequence {
                    expected: state_of(states, config.chain_id).last_sequence_number,
                },
            },
        ),
{
    let events = chain_events(new@, config.rollup_contract);
    let state = state_of(states, config.chain_id);
    let start = Progress { state, writes: Seq::empty() };
    assert(events.drop_last() =~= Seq::<(Block, Transaction, RollupEvent)>::empty());
    assert(events.last() == (block, transaction, event));
    assert(processed_events(config, supply, events.drop_last(), start) == Ok::<
        Progress,
        PipelineError,
    >(start));
    lemma_wrong_number_is_refused(config, supply, state, block, transaction, event);
}

proof fn lemma_quiet_run(
    config: RollupConfig,
    supply: Seq<SuppliedBlobs>,
    events: Seq<(Block, Transaction, RollupEvent)>,
    start: SequenceState,
    other: SequenceState,
)
    requires
        processed_events(
            config,
            supply,
            events,
            Progress { state: start, writes: Seq::empty() },
        ).is_ok(),
        processed_events(
            config,
            supply,
            events,
            Progress { state: start, writes: Seq::empty() },
        ).unwrap().writes.len() == 0,
    ensures
        processed_events(
            config,
            supply,
            events,
            Progress { state: other, writes: Seq::empty() },
        ) == Ok::<Progress, PipelineError>(Progress { state: other, writes: Seq::empty() }),
    decreases events.len(),
{
    if events.len() > 0 {
        lemma_quiet_run(config, supply, events.drop_last(), start, other);
    }
}

proof fn lemma_rerun_fails(
    config: RollupConfig,
    supply: Seq<SuppliedBlobs>,
    events: Seq<(Block, Transaction, RollupEvent)>,
    start: SequenceState,
    later: SequenceState,
)
    requires
        processed_events(
            config,
            supply,
            events,
            Progress { state: start, writes: Seq::empty() },
        ).is_ok(),
        processed_events(
            config,
            supply,
            events,
            Progress { state: start, writes: Seq::empty() },
        ).unwrap().writes.len() > 0,
        later.last_sequence_number > start.last_sequence_number,
    ensures
        processed_events(
            config,
            supply,
            events,
            Progress { state: later, writes: Seq::empty() },
        ).is_err(),
    decreases events.len(),
{
    if events.len() > 0 {
        let begin = Progress { state: start, writes: Seq::empty() };
        let shorter = events.drop_last();
        let before = processed_events(config, supply, shorter, begin).unwrap();
        if before.writes.len() > 0 {
            lemma_rerun_fails(config, supply, shorter, start, later);
        } else {
            lemma_quiet_run(config, supply, shorter, start, later);
            lemma_quiet_run(config, supply, shorter, start, start);
        }
    }
}

/// Applying a notification of added blocks a second time, without the
/// sequence states put back, is refused: where the first time wrote a record,
/// the second time fails and changes nothing.
pub proof fn lemma_committed_again_is_refused(
    config: RollupConfig,
    states: Map<u64, SequenceState>,
    table: Map<u64, DerivedRecordView>,
    new: Chain,
    supply: Seq<SuppliedBlobs>,
)
    requires
        applied(config, states, table, ChainNotification::Committed { new }, supply).is_ok(),
        applied(
            config,
            states,
            table,
            ChainNotification::Committed { new },
            supply,
        ).unwrap().outcome.written.len() > 0,
    ensures
        ({
            let first = applied(
                config,
                states,
                table,
                ChainNotification::Committed { new },
                supply,
            ).unwrap();
            applied(
                config,
                first.states,
                first.table,
                ChainNotification::Committed { new },
                supply,
            ).is_err()
        }),
{
    let events = chain_events(new@, config.rollup_contract);
    let start = state_of(states, config.chain_id);
    let end = processed_events(
        config,
        supply,
        events,
        Progress { state: start, writes: Seq::empty() },
    ).unwrap();
    lemma_records_are_numbered_in_a_row(config, supply, events, start);
    lemma_rerun_fails(config, supply, events, start, end.state);
}

} // verus!
