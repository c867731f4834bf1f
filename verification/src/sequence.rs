//! The per-chain sequencing rule of the rollup contract, kept off chain.
//!
//! The contract numbers the submissions of every rollup chain `0, 1, 2, ...`
//! and takes at most one submission of a chain in one base-chain block. The
//! validator mirrors both counters, so that a batch the pipeline derives and
//! the chain would have refused is noticed.

use std::collections::HashMap;
use vstd::prelude::*;

verus! {

/// What the contract remembers of one rollup chain.
#[derive(Clone, Copy, Debug, PartialEq, Eq, Structural)]
pub struct SequenceState {
    /// The sequence number that the next submission must carry.
    pub last_sequence_number: u64,
    /// The base-chain height of the latest submission that was taken.
    pub last_submission_height: u64,
}

/// Why a submission was refused.
#[derive(Clone, Copy, Debug, PartialEq, Eq, Structural)]
pub enum SequenceError {
    /// The submission does not carry the number that is due.
    NonMonotonicSequence { expected: u64 },
    /// The chain already has a submission at this base-chain height.
    DuplicateSubmissionHeight { height: u64 },
    /// The counter of the chain cannot be advanced any further.
    SequenceExhausted,
}

/// The state of a chain that has had no submission yet.
pub open spec fn initial_state() -> SequenceState {
    SequenceState { last_sequence_number: 0, last_submission_height: 0 }
}

/// The state that `states` holds for `chain_id`; a chain that is not in the
/// map is in its initial state.
pub open spec fn state_of(states: Map<u64, SequenceState>, chain_id: u64) -> SequenceState {
    if states.dom().contains(chain_id) {
        states[chain_id]
    } else {
        initial_state()
    }
}

/// The sequencing rule on one chain: what a submission with number `sequence`
/// at base-chain height `height` meets in `state`.
pub open spec fn step(state: SequenceState, sequence: u64, height: u64) -> Result<
    SequenceState,
    SequenceError,
> {
    if sequence != state.last_sequence_number {
        Err(SequenceError::NonMonotonicSequence { expected: state.last_sequence_number })
    } else if state.last_submission_height == height {
        Err(SequenceError::DuplicateSubmissionHeight { height })
    } else if state.last_sequence_number == u64::MAX {
        Err(SequenceError::SequenceExhausted)
    } else {
        Ok(
            SequenceState {
                last_sequence_number: (state.last_sequence_number + 1) as u64,
                last_submission_height: height,
            },
        )
    }
}

/// Applies the sequencing rule to one chain's state.
pub fn advance(state: SequenceState, sequence: u64, height: u64) -> (r: Result<
    SequenceState,
    SequenceError,
>)
    ensures
        r == step(state, sequence, height),
{
    if sequence != state.last_sequence_number {
        Err(SequenceError::NonMonotonicSequence { expected: state.last_sequence_number })
    } else if state.last_submission_height == height {
        Err(SequenceError::DuplicateSubmissionHeight { height })
    } else if state.last_sequence_number == u64::MAX {
        Err(SequenceError::SequenceExhausted)
    } else {
        Ok(
            SequenceState {
                last_sequence_number: state.last_sequence_number + 1,
                last_submission_height: height,
            },
        )
    }
}

/// The sequencing state of every rollup chain seen so far.
pub struct SequenceValidator {
    states: HashMap<u64, SequenceState>,
}

impl View for SequenceValidator {
    type V = Map<u64, SequenceState>;

    closed spec fn view(&self) -> Map<u64, SequenceState> {
        self.states@
    }
}

impl SequenceValidator {
    /// A validator that has seen no submission.
    pub fn new() -> (v: SequenceValidator)
        ensures
            v@ == Map::<u64, SequenceState>::empty(),
    {
        SequenceValidator { states: HashMap::new() }
    }

    /// The state of `chain_id`.
    pub fn state(&self, chain_id: u64) -> (s: SequenceState)
        ensures
            s == state_of(self@, chain_id),
    {
        broadcast use vstd::std_specs::hash::group_hash_axioms;

        match self.states.get(&chain_id) {
            Some(s) => *s,
            None => SequenceState { last_sequence_number: 0, last_submission_height: 0 },
        }
    }

    /// Takes or refuses the submission of `chain_id` that carries the number
    /// `sequence` and stands at base-chain height `height`. A refusal leaves
    /// the validator as it was.
    pub fn submit(&mut self, chain_id: u64, sequence: u64, height: u64) -> (r: Result<
        (),
        SequenceError,
    >)
        ensures
            match step(state_of(old(self)@, chain_id), sequence, height) {
                Ok(next) => r == Ok::<(), SequenceError>(()) && final(self)@ == old(self)@.insert(
                    chain_id,
                    next,
                ),
                Err(e) => r == Err::<(), SequenceError>(e) && final(self)@ == old(self)@,
            },
    {
        broadcast use vstd::std_specs::hash::group_hash_axioms;

        let current = self.state(chain_id);
        match advance(current, sequence, height) {
            Ok(next) => {
                self.states.insert(chain_id, next);
                Ok(())
            },
            Err(e) => Err(e),
        }
    }

    /// Puts `chain_id` into `state`, whatever it was in.
    pub fn restore(&mut self, chain_id: u64, state: SequenceState)
        ensures
            final(self)@ == old(self)@.insert(chain_id, state),
    {
        broadcast use vstd::std_specs::hash::group_hash_axioms;

        self.states.insert(chain_id, state);
    }

    /// Forgets `chain_id`: its next submission is again its first.
    pub fn forget(&mut self, chain_id: u64)
        ensures
            final(self)@ == old(self)@.remove(chain_id),
    {
        broadcast use vstd::std_specs::hash::group_hash_axioms;

        self.states.remove(&chain_id);
    }
}

/// A submission as the validator sees it.
#[derive(Clone, Copy, Debug, PartialEq, Eq, Structural)]
pub struct Submission {
    /// The sequence number that the submission carries.
    pub sequence: u64,
    /// The base-chain height that it stands at.
    pub height: u64,
}

/// The state of a chain after `submissions` were held against it one after the
/// other, from `start` on. A submission that is refused leaves the state as it
/// was.
pub open spec fn replayed(start: SequenceState, submissions: Seq<Submission>) -> SequenceState
    decreases submissions.len(),
{
    if submissions.len() == 0 {
        start
    } else {
        let before = replayed(start, submissions.drop_last());
        match step(before, submissions.last().sequence, submissions.last().height) {
            Ok(next) => next,
            Err(_) => before,
        }
    }
}

/// The sequence numbers of those of `submissions` that were taken, in their
/// order.
pub open spec fn taken(start: SequenceState, submissions: Seq<Submission>) -> Seq<u64>
    decreases submissions.len(),
{
    if submissions.len() == 0 {
        Seq::empty()
    } else {
        let before = replayed(start, submissions.drop_last());
        let numbers = taken(start, submissions.drop_last());
        match step(before, submissions.last().sequence, submissions.last().height) {
            Ok(_) => numbers.push(submissions.last().sequence),
            Err(_) => numbers,
        }
    }
}

/// Whatever is submitted, the numbers that are taken run on from the number
/// that was due at the start without a gap: from `0, 1, 2, ...` for a chain
/// that starts in its initial state. The state counts them.
pub proof fn lemma_taken_numbers_are_consecutive(start: SequenceState, submissions: Seq<Submission>)
    ensures
        forall|i: int|
            0 <= i < taken(start, submissions).len() ==> #[trigger] taken(start, submissions)[i]
                == start.last_sequence_number + i,
        replayed(start, submissions).last_sequence_number == start.last_sequence_number + taken(
            start,
            submissions,
        ).len(),
    decreases submissions.len(),
{
    if submissions.len() > 0 {
        lemma_taken_numbers_are_consecutive(start, submissions.drop_last());
    }
}

/// A submission that does not carry the number that is due is refused, and
/// the error names the number that is due.
pub proof fn lemma_deviation_is_refused(state: SequenceState, sequence: u64, height: u64)
    requires
        sequence != state.last_sequence_number,
    ensures
        step(state, sequence, height) == Err::<SequenceState, SequenceError>(
            SequenceError::NonMonotonicSequence { expected: state.last_sequence_number },
        ),
{
}

/// A chain takes at most one submission at a base-chain height: after one
/// was taken at `height`, whatever is submitted at `height` is refused.
pub proof fn lemma_one_submission_per_height(
    state: SequenceState,
    sequence: u64,
    height: u64,
    again: u64,
)
    requires
        step(state, sequence, height).is_ok(),
    ensures
        step(step(state, sequence, height).unwrap(), again, height).is_err(),
{
}

} // verus!
