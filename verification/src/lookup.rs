//! The search for the blobs of a transaction, step by step: which source is
//! asked next, and when a source that fails is given up.

use crate::blob::BlobCandidate;
use vstd::prelude::*;

verus! {

/// Where the blobs of a transaction are asked for.
#[derive(Clone, Copy, Debug, PartialEq, Eq, Structural)]
pub enum BlobSource {
    /// The blob cache of the node.
    LocalCache,
    /// The archive that is asked when the cache has nothing.
    RemoteFallback,
}

/// What to do after a source has answered.
#[derive(Debug, PartialEq, Eq)]
pub enum BlobStep {
    /// Ask this source next.
    Ask(BlobSource),
    /// These are the blobs of the transaction.
    Found(Vec<BlobCandidate>),
    /// No source has the blobs.
    Missing,
}

/// The blobs of a transaction are asked for in the cache first. What the
/// cache has is taken; where it has nothing, the archive is asked; where the
/// archive has nothing either, the blobs are missing.
pub fn after_reply(asked: BlobSource, reply: Option<Vec<BlobCandidate>>) -> (step: BlobStep)
    ensures
        match reply {
            Some(blobs) => step == BlobStep::Found(blobs),
            None => match asked {
                BlobSource::LocalCache => step == BlobStep::Ask(BlobSource::RemoteFallback),
                BlobSource::RemoteFallback => step == BlobStep::Missing,
            },
        },
{
    match reply {
        Some(blobs) => BlobStep::Found(blobs),
        None => match asked {
            BlobSource::LocalCache => BlobStep::Ask(BlobSource::RemoteFallback),
            BlobSource::RemoteFallback => BlobStep::Missing,
        },
    }
}

/// How often a source that fails is asked before its failure is final.
#[derive(Clone, Copy, Debug, PartialEq, Eq, Structural)]
pub struct RetryPolicy {
    pub attempts: u32,
}

/// What to do after a source has failed to answer.
#[derive(Clone, Copy, Debug, PartialEq, Eq, Structural)]
pub enum FailureStep {
    /// Ask the source again.
    Retry,
    /// Give up: the failure is final.
    Escalate,
}

/// A source that has failed `failures` times in a row is asked again as long
/// as the policy has attempts left.
pub fn after_failure(failures: u32, policy: RetryPolicy) -> (step: FailureStep)
    ensures
        step == if failures < policy.attempts {
            FailureStep::Retry
        } else {
            FailureStep::Escalate
        },
{
    if failures < policy.attempts {
        FailureStep::Retry
    } else {
        FailureStep::Escalate
    }
}

} // verus!
