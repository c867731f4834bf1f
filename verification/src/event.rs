//! The rollup contract as the base chain shows it: the events in its logs
//! and the call that submits a block.

use crate::primitives::{
    be_value, bytes20_eq, bytes32, bytes32_eq, read_bytes, read_bytes32, word_to_u64,
};
use vstd::prelude::*;

verus! {

/// One log of a receipt.
#[derive(Clone, Debug, PartialEq, Eq)]
pub struct Log {
    /// The contract that wrote the log.
    pub address: [u8; 20],
    pub topics: Vec<[u8; 32]>,
    pub data: Vec<u8>,
}

/// An event of the rollup contract.
#[derive(Clone, Copy, Debug, PartialEq, Eq)]
pub enum RollupEvent {
    /// The contract took a block of the rollup chain `chain_id`. All three
    /// fields are 256-bit words as the contract wrote them.
    BlockSubmitted { chain_id: [u8; 32], gas_limit: [u8; 32], block_hash: [u8; 32] },
}

/// The first topic of a `BlockSubmitted` log: the Keccak-256 digest of
/// `BlockSubmitted(uint256,uint256,bytes32)`.
pub open spec fn block_submitted_signature() -> Seq<u8> {
    seq![
        0xf5u8, 0xbf, 0x4c, 0x4c, 0x5c, 0xd6, 0xa5, 0xcd, 0x4f, 0xf7, 0xcd, 0x89, 0x0e, 0x34, 0xc2,
        0x7b, 0x8c, 0x16, 0x3f, 0x59, 0xef, 0x0a, 0xce, 0xcd, 0x90, 0x36, 0x28, 0xa2, 0x0d, 0xdd,
        0x85, 0x69,
    ]
}

/// The first topic of a `BlockSubmitted` log.
pub fn block_submitted_topic() -> (topic: [u8; 32])
    ensures
        topic@ == block_submitted_signature(),
{
    let topic: [u8; 32] = [
        0xf5, 0xbf, 0x4c, 0x4c, 0x5c, 0xd6, 0xa5, 0xcd, 0x4f, 0xf7, 0xcd, 0x89, 0x0e, 0x34, 0xc2,
        0x7b, 0x8c, 0x16, 0x3f, 0x59, 0xef, 0x0a, 0xce, 0xcd, 0x90, 0x36, 0x28, 0xa2, 0x0d, 0xdd,
        0x85, 0x69,
    ];
    assert(topic@ =~= block_submitted_signature());
    topic
}

/// What a log says to someone who listens to the contract at `target`. A log
/// of another contract says nothing, and so does a log of the contract that is
/// no `BlockSubmitted` event: one with another first topic, without its one
/// indexed topic, or with data that is not exactly its two words.
pub open spec fn decoded_log(log: Log, target: [u8; 20]) -> Option<RollupEvent> {
    if log.address == target && log.topics@.len() == 2 && log.topics@[0]@
        == block_submitted_signature() && log.data@.len() == 64 {
        Some(
            RollupEvent::BlockSubmitted {
                chain_id: log.topics@[1],
                gas_limit: bytes32(log.data@.subrange(0, 32)),
                block_hash: bytes32(log.data@.subrange(32, 64)),
            },
        )
    } else {
        None
    }
}

/// Decodes a log into an event of the rollup contract at `target`.
pub fn decode_log(log: &Log, target: &[u8; 20]) -> (r: Option<RollupEvent>)
    ensures
        r == decoded_log(*log, *target),
        match r {
            Some(RollupEvent::BlockSubmitted { chain_id, gas_limit, block_hash }) => {
                &&& chain_id == log.topics@[1]
                &&& gas_limit@ == log.data@.subrange(0, 32)
                &&& block_hash@ == log.data@.subrange(32, 64)
            },
            None => true,
        },
{
    if !bytes20_eq(&log.address, target) {
        return None;
    }
    if log.topics.len() != 2 || log.data.len() != 64 {
        return None;
    }
    let topic = block_submitted_topic();
    if !bytes32_eq(&log.topics[0], &topic) {
        assert(log.topics@[0]@ != block_submitted_signature()) by {
            if log.topics@[0]@ == block_submitted_signature() {
                assert(log.topics@[0] =~= topic);
            }
        }
        return None;
    }
    let chain_id = log.topics[1];
    let gas_limit = read_bytes32(log.data.as_slice(), 0);
    let block_hash = read_bytes32(log.data.as_slice(), 32);
    Some(RollupEvent::BlockSubmitted { chain_id, gas_limit, block_hash })
}

/// The header of a submitted block, in 256-bit words as the call carries
/// them.
#[derive(Clone, Copy, Debug, PartialEq, Eq)]
pub struct BlockHeader {
    pub chain_id: [u8; 32],
    pub sequence_num: [u8; 32],
    pub gas_limit: [u8; 32],
    pub block_hash: [u8; 32],
}

/// A call of `submitBlock`.
#[derive(Clone, Debug, PartialEq, Eq)]
pub struct SubmitBlockCall {
    pub header: BlockHeader,
    pub block_data: Vec<u8>,
}

/// A `SubmitBlockCall` with its block data as a byte string.
pub struct SubmitBlockCallView {
    pub header: BlockHeader,
    pub block_data: Seq<u8>,
}

impl View for SubmitBlockCall {
    type V = SubmitBlockCallView;

    open spec fn view(&self) -> SubmitBlockCallView {
        SubmitBlockCallView { header: self.header, block_data: self.block_data@ }
    }
}

/// The selector of `submitBlock((uint256,uint256,uint256,bytes32),bytes)`.
pub open spec fn submit_block_selector() -> Seq<u8> {
    seq![0xf4u8, 0xfc, 0xa1, 0xde]
}

/// The length of the selector, the four words of the header, the offset of
/// the block data and its length: where the block data starts.
pub const CALL_HEAD: usize = 196;

/// The offset of the block data from the end of the selector.
pub const DATA_OFFSET: u64 = 160;

/// `len` rounded up to whole 32-byte words.
pub open spec fn padded_len(len: nat) -> nat {
    ((len + 31) / 32) * 32
}

/// The number of bytes of block data that `input` announces.
pub open spec fn announced_len(input: Seq<u8>) -> nat
    recommends
        input.len() >= CALL_HEAD,
{
    be_value(input.subrange(164, 196))
}

/// Whether `input` is the canonical ABI encoding of a call of `submitBlock`:
/// the selector, the header, the offset of the block data, its length, the
/// data, and zeros up to a whole word, and nothing after them.
pub open spec fn is_submit_block(input: Seq<u8>) -> bool {
    &&& input.len() >= CALL_HEAD
    &&& input.subrange(0, 4) == submit_block_selector()
    &&& be_value(input.subrange(132, 164)) == DATA_OFFSET
    &&& input.len() == CALL_HEAD + padded_len(announced_len(input))
    &&& forall|i: int| CALL_HEAD + announced_len(input) <= i < input.len() ==> input[i] == 0
}

/// The call of `submitBlock` that `input` encodes, if it encodes one.
pub open spec fn decoded_call(input: Seq<u8>) -> Option<SubmitBlockCallView> {
    if is_submit_block(input) {
        Some(
            SubmitBlockCallView {
                header: BlockHeader {
                    chain_id: bytes32(input.subrange(4, 36)),
                    sequence_num: bytes32(input.subrange(36, 68)),
                    gas_limit: bytes32(input.subrange(68, 100)),
                    block_hash: bytes32(input.subrange(100, 132)),
                },
                block_data: input.subrange(CALL_HEAD as int, CALL_HEAD + announced_len(input)),
            },
        )
    } else {
        None
    }
}

/// Decodes the input of a transaction as a call of `submitBlock`.
pub fn decode_submit_block_call(input: &[u8]) -> (r: Option<SubmitBlockCall>)
    ensures
        match r {
            Some(call) => {
                &&& decoded_call(input@) == Some(call@)
                &&& call.header.chain_id@ == input@.subrange(4, 36)
                &&& call.header.sequence_num@ == input@.subrange(36, 68)
                &&& call.header.gas_limit@ == input@.subrange(68, 100)
                &&& call.header.block_hash@ == input@.subrange(100, 132)
                &&& call.block_data@ == input@.subrange(
                    CALL_HEAD as int,
                    CALL_HEAD + announced_len(input@),
                )
            },
            None => decoded_call(input@).is_none(),
        },
{
    if input.len() < CALL_HEAD {
        return None;
    }
    if input[0] != 0xf4 || input[1] != 0xfc || input[2] != 0xa1 || input[3] != 0xde {
        assert(input@.subrange(0, 4) != submit_block_selector()) by {
            let s = input@.subrange(0, 4);
            assert(s[0] == input@[0] && s[1] == input@[1] && s[2] == input@[2] && s[3]
                == input@[3]);
        }
        return None;
    }
    assert(input@.subrange(0, 4) =~= submit_block_selector());
    let offset_word = read_bytes32(input, 132);
    match word_to_u64(&offset_word) {
        Some(offset) => {
            if offset != DATA_OFFSET {
                return None;
            }
        },
        None => {
            return None;
        },
    }
    let len_word = read_bytes32(input, 164);
    let rest: usize = input.len() - CALL_HEAD;
    let len: usize = match word_to_u64(&len_word) {
        Some(len) => {
            if len > rest as u64 {
                return None;
            }
            len as usize
        },
        None => {
            return None;
        },
    };
    if rest % 32 != 0 || rest - len >= 32 {
        return None;
    }
    let mut i: usize = CALL_HEAD + len;
    while i < input.len()
        invariant
            CALL_HEAD + len <= i <= input.len(),
            input.len() >= CALL_HEAD,
            announced_len(input@) == len,
            forall|k: int| CALL_HEAD + len <= k < i ==> input@[k] == 0,
        decreases input.len() - i,
    {
        if input[i] != 0 {
            return None;
        }
        i += 1;
    }
    let header = BlockHeader {
        chain_id: read_bytes32(input, 4),
        sequence_num: read_bytes32(input, 36),
        gas_limit: read_bytes32(input, 68),
        block_hash: read_bytes32(input, 100),
    };
    let block_data = read_bytes(input, CALL_HEAD, len);
    Some(SubmitBlockCall { header, block_data })
}

} // verus!
