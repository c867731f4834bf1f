//! Blocks of the base chain as the notifications carry them, and the rollup
//! events in their receipts.

use crate::event::{decode_log, decoded_log, Log, RollupEvent};
use vstd::prelude::*;

verus! {

/// A transaction of the base chain, as far as the pipeline reads it.
#[derive(Clone, Debug, PartialEq, Eq)]
pub struct Transaction {
    pub hash: [u8; 32],
    /// Whether the transaction carries blobs.
    pub blob_carrying: bool,
    /// The input of the transaction: the call that it makes.
    pub input: Vec<u8>,
}

/// The receipt of a transaction.
#[derive(Clone, Debug, PartialEq, Eq)]
pub struct Receipt {
    pub logs: Vec<Log>,
}

/// A block of the base chain with the receipts of its execution. The receipt
/// at a place is that of the transaction at the same place, and may be
/// missing.
#[derive(Clone, Debug, PartialEq, Eq)]
pub struct Block {
    pub number: u64,
    pub hash: [u8; 32],
    pub body: Vec<Transaction>,
    pub receipts: Vec<Option<Receipt>>,
}

/// Whether `blocks` can be a chain: there is a block, and each block stands
/// one above the block before it.
pub open spec fn is_chain(blocks: Seq<Block>) -> bool {
    &&& blocks.len() > 0
    &&& forall|i: int|
        0 <= i < blocks.len() - 1 ==> #[trigger] blocks[i + 1].number == blocks[i].number + 1
}

/// A run of blocks of the base chain, one above the other.
#[derive(Debug, PartialEq, Eq)]
pub struct Chain {
    blocks: Vec<Block>,
}

impl View for Chain {
    type V = Seq<Block>;

    closed spec fn view(&self) -> Seq<Block> {
        self.blocks@
    }
}

impl Chain {
    #[verifier::type_invariant]
    spec fn well_formed(self) -> bool {
        is_chain(self.blocks@)
    }

    /// The chain of `blocks`, if they are one.
    pub fn new(blocks: Vec<Block>) -> (r: Option<Chain>)
        ensures
            r.is_some() == is_chain(blocks@),
            r.is_some() ==> r.unwrap()@ == blocks@,
    {
        if blocks.len() == 0 {
            return None;
        }
        let mut i: usize = 0;
        while i + 1 < blocks.len()
            invariant
                i < blocks.len(),
                forall|k: int|
                    0 <= k < i ==> #[trigger] blocks@[k + 1].number == blocks@[k].number + 1,
            decreases blocks.len() - i,
        {
            if blocks[i].number == u64::MAX || blocks[i + 1].number != blocks[i].number + 1 {
                assert(blocks@[i as int + 1].number != blocks@[i as int].number + 1);
                return None;
            }
            i += 1;
        }
        Some(Chain { blocks })
    }

    /// The blocks of the chain, lowest first.
    pub fn blocks(&self) -> (blocks: &Vec<Block>)
        ensures
            blocks@ == self@,
            is_chain(self@),
    {
        proof {
            use_type_invariant(self);
        }
        &self.blocks
    }

    /// The lowest block of the chain.
    pub fn first(&self) -> (block: &Block)
        ensures
            is_chain(self@),
            *block == self@[0],
    {
        proof {
            use_type_invariant(self);
        }
        &self.blocks[0]
    }

    /// The highest block of the chain.
    pub fn tip(&self) -> (block: &Block)
        ensures
            is_chain(self@),
            *block == self@.last(),
    {
        proof {
            use_type_invariant(self);
        }
        &self.blocks[self.blocks.len() - 1]
    }

    /// The heights of the lowest and of the highest block.
    pub fn range(&self) -> (r: (u64, u64))
        ensures
            is_chain(self@),
            r.0 == self@[0].number,
            r.1 == self@.last().number,
            r.1 == r.0 + self@.len() - 1,
    {
        proof {
            use_type_invariant(self);
            lemma_chain_heights(self@, self@.len() - 1);
        }
        (self.blocks[0].number, self.blocks[self.blocks.len() - 1].number)
    }
}

/// The blocks of a chain stand at consecutive heights.
proof fn lemma_chain_heights(blocks: Seq<Block>, i: int)
    requires
        is_chain(blocks),
        0 <= i < blocks.len(),
    ensures
        blocks[i].number == blocks[0].number + i,
    decreases i,
{
    if i > 0 {
        lemma_chain_heights(blocks, i - 1);
        assert(blocks[(i - 1) + 1].number == blocks[i - 1].number + 1);
    }
}

/// What the host node tells of the base chain.
#[derive(Debug, PartialEq, Eq)]
pub enum ChainNotification {
    /// The blocks of `new` were added to the chain.
    Committed { new: Chain },
    /// The blocks of `old` were taken off the chain, and those of `new` were
    /// put in their place.
    Reorged { old: Chain, new: Chain },
    /// The blocks of `old` were taken off the chain.
    Reverted { old: Chain },
}

/// The events of the contract at `target` among `logs`, in their order, each
/// with the block and the transaction that it was found in.
pub open spec fn log_events(
    block: Block,
    transaction: Transaction,
    logs: Seq<Log>,
    target: [u8; 20],
) -> Seq<(Block, Transaction, RollupEvent)>
    decreases logs.len(),
{
    if logs.len() == 0 {
        Seq::empty()
    } else {
        let before = log_events(block, transaction, logs.drop_last(), target);
        match decoded_log(logs.last(), target) {
            Some(event) => before.push((block, transaction, event)),
            None => before,
        }
    }
}

/// The events of the contract at `target` in the first `receipts` of `block`.
/// The receipt at a place is read as that of the transaction at the same
/// place; one at a place where the block has no transaction is passed over.
pub open spec fn receipt_events(block: Block, receipts: Seq<Option<Receipt>>, target: [u8; 20])
    -> Seq<(Block, Transaction, RollupEvent)>
    decreases receipts.len(),
{
    if receipts.len() == 0 {
        Seq::empty()
    } else {
        let before = receipt_events(block, receipts.drop_last(), target);
        let place = receipts.len() - 1;
        match receipts.last() {
            Some(receipt) => if place < block.body@.len() {
                before + log_events(block, block.body@[place], receipt.logs@, target)
            } else {
                before
            },
            None => before,
        }
    }
}

/// The events of the contract at `target` in `blocks`, in the order of the
/// blocks, of their transactions and of the logs.
pub open spec fn chain_events(blocks: Seq<Block>, target: [u8; 20]) -> Seq<
    (Block, Transaction, RollupEvent),
>
    decreases blocks.len(),
{
    if blocks.len() == 0 {
        Seq::empty()
    } else {
        chain_events(blocks.drop_last(), target) + receipt_events(
            blocks.last(),
            blocks.last().receipts@,
            target,
        )
    }
}

/// The blocks, transactions and events that `found` refers to.
pub open spec fn located(found: Seq<(&Block, &Transaction, RollupEvent)>) -> Seq<
    (Block, Transaction, RollupEvent),
> {
    Seq::new(found.len(), |i: int| (*found[i].0, *found[i].1, found[i].2))
}

fn append_log_events<'a>(
    found: &mut Vec<(&'a Block, &'a Transaction, RollupEvent)>,
    block: &'a Block,
    transaction: &'a Transaction,
    logs: &Vec<Log>,
    target: &[u8; 20],
)
    ensures
        located(final(found)@) == located(old(found)@) + log_events(
            *block,
            *transaction,
            logs@,
            *target,
        ),
{
    let ghost start = located(found@);
    let mut i: usize = 0;
    assert(logs@.take(0) =~= Seq::<Log>::empty());
    assert(start + Seq::<(Block, Transaction, RollupEvent)>::empty() =~= start);
    while i < logs.len()
        invariant
            i <= logs.len(),
            located(found@) == start + log_events(
                *block,
                *transaction,
                logs@.take(i as int),
                *target,
            ),
        decreases logs.len() - i,
    {
        let ghost before = found@;
        proof {
            assert(logs@.take(i + 1).drop_last() == logs@.take(i as int));
            assert(logs@.take(i + 1).last() == logs@[i as int]);
        }
        match decode_log(&logs[i], target) {
            Some(event) => {
                found.push((block, transaction, event));
                assert(located(found@) =~= located(before).push((*block, *transaction, event)));
            },
            None => {},
        }
        i += 1;
    }
    assert(logs@.take(logs.len() as int) == logs@);
}

fn append_block_events<'a>(
    found: &mut Vec<(&'a Block, &'a Transaction, RollupEvent)>,
    block: &'a Block,
    target: &[u8; 20],
)
    ensures
        located(final(found)@) == located(old(found)@) + receipt_events(
            *block,
            block.receipts@,
            *target,
        ),
{
    let ghost start = located(found@);
    let mut i: usize = 0;
    assert(block.receipts@.take(0) =~= Seq::<Option<Receipt>>::empty());
    assert(start + Seq::<(Block, Transaction, RollupEvent)>::empty() =~= start);
    while i < block.receipts.len()
        invariant
            i <= block.receipts.len(),
            located(found@) == start + receipt_events(
                *block,
                block.receipts@.take(i as int),
                *target,
            ),
        decreases block.receipts.len() - i,
    {
        let ghost before = receipt_events(*block, block.receipts@.take(i as int), *target);
        proof {
            assert(block.receipts@.take(i + 1).drop_last() == block.receipts@.take(i as int));
            assert(block.receipts@.take(i + 1).last() == block.receipts@[i as int]);
        }
        match &block.receipts[i] {
            Some(receipt) => {
                if i < block.body.len() {
                    append_log_events(found, block, &block.body[i], &receipt.logs, target);
                    assert((start + before) + log_events(
                        *block,
                        block.body@[i as int],
                        receipt.logs@,
                        *target,
                    ) =~= start + (before + log_events(
                        *block,
                        block.body@[i as int],
                        receipt.logs@,
                        *target,
                    )));
                }
            },
            None => {},
        }
        i += 1;
    }
    assert(block.receipts@.take(block.receipts.len() as int) == block.receipts@);
}

/// Finds the events of the contract at `target` in the blocks from place
/// `from` on.
pub(crate) fn decode_blocks_from<'a>(
    blocks: &'a Vec<Block>,
    from: usize,
    target: &[u8; 20],
) -> (found: Vec<(&'a Block, &'a Transaction, RollupEvent)>)
    requires
        from <= blocks.len(),
    ensures
        located(found@) == chain_events(blocks@.skip(from as int), *target),
{
    let mut found: Vec<(&'a Block, &'a Transaction, RollupEvent)> = Vec::new();
    let mut i: usize = from;
    assert(blocks@.subrange(from as int, from as int) =~= Seq::<Block>::empty());
    assert(located(found@) =~= Seq::<(Block, Transaction, RollupEvent)>::empty());
    while i < blocks.len()
        invariant
            from <= i <= blocks.len(),
            located(found@) == chain_events(blocks@.subrange(from as int, i as int), *target),
        decreases blocks.len() - i,
    {
        proof {
            assert(blocks@.subrange(from as int, i + 1).drop_last() == blocks@.subrange(
                from as int,
                i as int,
            ));
            assert(blocks@.subrange(from as int, i + 1).last() == blocks@[i as int]);
        }
        append_block_events(&mut found, &blocks[i], target);
        i += 1;
    }
    assert(blocks@.subrange(from as int, blocks.len() as int) == blocks@.skip(from as int));
    found
}

/// Finds the events of the rollup contract in a chain: goes through the blocks
/// and their receipts, keeps the logs of the contract at `rollup_contract`,
/// and decodes those that are events of the contract. A log of the contract
/// that does not decode is passed over.
pub fn decode_chain_into_rollup_events<'a>(chain: &'a Chain, rollup_contract: &[u8; 20]) -> (found:
    Vec<(&'a Block, &'a Transaction, RollupEvent)>)
    ensures
        located(found@) == chain_events(chain@, *rollup_contract),
{
    let blocks = chain.blocks();
    assert(blocks@.skip(0) == blocks@);
    decode_blocks_from(blocks, 0, rollup_contract)
}

/// Whether the heights of `blocks` never fall.
pub open spec fn numbers_rise(blocks: Seq<Block>) -> bool {
    forall|i: int, j: int| 0 <= i <= j < blocks.len() ==> blocks[i].number <= blocks[j].number
}

/// Whether the heights of the blocks of `events` never fall.
pub open spec fn heights_rise(events: Seq<(Block, Transaction, RollupEvent)>) -> bool {
    forall|i: int, j: int| 0 <= i <= j < events.len() ==> events[i].0.number <= events[j].0.number
}

/// The heights of a chain never fall.
pub(crate) proof fn lemma_chain_rises(blocks: Seq<Block>)
    requires
        is_chain(blocks),
    ensures
        numbers_rise(blocks),
{
    assert forall|i: int, j: int| 0 <= i <= j < blocks.len() implies blocks[i].number
        <= blocks[j].number by {
        lemma_chain_heights(blocks, i);
        lemma_chain_heights(blocks, j);
    }
}

proof fn lemma_log_events_are_of_the_block(
    block: Block,
    transaction: Transaction,
    logs: Seq<Log>,
    target: [u8; 20],
)
    ensures
        forall|i: int|
            0 <= i < log_events(block, transaction, logs, target).len() ==> (#[trigger] log_events(
                block,
                transaction,
                logs,
                target,
            )[i]).0 == block,
    decreases logs.len(),
{
    if logs.len() > 0 {
        lemma_log_events_are_of_the_block(block, transaction, logs.drop_last(), target);
        let before = log_events(block, transaction, logs.drop_last(), target);
        let all = log_events(block, transaction, logs, target);
        assert forall|i: int| 0 <= i < all.len() implies (#[trigger] all[i]).0 == block by {
            if i < before.len() {
                assert(all[i] == before[i]);
            }
        }
    }
}

proof fn lemma_receipt_events_are_of_the_block(
    block: Block,
    receipts: Seq<Option<Receipt>>,
    target: [u8; 20],
)
    ensures
        forall|i: int|
            0 <= i < receipt_events(block, receipts, target).len() ==> (#[trigger] receipt_events(
                block,
                receipts,
                target,
            )[i]).0 == block,
    decreases receipts.len(),
{
    if receipts.len() > 0 {
        lemma_receipt_events_are_of_the_block(block, receipts.drop_last(), target);
        let place = receipts.len() - 1;
        let before = receipt_events(block, receipts.drop_last(), target);
        let all = receipt_events(block, receipts, target);
        match receipts.last() {
            Some(receipt) => {
                if place < block.body@.len() {
                    let transaction = block.body@[place];
                    let here = log_events(block, transaction, receipt.logs@, target);
                    lemma_log_events_are_of_the_block(block, transaction, receipt.logs@, target);
                    assert(all == before + here);
                    assert forall|i: int| 0 <= i < all.len() implies (#[trigger] all[i]).0
                        == block by {
                        if i < before.len() {
                            assert(all[i] == before[i]);
                        } else {
                            assert(all[i] == here[i - before.len()]);
                        }
                    }
                }
            },
            None => {},
        }
    }
}

/// The events of blocks whose heights never fall come at heights that never
/// fall, and none of them is higher than the last block.
pub(crate) proof fn lemma_events_rise(blocks: Seq<Block>, target: [u8; 20])
    requires
        numbers_rise(blocks),
    ensures
        heights_rise(chain_events(blocks, target)),
        forall|i: int|
            0 <= i < chain_events(blocks, target).len() ==> (#[trigger] chain_events(
                blocks,
                target,
            )[i]).0.number <= blocks.last().number,
    decreases blocks.len(),
{
    if blocks.len() > 0 {
        let before = chain_events(blocks.drop_last(), target);
        let here = receipt_events(blocks.last(), blocks.last().receipts@, target);
        assert(numbers_rise(blocks.drop_last())) by {
            let shorter = blocks.drop_last();
            assert forall|i: int, j: int| 0 <= i <= j < shorter.len() implies shorter[i].number
                <= shorter[j].number by {
                assert(blocks[i].number <= blocks[j].number);
            }
        }
        lemma_events_rise(blocks.drop_last(), target);
        lemma_receipt_events_are_of_the_block(blocks.last(), blocks.last().receipts@, target);
        let all = chain_events(blocks, target);
        assert(all == before + here);
        assert forall|i: int| 0 <= i < all.len() implies (#[trigger] all[i]).0.number
            <= blocks.last().number by {
            if i < before.len() {
                assert(all[i] == before[i]);
                assert(blocks.drop_last().last() == blocks[blocks.len() - 2]);
                assert(blocks[blocks.len() - 2].number <= blocks[blocks.len() - 1].number);
            } else {
                assert(all[i] == here[i - before.len()]);
            }
        }
        assert forall|i: int, j: int| 0 <= i <= j < all.len() implies all[i].0.number
            <= all[j].0.number by {
            if j < before.len() {
                assert(all[i] == before[i]);
                assert(all[j] == before[j]);
            } else {
                assert(all[j] == here[j - before.len()]);
                if i >= before.len() {
                    assert(all[i] == here[i - before.len()]);
                }
            }
        }
    }
}

/// Whether the log at place `l` of the receipt at place `p` of `block` is a
/// log of `transaction` that says `event` to the contract at `target`.
pub open spec fn emits(
    block: Block,
    p: int,
    l: int,
    transaction: Transaction,
    event: RollupEvent,
    target: [u8; 20],
) -> bool {
    &&& 0 <= p < block.body@.len()
    &&& p < block.receipts@.len()
    &&& block.body@[p] == transaction
    &&& block.receipts@[p].is_some()
    &&& 0 <= l < block.receipts@[p].unwrap().logs@.len()
    &&& decoded_log(block.receipts@[p].unwrap().logs@[l], target) == Some(event)
}

/// Whether `transaction` is a transaction of `block` whose own receipt holds
/// a log that says `event` to the contract at `target`.
pub open spec fn emitted_in(
    block: Block,
    transaction: Transaction,
    event: RollupEvent,
    target: [u8; 20],
) -> bool {
    exists|p: int, l: int| emits(block, p, l, transaction, event, target)
}

proof fn lemma_log_events_come_from_logs(
    block: Block,
    transaction: Transaction,
    logs: Seq<Log>,
    target: [u8; 20],
)
    ensures
        forall|i: int|
            0 <= i < log_events(block, transaction, logs, target).len() ==> {
                let found = #[trigger] log_events(block, transaction, logs, target)[i];
                found.0 == block && found.1 == transaction && exists|l: int|
                    0 <= l < logs.len() && #[trigger] decoded_log(logs[l], target) == Some(
                        found.2,
                    )
            },
    decreases logs.len(),
{
    if logs.len() > 0 {
        lemma_log_events_come_from_logs(block, transaction, logs.drop_last(), target);
        let before = log_events(block, transaction, logs.drop_last(), target);
        let all = log_events(block, transaction, logs, target);
        assert forall|i: int| 0 <= i < all.len() implies {
            let found = #[trigger] all[i];
            found.0 == block && found.1 == transaction && exists|l: int|
                0 <= l < logs.len() && #[trigger] decoded_log(logs[l], target) == Some(found.2)
        } by {
            if i < before.len() {
                assert(all[i] == before[i]);
                let l = choose|l: int|
                    0 <= l < logs.drop_last().len() && #[trigger] decoded_log(
                        logs.drop_last()[l],
                        target,
                    ) == Some(before[i].2);
                assert(logs[l] == logs.drop_last()[l]);
                assert(decoded_log(logs[l], target) == Some(all[i].2));
            } else {
                assert(decoded_log(logs[logs.len() - 1], target) == Some(all[i].2));
            }
        }
    }
}

proof fn lemma_receipt_events_are_emitted(block: Block, n: int, target: [u8; 20])
    requires
        0 <= n <= block.receipts@.len(),
    ensures
        forall|i: int|
            0 <= i < receipt_events(block, block.receipts@.take(n), target).len() ==> {
                let found = #[trigger] receipt_events(block, block.receipts@.take(n), target)[i];
                found.0 == block && emitted_in(block, found.1, found.2, target)
            },
    decreases n,
{
    if n > 0 {
        let receipts = block.receipts@.take(n);
        assert(receipts.drop_last() == block.receipts@.take(n - 1));
        assert(receipts.last() == block.receipts@[n - 1]);
        lemma_receipt_events_are_emitted(block, n - 1, target);
        let before = receipt_events(block, receipts.drop_last(), target);
        let all = receipt_events(block, receipts, target);
        let place = n - 1;
        match receipts.last() {
            Some(receipt) => {
                if place < block.body@.len() {
                    let transaction = block.body@[place];
                    let here = log_events(block, transaction, receipt.logs@, target);
                    lemma_log_events_come_from_logs(block, transaction, receipt.logs@, target);
                    assert(all == before + here);
                    assert forall|i: int| 0 <= i < all.len() implies {
                        let found = #[trigger] all[i];
                        found.0 == block && emitted_in(block, found.1, found.2, target)
                    } by {
                        if i < before.len() {
                            assert(all[i] == before[i]);
                        } else {
                            let found = here[i - before.len()];
                            assert(all[i] == found);
                            let l = choose|l: int|
                                0 <= l < receipt.logs@.len() && #[trigger] decoded_log(
                                    receipt.logs@[l],
                                    target,
                                ) == Some(found.2);
                            assert(emits(block, place, l, found.1, found.2, target));
                        }
                    }
                }
            },
            None => {},
        }
    }
}

/// Every event that is found in `blocks` stands with a block of `blocks` and
/// with the transaction of that block that emitted it: the transaction whose
/// own receipt holds a log of the contract that decodes to the event.
pub proof fn lemma_event_goes_with_its_transaction(blocks: Seq<Block>, target: [u8; 20])
    ensures
        forall|i: int|
            0 <= i < chain_events(blocks, target).len() ==> {
                let found = #[trigger] chain_events(blocks, target)[i];
                blocks.contains(found.0) && emitted_in(found.0, found.1, found.2, target)
            },
    decreases blocks.len(),
{
    if blocks.len() > 0 {
        let last = blocks.last();
        let before = chain_events(blocks.drop_last(), target);
        let here = receipt_events(last, last.receipts@, target);
        let all = chain_events(blocks, target);
        lemma_event_goes_with_its_transaction(blocks.drop_last(), target);
        lemma_receipt_events_are_emitted(last, last.receipts@.len() as int, target);
        assert(last.receipts@.take(last.receipts@.len() as int) == last.receipts@);
        assert(all == before + here);
        assert forall|i: int| 0 <= i < all.len() implies {
            let found = #[trigger] all[i];
            blocks.contains(found.0) && emitted_in(found.0, found.1, found.2, target)
        } by {
            if i < before.len() {
                assert(all[i] == before[i]);
                let k = choose|k: int|
                    0 <= k < blocks.drop_last().len() && blocks.drop_last()[k] == before[i].0;
                assert(blocks[k] == before[i].0);
            } else {
                assert(all[i] == here[i - before.len()]);
                assert(blocks[blocks.len() - 1] == last);
            }
        }
    }
}

/// The events of blocks whose heights never fall come at heights from that
/// of the first block up to that of the last.
pub(crate) proof fn lemma_events_are_within(blocks: Seq<Block>, target: [u8; 20])
    requires
        numbers_rise(blocks),
    ensures
        forall|i: int|
            0 <= i < chain_events(blocks, target).len() ==> blocks[0].number <= (
            #[trigger] chain_events(blocks, target)[i]).0.number && chain_events(
                blocks,
                target,
            )[i].0.number <= blocks.last().number,
{
    lemma_event_goes_with_its_transaction(blocks, target);
    let all = chain_events(blocks, target);
    assert forall|i: int| 0 <= i < all.len() implies blocks[0].number <= (
    #[trigger] all[i]).0.number && all[i].0.number <= blocks.last().number by {
        let k = choose|k: int| 0 <= k < blocks.len() && blocks[k] == all[i].0;
        assert(blocks[0].number <= blocks[k].number);
        assert(blocks[k].number <= blocks[blocks.len() - 1].number);
    }
}

} // verus!
