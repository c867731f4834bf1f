//! The table of derived results, one record for each base-chain height at
//! which a submission was taken.

use crate::derive::{derived_views, DerivedTransaction, DerivedTransactionView};
use vstd::prelude::*;

verus! {

/// What was derived from the submission at one base-chain height.
#[derive(Clone, Debug, PartialEq, Eq)]
pub struct DerivedRecord {
    /// The rollup chain of the submission.
    pub chain_id: u64,
    /// The sequence number that the submission carried.
    pub sequence: u64,
    /// The digest of the batch.
    pub block_hash: [u8; 32],
    /// The transactions of the batch, with their senders.
    pub transactions: Vec<DerivedTransaction>,
}

/// A `DerivedRecord` with its transactions as a sequence.
pub struct DerivedRecordView {
    pub chain_id: u64,
    pub sequence: u64,
    pub block_hash: [u8; 32],
    pub transactions: Seq<DerivedTransactionView>,
}

impl View for DerivedRecord {
    type V = DerivedRecordView;

    open spec fn view(&self) -> DerivedRecordView {
        DerivedRecordView {
            chain_id: self.chain_id,
            sequence: self.sequence,
            block_hash: self.block_hash,
            transactions: derived_views(self.transactions@),
        }
    }
}

/// Whether the heights of `entries` rise strictly.
spec fn ascending(entries: Seq<(u64, DerivedRecord)>) -> bool {
    forall|i: int, j: int| 0 <= i < j < entries.len() ==> entries[i].0 < entries[j].0
}

/// Whether `entries` has a record for `height`.
spec fn holds(entries: Seq<(u64, DerivedRecord)>, height: u64) -> bool {
    exists|i: int| 0 <= i < entries.len() && entries[i].0 == height
}

/// A place of `entries` that has the record for `height`.
spec fn place_of(entries: Seq<(u64, DerivedRecord)>, height: u64) -> int {
    choose|i: int| 0 <= i < entries.len() && entries[i].0 == height
}

/// The table that `entries` spell out.
spec fn table(entries: Seq<(u64, DerivedRecord)>) -> Map<u64, DerivedRecordView> {
    Map::new(|h: u64| holds(entries, h), |h: u64| entries[place_of(entries, h)].1@)
}

/// The heights from `lo` up to `hi`, both included.
pub open spec fn heights(lo: u64, hi: u64) -> Set<u64> {
    Set::new(|h: u64| lo <= h <= hi)
}

/// Each entry of an ascending list is the table's record for its height.
proof fn lemma_table(entries: Seq<(u64, DerivedRecord)>)
    requires
        ascending(entries),
    ensures
        forall|i: int|
            0 <= i < entries.len() ==> table(entries).dom().contains(#[trigger] entries[i].0)
                && table(entries)[entries[i].0] == entries[i].1@,
{
    assert forall|i: int| 0 <= i < entries.len() implies table(entries).dom().contains(
        #[trigger] entries[i].0,
    ) && table(entries)[entries[i].0] == entries[i].1@ by {
        let h = entries[i].0;
        assert(holds(entries, h));
        let p = place_of(entries, h);
        assert(p == i) by {
            if p < i {
                assert(entries[p].0 < entries[i].0);
            } else if i < p {
                assert(entries[i].0 < entries[p].0);
            }
        }
    }
}

/// The first place of `entries` whose height is not below `height`.
fn lower_bound(entries: &Vec<(u64, DerivedRecord)>, height: u64) -> (p: usize)
    ensures
        p <= entries@.len(),
        forall|i: int| 0 <= i < p ==> entries@[i].0 < height,
        p < entries@.len() ==> entries@[p as int].0 >= height,
{
    let mut p: usize = 0;
    while p < entries.len() && entries[p].0 < height
        invariant
            p <= entries@.len(),
            forall|i: int| 0 <= i < p ==> entries@[i].0 < height,
        decreases entries@.len() - p,
    {
        p += 1;
    }
    p
}

/// The derived results by base-chain height.
pub struct StateStore {
    entries: Vec<(u64, DerivedRecord)>,
}

impl View for StateStore {
    type V = Map<u64, DerivedRecordView>;

    closed spec fn view(&self) -> Map<u64, DerivedRecordView> {
        table(self.entries@)
    }
}

impl StateStore {
    #[verifier::type_invariant]
    spec fn well_formed(self) -> bool {
        ascending(self.entries@)
    }

    /// A store without a record.
    pub fn new() -> (store: StateStore)
        ensures
            store@ == Map::<u64, DerivedRecordView>::empty(),
    {
        let store = StateStore { entries: Vec::new() };
        assert(store@ =~= Map::<u64, DerivedRecordView>::empty());
        store
    }

    /// Puts `record` at `height`, in place of the record that may be there.
    pub fn write(&mut self, height: u64, record: DerivedRecord)
        ensures
            final(self)@ == old(self)@.insert(height, record@),
    {
        proof {
            use_type_invariant(&*self);
        }
        let ghost before = self.entries@;
        let mut entries: Vec<(u64, DerivedRecord)> = Vec::new();
        std::mem::swap(&mut self.entries, &mut entries);
        let p = lower_bound(&entries, height);
        if p < entries.len() && entries[p].0 == height {
            let ghost after = before.update(p as int, (height, record));
            proof {
                assert(ascending(after));
                lemma_table(before);
                lemma_table(after);
                assert forall|h: u64| holds(after, h) == (h == height || holds(before, h)) by {
                    if holds(after, h) {
                        let i = place_of(after, h);
                        assert(before[i].0 == h);
                    }
                    if holds(before, h) {
                        let i = place_of(before, h);
                        assert(after[i].0 == h);
                    }
                    assert(after[p as int].0 == height);
                }
                assert forall|h: u64| holds(after, h) implies #[trigger] table(after)[h] == table(
                    before,
                ).insert(height, record@)[h] by {
                    let i = place_of(after, h);
                    assert(after[i].0 == h);
                    assert(table(after)[after[i].0] == after[i].1@);
                    if h != height {
                        assert(i != p);
                        assert(table(before)[before[i].0] == before[i].1@);
                    } else {
                        assert(i == p);
                    }
                }
                assert(table(after) =~= table(before).insert(height, record@));
            }
            entries.set(p, (height, record));
        } else {
            let ghost after = before.insert(p as int, (height, record));
            proof {
                assert(ascending(after)) by {
                    assert forall|i: int, j: int| 0 <= i < j < after.len() implies after[i].0
                        < after[j].0 by {
                        let oi = if i < p { i } else { i - 1 };
                        let oj = if j < p { j } else { j - 1 };
                        if i != p && j != p {
                            assert(after[i] == before[oi]);
                            assert(after[j] == before[oj]);
                        } else if i == p {
                            assert(after[j] == before[oj]);
                        } else {
                            assert(after[i] == before[oi]);
                        }
                    }
                }
                lemma_table(before);
                lemma_table(after);
                assert forall|h: u64| holds(after, h) == (h == height || holds(before, h)) by {
                    if holds(after, h) && h != height {
                        let i = place_of(after, h);
                        let oi = if i < p { i } else { i - 1 };
                        assert(after[i] == before[oi]);
                    }
                    if holds(before, h) {
                        let i = place_of(before, h);
                        let ni = if i < p { i } else { i + 1 };
                        assert(after[ni] == before[i]);
                    }
                    assert(after[p as int].0 == height);
                }
                assert forall|h: u64| holds(after, h) implies #[trigger] table(after)[h] == table(
                    before,
                ).insert(height, record@)[h] by {
                    let i = place_of(after, h);
                    assert(table(after)[after[i].0] == after[i].1@);
                    if h != height {
                        let oi = if i < p { i } else { i - 1 };
                        assert(after[i] == before[oi]);
                        assert(table(before)[before[oi].0] == before[oi].1@);
                    } else {
                        assert(after[p as int].0 == height);
                        assert(table(after)[after[p as int].0] == after[p as int].1@);
                    }
                }
                assert(table(after) =~= table(before).insert(height, record@));
            }
            entries.insert(p, (height, record));
        }
        std::mem::swap(&mut self.entries, &mut entries);
    }

    /// The record at `height`, if there is one.
    pub fn read(&self, height: u64) -> (r: Option<&DerivedRecord>)
        ensures
            r.is_some() == self@.dom().contains(height),
            r.is_some() ==> r.unwrap()@ == self@[height],
    {
        proof {
            use_type_invariant(self);
            lemma_table(self.entries@);
        }
        let p = lower_bound(&self.entries, height);
        if p < self.entries.len() && self.entries[p].0 == height {
            Some(&self.entries[p].1)
        } else {
            assert(!holds(self.entries@, height)) by {
                if holds(self.entries@, height) {
                    let i = place_of(self.entries@, height);
                    if i < p {
                    } else if i > p {
                        assert(self.entries@[p as int].0 < self.entries@[i].0);
                    }
                }
            }
            None
        }
    }

    /// The greatest height that has a record.
    pub fn last_processed_height(&self) -> (r: Option<u64>)
        ensures
            match r {
                Some(top) => self@.dom().contains(top) && forall|h: u64|
                    self@.dom().contains(h) ==> h <= top,
                None => self@ == Map::<u64, DerivedRecordView>::empty(),
            },
    {
        proof {
            use_type_invariant(self);
            lemma_table(self.entries@);
        }
        let n = self.entries.len();
        if n == 0 {
            assert(self@ =~= Map::<u64, DerivedRecordView>::empty());
            None
        } else {
            let top = self.entries[n - 1].0;
            assert forall|h: u64| self@.dom().contains(h) implies h <= top by {
                let i = place_of(self.entries@, h);
                if i < n - 1 {
                    assert(self.entries@[i].0 < self.entries@[n - 1].0);
                }
            }
            Some(top)
        }
    }

    /// The records whose heights are from `lo` up to `hi`, lowest first, each
    /// with its height.
    pub fn read_range(&self, lo: u64, hi: u64) -> (r: Vec<(u64, &DerivedRecord)>)
        ensures
            forall|i: int|
                0 <= i < r@.len() ==> lo <= (#[trigger] r@[i]).0 && r@[i].0 <= hi
                    && self@.dom().contains(r@[i].0) && self@[r@[i].0] == r@[i].1@,
            forall|i: int, j: int| 0 <= i < j < r@.len() ==> r@[i].0 < r@[j].0,
            forall|h: u64|
                self@.dom().contains(h) && lo <= h <= hi ==> exists|i: int|
                    0 <= i < r@.len() && (#[trigger] r@[i]).0 == h,
    {
        proof {
            use_type_invariant(self);
            lemma_table(self.entries@);
        }
        let a = lower_bound(&self.entries, lo);
        let mut r: Vec<(u64, &DerivedRecord)> = Vec::new();
        let mut n: usize = a;
        while n < self.entries.len() && self.entries[n].0 <= hi
            invariant
                a <= n <= self.entries@.len(),
                ascending(self.entries@),
                r@.len() == n - a,
                forall|i: int| 0 <= i < a ==> self.entries@[i].0 < lo,
                a < self.entries@.len() ==> self.entries@[a as int].0 >= lo,
                forall|i: int|
                    0 <= i < r@.len() ==> (#[trigger] r@[i]).0 == self.entries@[a + i].0 && r@[i].1@
                        == self.entries@[a + i].1@ && lo <= r@[i].0 && r@[i].0 <= hi,
            decreases self.entries@.len() - n,
        {
            proof {
                if a < n {
                    assert(self.entries@[a as int].0 < self.entries@[n as int].0);
                }
            }
            r.push((self.entries[n].0, &self.entries[n].1));
            n += 1;
        }
        assert forall|i: int| 0 <= i < r@.len() implies self@.dom().contains(
            (#[trigger] r@[i]).0,
        ) && self@[r@[i].0] == r@[i].1@ by {
            assert(self@.dom().contains(self.entries@[a + i].0));
        }
        assert forall|i: int, j: int| 0 <= i < j < r@.len() implies r@[i].0 < r@[j].0 by {
            assert(self.entries@[a + i].0 < self.entries@[a + j].0);
        }
        assert forall|h: u64| self@.dom().contains(h) && lo <= h <= hi implies exists|i: int|
            0 <= i < r@.len() && (#[trigger] r@[i]).0 == h by {
            let p = place_of(self.entries@, h);
            if p >= n {
                if p > n {
                    assert(self.entries@[n as int].0 < self.entries@[p].0);
                }
            }
            assert(r@[p - a].0 == h);
        }
        r
    }

    /// Takes out every record whose height is from `lo` up to `hi`.
    pub fn delete_range(&mut self, lo: u64, hi: u64)
        ensures
            final(self)@ == old(self)@.remove_keys(heights(lo, hi)),
    {
        proof {
            use_type_invariant(&*self);
        }
        let ghost before = self.entries@;
        let mut entries: Vec<(u64, DerivedRecord)> = Vec::new();
        std::mem::swap(&mut self.entries, &mut entries);
        let a = lower_bound(&entries, lo);
        let ghost mut gone: int = 0;
        assert(entries@ =~= before.take(a as int) + before.skip(a + gone));
        while a < entries.len() && entries[a].0 <= hi
            invariant
                ascending(before),
                0 <= gone,
                a + gone <= before.len(),
                entries@ == before.take(a as int) + before.skip(a + gone),
                forall|i: int| 0 <= i < a ==> before[i].0 < lo,
                a < before.len() ==> before[a as int].0 >= lo,
                forall|i: int|
                    a <= i < a + gone ==> lo <= (#[trigger] before[i]).0 && before[i].0 <= hi,
            decreases entries@.len(),
        {
            proof {
                assert(entries@[a as int] == before[a + gone]);
                if gone > 0 {
                    assert(before[a as int].0 < before[a + gone].0);
                }
                assert(entries@.remove(a as int) =~= before.take(a as int) + before.skip(
                    a + gone + 1,
                ));
                gone = gone + 1;
            }
            entries.remove(a);
        }
        proof {
            if a + gone < before.len() {
                assert(entries@[a as int] == before[a + gone]);
            }
            lemma_cut(before, a as int, gone, lo, hi);
        }
        std::mem::swap(&mut self.entries, &mut entries);
    }

    /// The record of the greatest height that is not from `lo` up to `hi`:
    /// the last record that a `delete_range(lo, hi)` would leave.
    pub fn last_outside(&self, lo: u64, hi: u64) -> (r: Option<(u64, &DerivedRecord)>)
        ensures
            match r {
                Some((top, record)) => {
                    &&& self@.remove_keys(heights(lo, hi)).dom().contains(top)
                    &&& self@[top] == record@
                    &&& forall|h: u64|
                        self@.remove_keys(heights(lo, hi)).dom().contains(h) ==> h <= top
                },
                None => self@.remove_keys(heights(lo, hi)) == Map::<
                    u64,
                    DerivedRecordView,
                >::empty(),
            },
    {
        proof {
            use_type_invariant(self);
            lemma_table(self.entries@);
        }
        let mut n: usize = self.entries.len();
        while n > 0 && lo <= self.entries[n - 1].0 && self.entries[n - 1].0 <= hi
            invariant
                n <= self.entries@.len(),
                forall|i: int|
                    n <= i < self.entries@.len() ==> lo <= (#[trigger] self.entries@[i]).0
                        && self.entries@[i].0 <= hi,
            decreases n,
        {
            n -= 1;
        }
        if n == 0 {
            assert(self@.remove_keys(heights(lo, hi)) =~= Map::<u64, DerivedRecordView>::empty())
                by {
                assert forall|h: u64| !self@.remove_keys(heights(lo, hi)).dom().contains(h) by {
                    if holds(self.entries@, h) {
                        let i = place_of(self.entries@, h);
                        assert(heights(lo, hi).contains(h));
                    }
                }
            }
            None
        } else {
            let top = self.entries[n - 1].0;
            assert(!heights(lo, hi).contains(top));
            assert forall|h: u64|
                self@.remove_keys(heights(lo, hi)).dom().contains(h) implies h <= top by {
                let i = place_of(self.entries@, h);
                if i < n - 1 {
                    assert(self.entries@[i].0 < self.entries@[n - 1].0);
                } else if i > n - 1 {
                    assert(heights(lo, hi).contains(h));
                }
            }
            Some((top, &self.entries[n - 1].1))
        }
    }

    /// How many records the store has.
    pub fn len(&self) -> (n: usize)
        ensures
            n == self@.dom().len(),
            self@.dom().finite(),
    {
        proof {
            use_type_invariant(self);
            lemma_table_size(self.entries@);
        }
        self.entries.len()
    }
}

/// An ascending list has as many entries as its table has heights.
proof fn lemma_table_size(entries: Seq<(u64, DerivedRecord)>)
    requires
        ascending(entries),
    ensures
        table(entries).dom().finite(),
        table(entries).dom().len() == entries.len(),
    decreases entries.len(),
{
    if entries.len() == 0 {
        assert(table(entries).dom() =~= Set::<u64>::empty());
    } else {
        let shorter = entries.drop_last();
        let top = entries.last().0;
        lemma_table_size(shorter);
        assert(table(entries).dom() =~= table(shorter).dom().insert(top)) by {
            assert forall|h: u64| holds(entries, h) == (h == top || holds(shorter, h)) by {
                if holds(entries, h) {
                    let i = place_of(entries, h);
                    if i < entries.len() - 1 {
                        assert(shorter[i].0 == h);
                    }
                }
                if holds(shorter, h) {
                    let i = place_of(shorter, h);
                    assert(entries[i].0 == h);
                }
                assert(entries[entries.len() - 1].0 == top);
            }
        }
        assert(!table(shorter).dom().contains(top)) by {
            if holds(shorter, top) {
                let i = place_of(shorter, top);
                assert(entries[i].0 < entries[entries.len() - 1].0);
            }
        }
    }
}

/// Cutting the run of entries whose heights are from `lo` up to `hi` out of
/// an ascending list takes just those heights out of its table.
proof fn lemma_cut(before: Seq<(u64, DerivedRecord)>, a: int, gone: int, lo: u64, hi: u64)
    requires
        ascending(before),
        0 <= a,
        0 <= gone,
        a + gone <= before.len(),
        forall|i: int| 0 <= i < a ==> before[i].0 < lo,
        forall|i: int| a <= i < a + gone ==> lo <= (#[trigger] before[i]).0 && before[i].0 <= hi,
        a + gone < before.len() ==> before[a + gone].0 > hi,
    ensures
        ascending(before.take(a) + before.skip(a + gone)),
        table(before.take(a) + before.skip(a + gone)) == table(before).remove_keys(
            heights(lo, hi),
        ),
{
    let after = before.take(a) + before.skip(a + gone);
    assert forall|j: int| 0 <= j < after.len() implies after[j] == before[if j < a {
        j
    } else {
        j + gone
    }] by {}
    assert(ascending(after)) by {
        assert forall|i: int, j: int| 0 <= i < j < after.len() implies after[i].0 < after[j].0 by {
            let oi = if i < a { i } else { i + gone };
            let oj = if j < a { j } else { j + gone };
            assert(after[i] == before[oi]);
            assert(after[j] == before[oj]);
        }
    }
    lemma_table(before);
    lemma_table(after);
    let cut = table(before).remove_keys(heights(lo, hi));
    assert forall|h: u64| holds(after, h) == cut.dom().contains(h) by {
        if holds(after, h) {
            let j = place_of(after, h);
            let oj = if j < a { j } else { j + gone };
            assert(after[j] == before[oj]);
            assert(before[oj].0 == h);
            if j >= a {
                if a + gone < oj {
                    assert(before[a + gone].0 < before[oj].0);
                }
            }
        }
        if cut.dom().contains(h) {
            let i = place_of(before, h);
            assert(!(lo <= h <= hi));
            if i < a {
                assert(after[i] == before[i]);
            } else {
                assert(i >= a + gone);
                assert(after[i - gone] == before[i]);
            }
        }
    }
    assert forall|h: u64| holds(after, h) implies #[trigger] table(after)[h] == cut[h] by {
        let j = place_of(after, h);
        let oj = if j < a { j } else { j + gone };
        assert(after[j] == before[oj]);
        assert(table(after)[after[j].0] == after[j].1@);
        assert(table(before)[before[oj].0] == before[oj].1@);
    }
    assert(table(after) =~= cut);
}

} // verus!
