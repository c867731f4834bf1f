//! Blobs of a batch: which of the blobs that were found belong to the batch,
//! in which order, and the bytes that they carry.

use crate::codec::{blob_payloads, byte_views, decode_blobs, decode_hash_list, rlp_hash_list};
use crate::digest::{kzg_to_versioned_hash, versioned_hash};
use crate::error::DeriveError;
use crate::primitives::{bytes32_eq, read_bytes};
use vstd::prelude::*;

verus! {

/// The number of bytes of one blob.
pub const BYTES_PER_BLOB: usize = 131072;

/// A blob as a cache or a blob archive hands it out, with its KZG commitment.
#[derive(Debug, PartialEq, Eq)]
pub struct BlobCandidate {
    blob: Vec<u8>,
    commitment: [u8; 48],
}

impl BlobCandidate {
    #[verifier::type_invariant]
    spec fn well_formed(self) -> bool {
        self.blob@.len() == BYTES_PER_BLOB
    }

    /// The bytes of the blob.
    pub closed spec fn blob_bytes(self) -> Seq<u8> {
        self.blob@
    }

    /// The commitment that came with the blob.
    pub closed spec fn commitment_bytes(self) -> [u8; 48] {
        self.commitment
    }

    /// A candidate of `blob` and `commitment`, if `blob` has the length of a
    /// blob.
    pub fn new(blob: Vec<u8>, commitment: [u8; 48]) -> (r: Option<BlobCandidate>)
        ensures
            r.is_some() == (blob@.len() == BYTES_PER_BLOB),
            r.is_some() ==> r.unwrap().blob_bytes() == blob@ && r.unwrap().commitment_bytes()
                == commitment,
    {
        if blob.len() == BYTES_PER_BLOB {
            Some(BlobCandidate { blob, commitment })
        } else {
            None
        }
    }

    /// The bytes of the blob.
    pub fn blob(&self) -> (b: &Vec<u8>)
        ensures
            b@ == self.blob_bytes(),
            b@.len() == BYTES_PER_BLOB,
    {
        proof {
            use_type_invariant(self);
        }
        &self.blob
    }

    /// The commitment that came with the blob.
    pub fn commitment(&self) -> (c: &[u8; 48])
        ensures
            *c == self.commitment_bytes(),
    {
        &self.commitment
    }
}

/// The versioned hash of each candidate's commitment.
pub open spec fn candidate_hashes(candidates: Seq<BlobCandidate>) -> Seq<[u8; 32]> {
    Seq::new(candidates.len(), |i: int| versioned_hash(candidates[i].commitment_bytes()))
}

/// How many of `hashes` occur in `expected`.
pub open spec fn count_retained(hashes: Seq<[u8; 32]>, expected: Seq<[u8; 32]>) -> nat
    decreases hashes.len(),
{
    if hashes.len() == 0 {
        0
    } else {
        count_retained(hashes.drop_last(), expected) + if expected.contains(hashes.last()) {
            1nat
        } else {
            0nat
        }
    }
}

/// The first position at or after `from` that is not in `used` and holds
/// `wanted`.
pub open spec fn first_free(hashes: Seq<[u8; 32]>, used: Set<int>, wanted: [u8; 32], from: int)
    -> Option<int>
    decreases hashes.len() - from,
{
    if from < 0 || from >= hashes.len() {
        None
    } else if !used.contains(from) && hashes[from] == wanted {
        Some(from)
    } else {
        first_free(hashes, used, wanted, from + 1)
    }
}

/// Gives every expected hash, in the order of `expected`, a position of
/// `hashes` of its own: the first that holds the hash and is not in `used`,
/// which is then used up. There is no assignment where a hash finds none.
pub open spec fn assign(hashes: Seq<[u8; 32]>, expected: Seq<[u8; 32]>, used: Set<int>) -> Option<
    Seq<int>,
>
    decreases expected.len(),
{
    if expected.len() == 0 {
        Some(Seq::empty())
    } else {
        match first_free(hashes, used, expected[0], 0) {
            None => None,
            Some(i) => match assign(hashes, expected.drop_first(), used.insert(i)) {
                None => None,
                Some(rest) => Some(seq![i] + rest),
            },
        }
    }
}

/// The blobs of a batch among the candidates with the versioned hashes
/// `hashes`: for each expected hash the position of the candidate that fills
/// it. There is none where the candidates whose hash is expected are not as
/// many as the expected hashes, or where an expected hash is left without a
/// candidate of its own.
pub open spec fn selection(hashes: Seq<[u8; 32]>, expected: Seq<[u8; 32]>) -> Option<Seq<int>> {
    if count_retained(hashes, expected) != expected.len() {
        None
    } else {
        assign(hashes, expected, Set::empty())
    }
}

/// The positions in `picks`, as mathematical integers.
pub open spec fn positions(picks: Seq<usize>) -> Seq<int> {
    Seq::new(picks.len(), |k: int| picks[k] as int)
}

/// What `first_free` finds is a free position at or after `from` that holds
/// the wanted hash.
proof fn lemma_first_free(hashes: Seq<[u8; 32]>, used: Set<int>, wanted: [u8; 32], from: int)
    requires
        0 <= from,
    ensures
        match first_free(hashes, used, wanted, from) {
            Some(i) => from <= i < hashes.len() && !used.contains(i) && hashes[i] == wanted,
            None => forall|j: int|
                from <= j < hashes.len() ==> used.contains(j) || hashes[j] != wanted,
        },
    decreases hashes.len() - from,
{
    if from < hashes.len() && !(!used.contains(from) && hashes[from] == wanted) {
        lemma_first_free(hashes, used, wanted, from + 1);
    }
}

/// An assignment fills every expected hash with a candidate of that hash, and
/// no candidate fills two of them: an expected hash that occurs twice takes two
/// candidates.
pub proof fn lemma_assignment(hashes: Seq<[u8; 32]>, expected: Seq<[u8; 32]>, used: Set<int>)
    ensures
        match assign(hashes, expected, used) {
            Some(picks) => {
                &&& picks.len() == expected.len()
                &&& forall|k: int|
                    0 <= k < picks.len() ==> 0 <= #[trigger] picks[k] < hashes.len()
                        && !used.contains(picks[k]) && hashes[picks[k]] == expected[k]
                &&& forall|k: int, l: int|
                    0 <= k < l < picks.len() ==> #[trigger] picks[k] != #[trigger] picks[l]
            },
            None => true,
        },
    decreases expected.len(),
{
    if expected.len() > 0 {
        lemma_first_free(hashes, used, expected[0], 0);
        match first_free(hashes, used, expected[0], 0) {
            None => {},
            Some(i) => {
                lemma_assignment(hashes, expected.drop_first(), used.insert(i));
                match assign(hashes, expected.drop_first(), used.insert(i)) {
                    None => {},
                    Some(rest) => {
                        let picks = seq![i] + rest;
                        assert forall|k: int| 0 <= k < picks.len() implies 0 <= #[trigger] picks[k]
                            < hashes.len() && !used.contains(picks[k]) && hashes[picks[k]]
                            == expected[k] by {
                            if k > 0 {
                                assert(picks[k] == rest[k - 1]);
                                assert(expected[k] == expected.drop_first()[k - 1]);
                            }
                        }
                        assert forall|k: int, l: int|
                            0 <= k < l < picks.len() implies #[trigger] picks[k]
                            != #[trigger] picks[l] by {
                            assert(picks[l] == rest[l - 1]);
                            if k > 0 {
                                assert(picks[k] == rest[k - 1]);
                            }
                        }
                    },
                }
            },
        }
    }
}

/// Taking a hash that is expected out of `hashes`, for one that is not,
/// leaves one candidate less for the expected hashes.
proof fn lemma_count_after_change(
    hashes: Seq<[u8; 32]>,
    expected: Seq<[u8; 32]>,
    i: int,
    other: [u8; 32],
)
    requires
        0 <= i < hashes.len(),
        expected.contains(hashes[i]),
        !expected.contains(other),
    ensures
        count_retained(hashes.update(i, other), expected) + 1 == count_retained(hashes, expected),
    decreases hashes.len(),
{
    let changed = hashes.update(i, other);
    if i == hashes.len() - 1 {
        assert(changed.drop_last() == hashes.drop_last());
    } else {
        assert(changed.drop_last() == hashes.drop_last().update(i, other));
        lemma_count_after_change(hashes.drop_last(), expected, i, other);
    }
}

/// The commitments decide which blobs belong to a batch: where the blobs of
/// a batch were found, and the commitment of one of them is changed so that
/// its versioned hash is no longer expected, they are found no more.
pub proof fn lemma_changed_commitment_is_missed(
    hashes: Seq<[u8; 32]>,
    expected: Seq<[u8; 32]>,
    i: int,
    other: [u8; 32],
)
    requires
        selection(hashes, expected).is_some(),
        0 <= i < hashes.len(),
        expected.contains(hashes[i]),
        !expected.contains(other),
    ensures
        selection(hashes.update(i, other), expected).is_none(),
{
    lemma_count_after_change(hashes, expected, i, other);
}

/// Whether `wanted` occurs in `list`.
pub fn contains_hash(list: &Vec<[u8; 32]>, wanted: &[u8; 32]) -> (found: bool)
    ensures
        found == list@.contains(*wanted),
{
    let mut i: usize = 0;
    while i < list.len()
        invariant
            i <= list.len(),
            forall|k: int| 0 <= k < i ==> list@[k] != *wanted,
        decreases list.len() - i,
    {
        if bytes32_eq(&list[i], wanted) {
            return true;
        }
        i += 1;
    }
    false
}

/// The versioned hash of each candidate's commitment, in the candidates'
/// order.
pub fn versioned_hashes(candidates: &Vec<BlobCandidate>) -> (hashes: Vec<[u8; 32]>)
    ensures
        hashes@ == candidate_hashes(candidates@),
{
    let mut hashes: Vec<[u8; 32]> = Vec::new();
    let mut i: usize = 0;
    while i < candidates.len()
        invariant
            i <= candidates.len(),
            hashes@.len() == i,
            forall|k: int|
                0 <= k < i ==> hashes@[k] == versioned_hash(candidates@[k].commitment_bytes()),
        decreases candidates.len() - i,
    {
        hashes.push(kzg_to_versioned_hash(candidates[i].commitment()));
        i += 1;
    }
    assert(hashes@ =~= candidate_hashes(candidates@));
    hashes
}

/// The positions that are marked in `flags`.
spec fn marked(flags: Seq<bool>) -> Set<int> {
    Set::new(|i: int| 0 <= i < flags.len() && flags[i])
}

/// `prefix` before an assignment, where there is one.
spec fn after(prefix: Seq<int>, rest: Option<Seq<int>>) -> Option<Seq<int>> {
    match rest {
        Some(r) => Some(prefix + r),
        None => None,
    }
}

fn count_expected(hashes: &Vec<[u8; 32]>, expected: &Vec<[u8; 32]>) -> (n: usize)
    ensures
        n == count_retained(hashes@, expected@),
{
    let mut n: usize = 0;
    let mut i: usize = 0;
    while i < hashes.len()
        invariant
            i <= hashes.len(),
            n <= i,
            n == count_retained(hashes@.take(i as int), expected@),
        decreases hashes.len() - i,
    {
        proof {
            assert(hashes@.take(i + 1).drop_last() == hashes@.take(i as int));
        }
        if contains_hash(expected, &hashes[i]) {
            n += 1;
        }
        i += 1;
    }
    assert(hashes@.take(hashes.len() as int) == hashes@);
    n
}

fn find_free(hashes: &Vec<[u8; 32]>, used: &Vec<bool>, wanted: &[u8; 32]) -> (r: Option<usize>)
    requires
        used.len() == hashes.len(),
    ensures
        match r {
            Some(i) => first_free(hashes@, marked(used@), *wanted, 0) == Some(i as int) && i
                < hashes.len(),
            None => first_free(hashes@, marked(used@), *wanted, 0).is_none(),
        },
{
    let mut i: usize = 0;
    while i < hashes.len()
        invariant
            i <= hashes.len(),
            used.len() == hashes.len(),
            first_free(hashes@, marked(used@), *wanted, 0) == first_free(
                hashes@,
                marked(used@),
                *wanted,
                i as int,
            ),
        decreases hashes.len() - i,
    {
        if !used[i] && bytes32_eq(&hashes[i], wanted) {
            return Some(i);
        }
        i += 1;
    }
    None
}

/// Picks the blobs of a batch: for each expected hash, in order, the position
/// in `hashes` of the candidate that fills it.
pub fn select_blobs(hashes: &Vec<[u8; 32]>, expected: &Vec<[u8; 32]>) -> (r: Option<Vec<usize>>)
    ensures
        match r {
            Some(picks) => selection(hashes@, expected@) == Some(positions(picks@)),
            None => selection(hashes@, expected@).is_none(),
        },
{
    if count_expected(hashes, expected) != expected.len() {
        return None;
    }
    let mut used: Vec<bool> = Vec::new();
    let mut n: usize = 0;
    while n < hashes.len()
        invariant
            n <= hashes.len(),
            used.len() == n,
            forall|j: int| 0 <= j < n ==> !used@[j],
        decreases hashes.len() - n,
    {
        used.push(false);
        n += 1;
    }
    let mut picks: Vec<usize> = Vec::new();
    let mut k: usize = 0;
    proof {
        assert(marked(used@) =~= Set::<int>::empty());
        assert(expected@.skip(0) == expected@);
        match assign(hashes@, expected@, Set::empty()) {
            Some(all) => {
                assert(positions(picks@) + all =~= all);
            },
            None => {},
        }
    }
    while k < expected.len()
        invariant
            k <= expected.len(),
            used.len() == hashes.len(),
            picks.len() == k,
            assign(hashes@, expected@, Set::empty()) == after(
                positions(picks@),
                assign(hashes@, expected@.skip(k as int), marked(used@)),
            ),
        decreases expected.len() - k,
    {
        let ghost before = marked(used@);
        let ghost prefix = positions(picks@);
        proof {
            assert(expected@.skip(k as int)[0] == expected@[k as int]);
            assert(expected@.skip(k as int).drop_first() == expected@.skip(k + 1));
        }
        match find_free(hashes, &used, &expected[k]) {
            None => {
                return None;
            },
            Some(i) => {
                used.set(i, true);
                picks.push(i);
                proof {
                    assert(marked(used@) =~= before.insert(i as int));
                    assert(positions(picks@) =~= prefix + seq![i as int]);
                    match assign(hashes@, expected@.skip(k + 1), marked(used@)) {
                        Some(rest) => {
                            assert(prefix + (seq![i as int] + rest) =~= positions(picks@) + rest);
                        },
                        None => {},
                    }
                }
            },
        }
        k += 1;
    }
    proof {
        assert(expected@.skip(k as int) =~= Seq::<[u8; 32]>::empty());
        assert(positions(picks@) + Seq::<int>::empty() =~= positions(picks@));
    }
    Some(picks)
}

/// The bytes of the candidates at the positions `picks`, in the order of
/// `picks`.
pub open spec fn picked_blobs(candidates: Seq<BlobCandidate>, picks: Seq<int>) -> Seq<Seq<u8>> {
    Seq::new(picks.len(), |k: int| candidates[picks[k]].blob_bytes())
}

/// The byte strings of `chunks`, one after the other.
pub open spec fn concatenation(chunks: Seq<Seq<u8>>) -> Seq<u8>
    decreases chunks.len(),
{
    if chunks.len() == 0 {
        Seq::empty()
    } else {
        concatenation(chunks.drop_last()) + chunks.last()
    }
}

/// Joins `chunks` into one byte string.
pub fn concatenate(chunks: &Vec<Vec<u8>>) -> (joined: Vec<u8>)
    ensures
        joined@ == concatenation(byte_views(chunks@)),
{
    let mut joined: Vec<u8> = Vec::new();
    let mut i: usize = 0;
    while i < chunks.len()
        invariant
            i <= chunks.len(),
            joined@ == concatenation(byte_views(chunks@).take(i as int)),
        decreases chunks.len() - i,
    {
        let chunk = &chunks[i];
        let ghost start = joined@;
        let mut j: usize = 0;
        while j < chunk.len()
            invariant
                j <= chunk.len(),
                joined@ == start + chunk@.take(j as int),
            decreases chunk.len() - j,
        {
            joined.push(chunk[j]);
            j += 1;
            assert(joined@ =~= start + chunk@.take(j as int));
        }
        proof {
            assert(chunk@.take(chunk.len() as int) == chunk@);
            assert(byte_views(chunks@).take(i + 1).drop_last() == byte_views(chunks@).take(
                i as int,
            ));
            assert(byte_views(chunks@).take(i + 1).last() == chunk@);
        }
        i += 1;
    }
    assert(byte_views(chunks@).take(chunks.len() as int) == byte_views(chunks@));
    joined
}

/// The raw batch of a submission: the payload of a transaction that carries
/// no blobs, and else what the blobs hold that the payload names. The payload
/// of a blob-carrying transaction is the list of the versioned hashes of its
/// blobs, which are looked for among `candidates`.
pub open spec fn raw_batch(blob_carrying: bool, candidates: Seq<BlobCandidate>, payload: Seq<u8>)
    -> Result<Seq<u8>, DeriveError> {
    if !blob_carrying {
        Ok(payload)
    } else {
        match rlp_hash_list(payload) {
            None => Err(DeriveError::MalformedReference),
            Some(expected) => match selection(candidate_hashes(candidates), expected) {
                None => Err(DeriveError::IncompleteBatch),
                Some(picks) => match blob_payloads(picked_blobs(candidates, picks)) {
                    None => Err(DeriveError::MalformedBlobs),
                    Some(chunks) => Ok(concatenation(chunks)),
                },
            },
        }
    }
}

/// Rebuilds the raw batch of a submission from the payload of its
/// transaction and, where the transaction carries blobs, from the blobs that
/// were found for it.
pub fn reconstruct_batch(blob_carrying: bool, candidates: &Vec<BlobCandidate>, payload: &[u8])
    -> (r: Result<Vec<u8>, DeriveError>)
    ensures
        match r {
            Ok(raw) => raw_batch(blob_carrying, candidates@, payload@) == Ok::<
                Seq<u8>,
                DeriveError,
            >(raw@),
            Err(e) => raw_batch(blob_carrying, candidates@, payload@) == Err::<
                Seq<u8>,
                DeriveError,
            >(e),
        },
{
    if !blob_carrying {
        let raw = read_bytes(payload, 0, payload.len());
        assert(payload@.subrange(0, payload@.len() as int) == payload@);
        return Ok(raw);
    }
    let expected = match decode_hash_list(payload) {
        Ok(expected) => expected,
        Err(_) => {
            return Err(DeriveError::MalformedReference);
        },
    };
    let hashes = versioned_hashes(candidates);
    let picks = match select_blobs(&hashes, &expected) {
        Some(picks) => picks,
        None => {
            return Err(DeriveError::IncompleteBatch);
        },
    };
    proof {
        lemma_assignment(hashes@, expected@, Set::empty());
    }
    let mut blobs: Vec<Vec<u8>> = Vec::new();
    let mut k: usize = 0;
    while k < picks.len()
        invariant
            k <= picks.len(),
            blobs.len() == k,
            forall|j: int| 0 <= j < picks.len() ==> 0 <= #[trigger] positions(picks@)[j]
                < candidates.len(),
            forall|j: int|
                0 <= j < k ==> (#[trigger] blobs@[j])@ == candidates@[picks@[j] as int].blob_bytes()
                    && blobs@[j]@.len() == BYTES_PER_BLOB,
        decreases picks.len() - k,
    {
        assert(positions(picks@)[k as int] == picks@[k as int]);
        let blob = candidates[picks[k]].blob();
        let copy = read_bytes(blob.as_slice(), 0, blob.len());
        assert(blob@.subrange(0, blob@.len() as int) == blob@);
        blobs.push(copy);
        k += 1;
    }
    assert(byte_views(blobs@) =~= picked_blobs(candidates@, positions(picks@)));
    match decode_blobs(&blobs) {
        Some(chunks) => Ok(concatenate(&chunks)),
        None => Err(DeriveError::MalformedBlobs),
    }
}

} // verus!
