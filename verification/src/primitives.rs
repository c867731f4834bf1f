//! Byte strings of fixed width and the big-endian numbers that the contract
//! interface is made of.

use vstd::prelude::*;

verus! {

/// The number that `bytes` spell in base 256, most significant byte first.
pub open spec fn be_value(bytes: Seq<u8>) -> nat
    decreases bytes.len(),
{
    if bytes.len() == 0 {
        0
    } else {
        be_value(bytes.drop_last()) * 256 + bytes.last() as nat
    }
}

/// A longer prefix never spells a smaller number.
proof fn lemma_be_value_grows(bytes: Seq<u8>, i: int, j: int)
    requires
        0 <= i <= j <= bytes.len(),
    ensures
        be_value(bytes.take(i)) <= be_value(bytes.take(j)),
    decreases j - i,
{
    if i < j {
        lemma_be_value_grows(bytes, i, j - 1);
        assert(bytes.take(j).drop_last() == bytes.take(j - 1));
    }
}

/// Whether two 32-byte strings are the same.
pub fn bytes32_eq(a: &[u8; 32], b: &[u8; 32]) -> (same: bool)
    ensures
        same == (*a == *b),
{
    let mut i: usize = 0;
    while i < 32
        invariant
            i <= 32,
            forall|k: int| 0 <= k < i ==> a[k] == b[k],
        decreases 32 - i,
    {
        if a[i] != b[i] {
            return false;
        }
        i += 1;
    }
    assert(*a =~= *b);
    true
}

/// Whether two 20-byte strings are the same.
pub fn bytes20_eq(a: &[u8; 20], b: &[u8; 20]) -> (same: bool)
    ensures
        same == (*a == *b),
{
    let mut i: usize = 0;
    while i < 20
        invariant
            i <= 20,
            forall|k: int| 0 <= k < i ==> a[k] == b[k],
        decreases 20 - i,
    {
        if a[i] != b[i] {
            return false;
        }
        i += 1;
    }
    assert(*a =~= *b);
    true
}

/// Reads a 32-byte big-endian number that fits 64 bits.
pub fn word_to_u64(word: &[u8; 32]) -> (r: Option<u64>)
    ensures
        match r {
            Some(v) => be_value(word@) == v,
            None => be_value(word@) > u64::MAX,
        },
{
    let mut acc: u64 = 0;
    let mut i: usize = 0;
    while i < 32
        invariant
            i <= 32,
            acc == be_value(word@.take(i as int)),
        decreases 32 - i,
    {
        let b: u8 = word[i];
        proof {
            assert(word@.take(i + 1).drop_last() == word@.take(i as int));
            assert(word@.take(i + 1).last() == b);
        }
        if acc > (u64::MAX - (b as u64)) / 256 {
            proof {
                lemma_be_value_grows(word@, i + 1, 32);
                assert(word@.take(32) == word@);
            }
            return None;
        }
        acc = acc * 256 + (b as u64);
        i += 1;
    }
    assert(word@.take(32) == word@);
    Some(acc)
}

/// The array of the 32 bytes `bytes`. What it holds is known where an array
/// of these bytes is at hand, as `lemma_bytes32` says.
pub open spec fn bytes32(bytes: Seq<u8>) -> [u8; 32] {
    choose|array: [u8; 32]| array@ == bytes
}

/// An array is the array of its bytes.
pub proof fn lemma_bytes32(array: [u8; 32])
    ensures
        bytes32(array@) == array,
{
    assert(bytes32(array@) =~= array);
}

/// The 32 bytes of `data` that start at `offset`.
pub(crate) fn read_bytes32(data: &[u8], offset: usize) -> (out: [u8; 32])
    requires
        offset + 32 <= data.len(),
    ensures
        out@ == data@.subrange(offset as int, offset + 32),
        out == bytes32(data@.subrange(offset as int, offset + 32)),
{
    let mut out: [u8; 32] = [0u8; 32];
    let mut i: usize = 0;
    while i < 32
        invariant
            i <= 32,
            offset + 32 <= data.len(),
            forall|k: int| 0 <= k < i ==> out[k] == data[offset + k],
        decreases 32 - i,
    {
        out[i] = data[offset + i];
        i += 1;
    }
    assert(out@ =~= data@.subrange(offset as int, offset + 32));
    assert(out =~= bytes32(data@.subrange(offset as int, offset + 32)));
    out
}

/// The `len` bytes of `data` that start at `offset`.
pub(crate) fn read_bytes(data: &[u8], offset: usize, len: usize) -> (out: Vec<u8>)
    requires
        offset + len <= data.len(),
    ensures
        out@ == data@.subrange(offset as int, offset + len),
{
    let mut out: Vec<u8> = Vec::new();
    let mut i: usize = 0;
    while i < len
        invariant
            i <= len,
            offset + len <= data.len(),
            out@ == data@.subrange(offset as int, offset + i),
        decreases len - i,
    {
        out.push(data[offset + i]);
        i += 1;
        assert(out@ =~= data@.subrange(offset as int, offset + i));
    }
    out
}

/// A string of zeros spells zero.
proof fn lemma_zeros_spell_zero(bytes: Seq<u8>, n: int)
    requires
        0 <= n <= bytes.len(),
        forall|i: int| 0 <= i < n ==> bytes[i] == 0,
    ensures
        be_value(bytes.take(n)) == 0,
    decreases n,
{
    if n > 0 {
        lemma_zeros_spell_zero(bytes, n - 1);
        assert(bytes.take(n).drop_last() == bytes.take(n - 1));
    }
}

/// Writes a number as a 32-byte big-endian word.
pub fn u64_to_word(n: u64) -> (word: [u8; 32])
    ensures
        be_value(word@) == n,
{
    let b0: u8 = (n / 0x0100_0000_0000_0000) as u8;
    let r0: u64 = n % 0x0100_0000_0000_0000;
    let b1: u8 = (r0 / 0x0001_0000_0000_0000) as u8;
    let r1: u64 = r0 % 0x0001_0000_0000_0000;
    let b2: u8 = (r1 / 0x0000_0100_0000_0000) as u8;
    let r2: u64 = r1 % 0x0000_0100_0000_0000;
    let b3: u8 = (r2 / 0x0000_0001_0000_0000) as u8;
    let r3: u64 = r2 % 0x0000_0001_0000_0000;
    let b4: u8 = (r3 / 0x0000_0000_0100_0000) as u8;
    let r4: u64 = r3 % 0x0000_0000_0100_0000;
    let b5: u8 = (r4 / 0x0000_0000_0001_0000) as u8;
    let r5: u64 = r4 % 0x0000_0000_0001_0000;
    let b6: u8 = (r5 / 0x0000_0000_0000_0100) as u8;
    let b7: u8 = (r5 % 0x0000_0000_0000_0100) as u8;
    let mut word: [u8; 32] = [0u8; 32];
    word[24] = b0;
    word[25] = b1;
    word[26] = b2;
    word[27] = b3;
    word[28] = b4;
    word[29] = b5;
    word[30] = b6;
    word[31] = b7;
    proof {
        let w = word@;
        lemma_zeros_spell_zero(w, 24);
        assert(w.take(25).drop_last() == w.take(24));
        assert(w.take(26).drop_last() == w.take(25));
        assert(w.take(27).drop_last() == w.take(26));
        assert(w.take(28).drop_last() == w.take(27));
        assert(w.take(29).drop_last() == w.take(28));
        assert(w.take(30).drop_last() == w.take(29));
        assert(w.take(31).drop_last() == w.take(30));
        assert(w.take(32).drop_last() == w.take(31));
        assert(w.take(32) == w);
        assert(be_value(w.take(25)) == b0);
        assert(be_value(w.take(26)) == b0 * 0x100 + b1);
        assert(be_value(w.take(27)) == b0 * 0x1_0000 + b1 * 0x100 + b2);
        assert(be_value(w.take(28)) == b0 * 0x100_0000 + b1 * 0x1_0000 + b2 * 0x100 + b3);
        assert(be_value(w.take(29)) == b0 * 0x1_0000_0000 + b1 * 0x100_0000 + b2 * 0x1_0000 + b3
            * 0x100 + b4);
        assert(be_value(w.take(30)) == b0 * 0x100_0000_0000 + b1 * 0x1_0000_0000 + b2
            * 0x100_0000 + b3 * 0x1_0000 + b4 * 0x100 + b5);
        assert(be_value(w.take(31)) == b0 * 0x1_0000_0000_0000 + b1 * 0x100_0000_0000 + b2
            * 0x1_0000_0000 + b3 * 0x100_0000 + b4 * 0x1_0000 + b5 * 0x100 + b6);
    }
    word
}

} // verus!
