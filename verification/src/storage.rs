//! An in-memory model of the word store the engine runs against.
//!
//! The store maps 32-byte keys to 32-byte words; reading a key that was
//! never written yields the all-zero word, and a write replaces the whole
//! word (last write wins). Every operation of the engine takes the store
//! it acts on as an explicit argument.

use vstd::prelude::*;

verus! {

/// The all-zero word: what a never-written key reads as.
pub open spec fn zero_word() -> Seq<u8> {
    Seq::new(32, |i: int| 0u8)
}

/// The word that a journal of writes assigns to key `k`:
/// the value of the latest write to `k`, or the zero word if none.
pub open spec fn journal_word(entries: Seq<([u8; 32], [u8; 32])>, k: Seq<u8>) -> Seq<u8>
    decreases entries.len(),
{
    if entries.len() == 0 {
        zero_word()
    } else if entries.last().0@ == k {
        entries.last().1@
    } else {
        journal_word(entries.drop_last(), k)
    }
}

proof fn lemma_journal_word_len(entries: Seq<([u8; 32], [u8; 32])>, k: Seq<u8>)
    ensures
        journal_word(entries, k).len() == 32,
    decreases entries.len(),
{
    if entries.len() > 0 && entries.last().0@ != k {
        lemma_journal_word_len(entries.drop_last(), k);
    }
}

/// A key/value store of 32-byte words under 32-byte keys.
///
/// Kept as a journal of writes; its observable state is the total
/// function `word_at`, which is all-zero for keys never written.
pub struct Storage {
    entries: Vec<([u8; 32], [u8; 32])>,
}

impl Storage {
    /// The word currently stored under key `k`.
    pub closed spec fn word_at(self, k: Seq<u8>) -> Seq<u8> {
        journal_word(self.entries@, k)
    }

    /// Every stored word is exactly 32 bytes.
    pub proof fn lemma_word_len(self, k: Seq<u8>)
        ensures
            self.word_at(k).len() == 32,
    {
        lemma_journal_word_len(self.entries@, k);
    }

    /// A fresh store: every key reads as the zero word.
    pub fn new() -> (s: Storage)
        ensures
            forall|k: Seq<u8>| s.word_at(k) == zero_word(),
    {
        Storage { entries: Vec::new() }
    }

    /// Store `value` under `key`, replacing whatever was there.
    pub fn write(&mut self, key: &[u8; 32], value: &[u8; 32])
        ensures
            final(self).word_at(key@) == value@,
            forall|k: Seq<u8>| k != key@ ==> final(self).word_at(k) == old(self).word_at(k),
    {
        self.entries.push((*key, *value));
        proof {
            assert(self.entries@.drop_last() =~= old(self).entries@);
        }
    }

    /// The word stored under `key`; all zeros if `key` was never written.
    pub fn read(&self, key: &[u8; 32]) -> (w: [u8; 32])
        ensures
            w@ == self.word_at(key@),
    {
        let n: usize = self.entries.len();
        let mut i: usize = n;
        proof {
            assert(self.entries@.take(n as int) =~= self.entries@);
        }
        while i > 0
            invariant
                i <= n,
                n == self.entries@.len(),
                journal_word(self.entries@, key@) == journal_word(
                    self.entries@.take(i as int),
                    key@,
                ),
            decreases i,
        {
            i = i - 1;
            let entry = &self.entries[i];
            proof {
                let pre = self.entries@.take(i + 1);
                assert(pre.last() == self.entries@[i as int]);
                assert(pre.drop_last() =~= self.entries@.take(i as int));
            }
            if bytes32_eq(&entry.0, key) {
                return entry.1;
            }
        }
        proof {
            assert(self.entries@.take(0) =~= Seq::<([u8; 32], [u8; 32])>::empty());
        }
        let zero: [u8; 32] = [0u8; 32];
        proof {
            assert(zero@ =~= zero_word());
        }
        zero
    }
}

/// Whether two 32-byte buffers hold the same bytes.
fn bytes32_eq(a: &[u8; 32], b: &[u8; 32]) -> (r: bool)
    ensures
        r == (a@ == b@),
{
    let mut i: usize = 0;
    while i < 32
        invariant
            i <= 32,
            forall|j: int| 0 <= j < i ==> a@[j] == b@[j],
        decreases 32 - i,
    {
        if a[i] != b[i] {
            return false;
        }
        i = i + 1;
    }
    proof {
        assert(a@ =~= b@);
    }
    true
}

} // verus!
