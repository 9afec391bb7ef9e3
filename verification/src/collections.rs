//! The append-only sequence over the word store.
//!
//! An `Array<T>` is a stateless descriptor: a base address plus the
//! codec of its element type. Everything it holds lives in the store:
//! the element count in the word derived with index 0, and the words of
//! element `i` in the words derived with indices
//! `buckets * i + 1 .. buckets * i + 1 + buckets`, where `buckets` is
//! the element's byte length rounded up to whole 32-byte words. An
//! element wider than one word is split into 32-byte chunks, the last
//! chunk zero-padded on the right.

use crate::codec::{
    le_bytes, le_val, le_decode, le_encode, lemma_le_bytes_len, lemma_le_round_trip,
    lemma_le_val_bound, lemma_pow256_values,
};
use crate::storage::Storage;
use crate::utils::{
    derive_key, in_region, lemma_derive_injective, lemma_no_alias_across_depths, SubAddress,
};
use vstd::arithmetic::div_mod::{lemma_fundamental_div_mod, lemma_fundamental_div_mod_converse};
use vstd::prelude::*;

verus! {

/// A fixed-width byte codec: the capability an element type needs to be
/// stored in an `Array`.
///
/// Encodings have one statically known length, decoding reads exactly
/// that many leading bytes, and on well-formed values decoding inverts
/// encoding.
pub trait Serialize: Copy + Sized {
    /// The fixed length, in bytes, of every encoding.
    spec fn spec_byte_len() -> usize;

    /// The values the codec is faithful on.
    spec fn codec_wf(self) -> bool;

    /// The canonical byte encoding of a value.
    spec fn enc(self) -> Seq<u8>;

    /// The value the first `spec_byte_len()` bytes of `b` decode to.
    spec fn dec(b: Seq<u8>) -> Self;

    /// The byte length is positive, and small enough that word counts
    /// stay far below the 32-bit derivation-index space.
    proof fn lemma_byte_len()
        ensures
            1 <= Self::spec_byte_len() <= 1024,
    ;

    /// An encoding has exactly the declared length.
    proof fn lemma_enc_len(self)
        requires
            self.codec_wf(),
        ensures
            self.enc().len() == Self::spec_byte_len(),
    ;

    /// Decoding inverts encoding.
    proof fn lemma_round_trip(self)
        requires
            self.codec_wf(),
        ensures
            Self::dec(self.enc()) == self,
    ;

    /// Decoding reads only the first `spec_byte_len()` bytes.
    proof fn lemma_dec_prefix(b1: Seq<u8>, b2: Seq<u8>)
        requires
            b1.len() >= Self::spec_byte_len(),
            b2.len() >= Self::spec_byte_len(),
            b1.take(Self::spec_byte_len() as int) == b2.take(Self::spec_byte_len() as int),
        ensures
            Self::dec(b1) == Self::dec(b2),
    ;

    /// The fixed encoding length, as executable code.
    fn byte_len() -> (n: usize)
        ensures
            n == Self::spec_byte_len(),
    ;

    /// Decode a value from the first `spec_byte_len()` bytes of `bytes`.
    fn from_bytes(bytes: &[u8]) -> (r: Self)
        requires
            bytes@.len() >= Self::spec_byte_len(),
        ensures
            r == Self::dec(bytes@),
    ;

    /// Encode a value into its canonical bytes.
    fn to_bytes(&self) -> (r: Vec<u8>)
        requires
            self.codec_wf(),
        ensures
            r@ == self.enc(),
    ;
}

impl Serialize for u32 {
    open spec fn spec_byte_len() -> usize {
        4
    }

    open spec fn codec_wf(self) -> bool {
        true
    }

    open spec fn enc(self) -> Seq<u8> {
        le_bytes(self as int, 4)
    }

    open spec fn dec(b: Seq<u8>) -> u32 {
        le_val(b.take(4)) as u32
    }

    proof fn lemma_byte_len() {
    }

    proof fn lemma_enc_len(self) {
        lemma_le_bytes_len(self as int, 4);
    }

    proof fn lemma_round_trip(self) {
        lemma_le_bytes_len(self as int, 4);
        assert(self.enc().take(4) =~= self.enc());
        lemma_pow256_values();
        lemma_le_round_trip(self as int, 4);
    }

    proof fn lemma_dec_prefix(b1: Seq<u8>, b2: Seq<u8>) {
    }

    fn byte_len() -> usize {
        4
    }

    fn from_bytes(bytes: &[u8]) -> (r: u32) {
        let v: u64 = le_decode(bytes, 0, 4);
        proof {
            assert(bytes@.subrange(0, 4) =~= bytes@.take(4));
            lemma_le_val_bound(bytes@.take(4));
            lemma_pow256_values();
        }
        v as u32
    }

    fn to_bytes(&self) -> (r: Vec<u8>) {
        le_encode(*self as u64, 4)
    }
}

/// An append-only, index-addressable sequence of `T` living in the
/// store region derived from one base address.
pub struct Array<T: Serialize> {
    pub address: SubAddress,
    pub marker: core::marker::PhantomData<T>,
}

impl<T: Serialize> Clone for Array<T> {
    fn clone(&self) -> (r: Self)
        ensures
            r == *self,
    {
        Array { address: self.address, marker: core::marker::PhantomData }
    }
}

impl<T: Serialize> Copy for Array<T> {

}

impl<T: Serialize> Array<T> {
    /// How many whole 32-byte words one element occupies.
    pub open spec fn spec_buckets() -> int {
        (T::spec_byte_len() + 31) / 32
    }

    /// The base address can derive children.
    pub open spec fn usable(self) -> bool {
        0 <= self.address.spec_offset() && self.address.spec_offset() + 4 <= 32
    }

    /// The key of word `w` of this sequence's region.
    pub open spec fn word_key(self, w: int) -> Seq<u8> {
        derive_key(self.address.key(), self.address.spec_offset(), w as u32)
    }

    /// The key of the reserved length slot: word 0.
    pub open spec fn len_key(self) -> Seq<u8> {
        self.word_key(0)
    }

    /// The stored element count: the little-endian value of the first
    /// four bytes of the length word. A never-written region reads as
    /// the empty sequence.
    pub open spec fn spec_len(self, s: Storage) -> int {
        le_val(s.word_at(self.len_key()).take(4))
    }

    /// The concatenation of `count` consecutive region words starting
    /// at word `first`.
    pub open spec fn words(self, s: Storage, first: int, count: int) -> Seq<u8>
        decreases count,
    {
        if count <= 0 {
            Seq::empty()
        } else {
            self.words(s, first, count - 1) + s.word_at(self.word_key(first + count - 1))
        }
    }

    /// The stored bytes of element `i`.
    pub open spec fn elem_bytes(self, s: Storage, i: int) -> Seq<u8> {
        self.words(s, Self::spec_buckets() * i + 1, Self::spec_buckets())
    }

    /// The value of element `i`.
    pub open spec fn spec_get(self, s: Storage, i: int) -> T {
        T::dec(self.elem_bytes(s, i))
    }

    /// Everything the sequence holds in `s`, in order.
    pub open spec fn contents(self, s: Storage) -> Seq<T> {
        Seq::new(self.spec_len(s) as nat, |i: int| self.spec_get(s, i))
    }

    /// The words of the first `len` elements, and the length slot, all
    /// have derivation indices below `u32::MAX`.
    pub open spec fn addressable(self, len: int) -> bool {
        Self::spec_buckets() * len < u32::MAX
    }

    /// A sequence descriptor over `address`. Touches no storage: a
    /// region never written reads as the empty sequence.
    pub fn new(address: SubAddress) -> (r: Array<T>)
        ensures
            r.address == address,
    {
        Array { address, marker: core::marker::PhantomData }
    }

    /// The key of the length slot, as raw bytes.
    fn len_address(&self) -> (r: [u8; 32])
        requires
            self.usable(),
        ensures
            r@ == self.len_key(),
    {
        self.address.get_sub_address(0).address()
    }

    /// How many elements the sequence holds in `storage`.
    pub fn len(&self, storage: &Storage) -> (n: u32)
        requires
            self.usable(),
        ensures
            n == self.spec_len(*storage),
            n == self.contents(*storage).len(),
    {
        let key: [u8; 32] = self.len_address();
        let word: [u8; 32] = storage.read(&key);
        proof {
            assert(word@.subrange(0, 4) =~= word@.take(4));
            lemma_le_val_bound(word@.take(4));
            lemma_pow256_values();
        }
        let v: u64 = le_decode(word.as_slice(), 0, 4);
        v as u32
    }

    /// How many whole words one element occupies.
    fn get_size_in_buckets() -> (r: u32)
        ensures
            r == Self::spec_buckets(),
            1 <= r <= 33,
    {
        let size: usize = T::byte_len();
        proof {
            T::lemma_byte_len();
        }
        let buckets: usize = size / 32;
        let result: usize = if buckets * 32 < size {
            buckets + 1
        } else {
            buckets
        };
        proof {
            lemma_fundamental_div_mod(size as int, 32);
            let m = (size as int) % 32;
            if m == 0 {
                lemma_fundamental_div_mod_converse(size + 31, 32, buckets as int, 31);
            } else {
                lemma_fundamental_div_mod_converse(size + 31, 32, buckets + 1, m - 1);
            }
        }
        result as u32
    }

    /// The element at `index`, or `None` when `index` is at or past the
    /// current length.
    pub fn get_item(&self, storage: &Storage, index: u32) -> (r: Option<T>)
        requires
            self.usable(),
            self.addressable(self.spec_len(*storage)),
        ensures
            index < self.spec_len(*storage) ==> r == Some(self.contents(*storage)[index as int]),
            index >= self.spec_len(*storage) ==> r is None,
    {
        let len: u32 = self.len(storage);
        if index >= len {
            return None;
        }
        let buckets: u32 = Self::get_size_in_buckets();
        proof {
            assert((buckets as int) * (index as int) + (buckets as int) <= (buckets as int) * (
            len as int)) by (nonlinear_arith)
                requires
                    1 <= buckets as int,
                    index as int + 1 <= len as int,
            ;
        }
        let actual_index: u32 = buckets * index + 1;
        let ghost first = actual_index as int;

        let mut bytes: Vec<u8> = Vec::new();
        let mut i: u32 = 0;
        while i < buckets
            invariant
                i <= buckets,
                self.usable(),
                buckets == Self::spec_buckets(),
                first == (buckets as int) * (index as int) + 1,
                first + buckets <= u32::MAX,
                actual_index == first,
                bytes@.len() == 32 * i,
                bytes@ == self.words(*storage, first, i as int),
            decreases buckets - i,
        {
            let addr: [u8; 32] = self.address.get_sub_address(actual_index + i).address();
            let chunk: [u8; 32] = storage.read(&addr);
            let ghost prev = bytes@;
            let mut k: usize = 0;
            while k < 32
                invariant
                    k <= 32,
                    bytes@ == prev + chunk@.take(k as int),
                decreases 32 - k,
            {
                let b: u8 = chunk[k];
                bytes.push(b);
                proof {
                    assert(prev + chunk@.take(k + 1) =~= (prev + chunk@.take(k as int)).push(b));
                }
                k = k + 1;
            }
            proof {
                assert(chunk@.take(32) =~= chunk@);
                assert(self.words(*storage, first, i + 1) == self.words(*storage, first, i as int)
                    + storage.word_at(self.word_key(first + i)));
                assert(chunk@ == storage.word_at(self.word_key(first + i)));
            }
            i = i + 1;
        }
        proof {
            T::lemma_byte_len();
            lemma_fundamental_div_mod(T::spec_byte_len() + 31, 32);
            assert(bytes@.len() >= T::spec_byte_len());
            assert(bytes@ == self.elem_bytes(*storage, index as int));
        }
        Some(T::from_bytes(bytes.as_slice()))
    }

    /// Two stores that agree on a word range agree on its concatenation.
    proof fn lemma_words_congruence(self, s1: Storage, s2: Storage, first: int, count: int)
        requires
            forall|w: int|
                first <= w < first + count ==> s1.word_at(#[trigger] self.word_key(w))
                    == s2.word_at(self.word_key(w)),
        ensures
            self.words(s1, first, count) == self.words(s2, first, count),
        decreases count,
    {
        if count > 0 {
            self.lemma_words_congruence(s1, s2, first, count - 1);
        }
    }

    /// A word range holding consecutive 32-byte chunks of `data`
    /// concatenates back to a prefix of `data`.
    proof fn lemma_words_of_chunks(self, s: Storage, first: int, count: int, data: Seq<u8>)
        requires
            0 <= count,
            data.len() >= 32 * count,
            forall|j: int|
                0 <= j < count ==> s.word_at(#[trigger] self.word_key(first + j))
                    == data.subrange(32 * j, 32 * j + 32),
        ensures
            self.words(s, first, count) == data.take(32 * count),
        decreases count,
    {
        if count > 0 {
            self.lemma_words_of_chunks(s, first, count - 1, data);
            assert(s.word_at(self.word_key(first + (count - 1))) == data.subrange(
                32 * (count - 1),
                32 * count,
            ));
            assert(data.take(32 * (count - 1)) + data.subrange(32 * (count - 1), 32 * count)
                =~= data.take(32 * count));
        }
    }

    /// Region keys with different word indices are different keys.
    proof fn lemma_word_keys_distinct(self, w1: int, w2: int)
        requires
            self.usable(),
            0 <= w1 < u32::MAX,
            0 <= w2 < u32::MAX,
            w1 != w2,
        ensures
            self.word_key(w1) != self.word_key(w2),
    {
        lemma_derive_injective(
            self.address.key(),
            self.address.spec_offset(),
            w1 as u32,
            w2 as u32,
        );
    }

    /// Append `value` at the end: write its chunks to the next free
    /// word group, then store the increased length.
    ///
    /// This is the only mutating operation; the sequence only grows,
    /// and nothing outside this sequence's key region is touched.
    pub fn push(&mut self, storage: &mut Storage, value: T)
        requires
            old(self).usable(),
            value.codec_wf(),
            old(self).addressable(old(self).spec_len(*old(storage)) + 1),
        ensures
            *final(self) == *old(self),
            final(self).spec_len(*final(storage)) == old(self).spec_len(*old(storage)) + 1,
            final(self).contents(*final(storage)) == old(self).contents(*old(storage)).push(
                value,
            ),
            forall|k: Seq<u8>|
                final(storage).word_at(k) != old(storage).word_at(k) ==> in_region(
                    old(self).address,
                    k,
                ),
    {
        let ghost old_store = *storage;
        let ghost old_len = old(self).spec_len(*old(storage));
        let len: u32 = self.len(storage);
        let buckets: u32 = Self::get_size_in_buckets();
        proof {
            assert((len as int) + 1 <= (buckets as int) * ((len as int) + 1) && (buckets as int)
                * (len as int) + (buckets as int) == (buckets as int) * ((len as int) + 1))
                by (nonlinear_arith)
                requires
                    1 <= buckets as int,
                    0 <= len as int,
            ;
        }

        // The element's bytes, zero-padded on the right to whole words.
        let mut bytes: Vec<u8> = value.to_bytes();
        proof {
            value.lemma_enc_len();
            T::lemma_byte_len();
            lemma_fundamental_div_mod(T::spec_byte_len() + 31, 32);
            assert(bytes@.take(T::spec_byte_len() as int) =~= value.enc());
        }
        let target: usize = (buckets as usize) * 32;
        while bytes.len() < target
            invariant
                T::spec_byte_len() <= bytes@.len() <= target,
                target == 32 * Self::spec_buckets(),
                bytes@.take(T::spec_byte_len() as int) == value.enc(),
                forall|q: int| T::spec_byte_len() <= q < bytes@.len() ==> bytes@[q] == 0,
            decreases target - bytes@.len(),
        {
            let ghost prev = bytes@;
            bytes.push(0u8);
            proof {
                assert(bytes@.take(T::spec_byte_len() as int) =~= prev.take(
                    T::spec_byte_len() as int,
                ));
            }
        }

        let actual_index: u32 = buckets * len + 1;
        let ghost first = actual_index as int;
        let mut i: u32 = 0;
        while i < buckets
            invariant
                i <= buckets,
                self == old(self),
                self.usable(),
                buckets == Self::spec_buckets(),
                1 <= buckets <= 33,
                first == (buckets as int) * (len as int) + 1,
                first + buckets <= u32::MAX,
                actual_index == first,
                bytes@.len() == 32 * Self::spec_buckets(),
                forall|j: int|
                    0 <= j < i ==> storage.word_at(#[trigger] self.word_key(first + j))
                        == bytes@.subrange(32 * j, 32 * j + 32),
                forall|k: Seq<u8>|
                    storage.word_at(k) != old_store.word_at(k) ==> exists|j: int|
                        0 <= j < i && k == #[trigger] self.word_key(first + j),
            decreases buckets - i,
        {
            let mut word: [u8; 32] = [0u8; 32];
            let mut k: usize = 0;
            proof {
                assert(32 * (i as int) + 32 <= 32 * (buckets as int)) by (nonlinear_arith)
                    requires
                        i as int + 1 <= buckets as int,
                ;
            }
            while k < 32
                invariant
                    k <= 32,
                    i <= 33,
                    32 * (i as int) + 32 <= bytes@.len(),
                    forall|q: int| 0 <= q < k ==> word@[q] == bytes@[32 * (i as int) + q],
                decreases 32 - k,
            {
                word[k] = bytes[(i as usize) * 32 + k];
                k = k + 1;
            }
            let addr: [u8; 32] = self.address.get_sub_address(actual_index + i).address();
            let ghost mid_store = *storage;
            storage.write(&addr, &word);
            proof {
                assert(word@ =~= bytes@.subrange(32 * (i as int), 32 * (i as int) + 32));
                assert(addr@ == self.word_key(first + i));
                assert forall|j: int| 0 <= j < i + 1 implies storage.word_at(
                    #[trigger] self.word_key(first + j),
                ) == bytes@.subrange(32 * j, 32 * j + 32) by {
                    if j < i {
                        self.lemma_word_keys_distinct(first + j, first + i);
                    }
                }
                assert forall|k2: Seq<u8>|
                    storage.word_at(k2) != old_store.word_at(k2) implies exists|j: int|
                    0 <= j < i + 1 && k2 == #[trigger] self.word_key(first + j) by {
                    if k2 == addr@ {
                        assert(0 <= i < i + 1 && k2 == self.word_key(first + i));
                    } else {
                        assert(storage.word_at(k2) == mid_store.word_at(k2));
                    }
                }
            }
            i = i + 1;
        }

        // Store the increased length in the reserved slot.
        let new_len: u32 = len + 1;
        let enc_len: Vec<u8> = le_encode(new_len as u64, 4);
        proof {
            lemma_le_bytes_len(new_len as int, 4);
        }
        let mut lw: [u8; 32] = [0u8; 32];
        lw[0] = enc_len[0];
        lw[1] = enc_len[1];
        lw[2] = enc_len[2];
        lw[3] = enc_len[3];
        let lkey: [u8; 32] = self.len_address();
        let ghost mid_store = *storage;
        storage.write(&lkey, &lw);

        proof {
            let s2 = *storage;
            // The new length is stored and read back exactly.
            assert(lw@.take(4) =~= le_bytes(new_len as int, 4));
            lemma_pow256_values();
            lemma_le_round_trip(new_len as int, 4);
            assert(self.spec_len(s2) == old_len + 1);

            // Every change lies in this sequence's key region.
            assert forall|k: Seq<u8>|
                s2.word_at(k) != old_store.word_at(k) implies in_region(self.address, k) by {
                if k == lkey@ {
                    assert(0u32 < u32::MAX && k == derive_key(
                        self.address.key(),
                        self.address.spec_offset(),
                        0u32,
                    ));
                } else {
                    let j = choose|j: int|
                        0 <= j < buckets && k == #[trigger] self.word_key(first + j);
                    assert(mid_store.word_at(k) != old_store.word_at(k));
                    assert(((first + j) as u32) < u32::MAX && k == derive_key(
                        self.address.key(),
                        self.address.spec_offset(),
                        (first + j) as u32,
                    ));
                }
            }

            // Elements already stored keep their words, hence their values.
            assert forall|i0: int| 0 <= i0 < old_len implies self.spec_get(s2, i0)
                == self.spec_get(old_store, i0) by {
                let b = buckets as int;
                assert(b * i0 + b <= b * (len as int)) by (nonlinear_arith)
                    requires
                        1 <= b,
                        i0 + 1 <= len as int,
                ;
                assert forall|w: int| b * i0 + 1 <= w < b * i0 + 1 + b implies s2.word_at(
                    #[trigger] self.word_key(w),
                ) == old_store.word_at(self.word_key(w)) by {
                    assert(1 <= w <= b * (len as int));
                    self.lemma_word_keys_distinct(w, 0);
                    if s2.word_at(self.word_key(w)) != old_store.word_at(self.word_key(w)) {
                        assert(mid_store.word_at(self.word_key(w)) != old_store.word_at(
                            self.word_key(w),
                        ));
                        let j = choose|j: int|
                            0 <= j < buckets && self.word_key(w) == #[trigger] self.word_key(
                                first + j,
                            );
                        self.lemma_word_keys_distinct(w, first + j);
                    }
                }
                self.lemma_words_congruence(s2, old_store, b * i0 + 1, b);
            }

            // The appended element decodes back to `value`.
            let b = buckets as int;
            assert forall|j: int| 0 <= j < b implies s2.word_at(
                #[trigger] self.word_key(first + j),
            ) == bytes@.subrange(32 * j, 32 * j + 32) by {
                self.lemma_word_keys_distinct(first + j, 0);
            }
            self.lemma_words_of_chunks(s2, first, b, bytes@);
            assert(bytes@.take(32 * b) =~= bytes@);
            assert(self.elem_bytes(s2, len as int) == bytes@);
            T::lemma_dec_prefix(bytes@, value.enc());
            value.lemma_round_trip();
            assert(self.spec_get(s2, len as int) == value);

            assert(self.contents(s2) =~= old(self).contents(old_store).push(value));
        }
    }

    /// A stored length always fits in 32 bits: it is read from four
    /// bytes.
    pub proof fn lemma_len_bound(self, s: Storage)
        ensures
            0 <= self.spec_len(s) < 0x1_0000_0000,
    {
        s.lemma_word_len(self.len_key());
        let b = s.word_at(self.len_key()).take(4);
        lemma_le_val_bound(b);
        lemma_pow256_values();
    }

    /// A cursor over this sequence, starting at the first element.
    pub fn into_iter(&self) -> (it: ArrayIterator<T>)
        ensures
            it.spec_array() == *self,
            it.spec_pos() == 0,
    {
        ArrayIterator { array: *self, index: 0 }
    }
}

/// A forward cursor over an `Array`: hands out elements in index order
/// and stops at the first absent one. The length is read again on
/// every step, not snapshotted; a sequence only grows, so an element
/// once handed out stays in place.
pub struct ArrayIterator<T: Serialize> {
    array: Array<T>,
    index: u32,
}

impl<T: Serialize> ArrayIterator<T> {
    /// The sequence this cursor walks.
    pub closed spec fn spec_array(self) -> Array<T> {
        self.array
    }

    /// The index the next call will read.
    pub closed spec fn spec_pos(self) -> int {
        self.index as int
    }

    /// The element at the cursor, advancing past it; `None` at the end,
    /// leaving the cursor where it is.
    pub fn next(&mut self, storage: &Storage) -> (r: Option<T>)
        requires
            old(self).spec_array().usable(),
            old(self).spec_array().addressable(old(self).spec_array().spec_len(*storage)),
        ensures
            final(self).spec_array() == old(self).spec_array(),
            old(self).spec_pos() < old(self).spec_array().spec_len(*storage) ==> r == Some(
                old(self).spec_array().contents(*storage)[old(self).spec_pos()],
            ) && final(self).spec_pos() == old(self).spec_pos() + 1,
            old(self).spec_pos() >= old(self).spec_array().spec_len(*storage) ==> r is None
                && final(self).spec_pos() == old(self).spec_pos(),
    {
        proof {
            self.array.lemma_len_bound(*storage);
        }
        let result: Option<T> = self.array.get_item(storage, self.index);
        if result.is_some() {
            self.index = self.index + 1;
        }
        result
    }
}

/// Nesting isolation: a store change confined to the region of a
/// deeper address leaves the length and every element of a sequence
/// anchored at a shallower address exactly as they were.
pub proof fn lemma_region_isolation<T: Serialize>(
    outer: Array<T>,
    inner: SubAddress,
    before: Storage,
    after: Storage,
)
    requires
        outer.usable(),
        outer.addressable(outer.spec_len(before)),
        outer.address.spec_offset() + 4 <= inner.spec_offset(),
        inner.spec_offset() + 4 <= 32,
        forall|k: Seq<u8>| after.word_at(k) != before.word_at(k) ==> in_region(inner, k),
    ensures
        outer.spec_len(after) == outer.spec_len(before),
        outer.contents(after) == outer.contents(before),
{
    assert forall|w: int| 0 <= w < u32::MAX implies after.word_at(#[trigger] outer.word_key(w))
        == before.word_at(outer.word_key(w)) by {
        if after.word_at(outer.word_key(w)) != before.word_at(outer.word_key(w)) {
            let w2 = choose|w2: u32|
                w2 < u32::MAX && outer.word_key(w) == derive_key(
                    inner.key(),
                    inner.spec_offset(),
                    w2,
                );
            lemma_no_alias_across_depths(
                outer.address.key(),
                outer.address.spec_offset(),
                w as u32,
                inner.key(),
                inner.spec_offset(),
                w2,
            );
        }
    }
    let len = outer.spec_len(before);
    let b = Array::<T>::spec_buckets();
    proof_buckets_pos::<T>();
    outer.lemma_len_bound(before);
    assert(outer.spec_len(after) == len);
    assert(outer.contents(after).len() == outer.contents(before).len());
    assert forall|i0: int| 0 <= i0 < len implies #[trigger] outer.spec_get(after, i0)
        == outer.spec_get(before, i0) by {
        assert(b * i0 + b <= b * len) by (nonlinear_arith)
            requires
                1 <= b,
                i0 + 1 <= len,
        ;
        assert forall|w: int| b * i0 + 1 <= w < b * i0 + 1 + b implies after.word_at(
            #[trigger] outer.word_key(w),
        ) == before.word_at(outer.word_key(w)) by {
            assert(0 <= w < u32::MAX);
        }
        outer.lemma_words_congruence(after, before, b * i0 + 1, b);
    }
    assert forall|i0: int| 0 <= i0 < len implies outer.contents(after)[i0] == outer.contents(
        before,
    )[i0] by {
        assert(outer.contents(after)[i0] == outer.spec_get(after, i0));
        assert(outer.contents(before)[i0] == outer.spec_get(before, i0));
    }
    assert(outer.contents(after) =~= outer.contents(before));
}

impl<T: Serialize> Serialize for Array<T> {
    open spec fn spec_byte_len() -> usize {
        33
    }

    open spec fn codec_wf(self) -> bool {
        0 <= self.address.spec_offset() <= 32
    }

    open spec fn enc(self) -> Seq<u8> {
        self.address.key() + seq![self.address.spec_offset() as u8]
    }

    open spec fn dec(b: Seq<u8>) -> Array<T> {
        Array {
            address: SubAddress::spec_make(b.take(32), b[32] as int),
            marker: core::marker::PhantomData,
        }
    }

    proof fn lemma_byte_len() {
    }

    proof fn lemma_enc_len(self) {
        self.address.lemma_shape();
    }

    proof fn lemma_round_trip(self) {
        self.address.lemma_shape();
        let b = self.enc();
        assert(b.take(32) =~= self.address.key());
        assert(b[32] == self.address.spec_offset() as u8);
        SubAddress::lemma_make_eta(self.address);
    }

    proof fn lemma_dec_prefix(b1: Seq<u8>, b2: Seq<u8>) {
        assert(b1.take(32) =~= b2.take(32));
        assert(b1[32] == b1.take(33)[32] && b2[32] == b2.take(33)[32]);
    }

    fn byte_len() -> usize {
        33
    }

    fn from_bytes(bytes: &[u8]) -> (r: Self) {
        let mut key: [u8; 32] = [0u8; 32];
        let mut i: usize = 0;
        while i < 32
            invariant
                i <= 32,
                bytes@.len() >= 33,
                forall|j: int| 0 <= j < i ==> key@[j] == bytes@[j],
            decreases 32 - i,
        {
            key[i] = bytes[i];
            i = i + 1;
        }
        let off: u8 = bytes[32];
        let address = SubAddress::from_raw(key, off as usize);
        proof {
            assert(key@ =~= bytes@.take(32));
            SubAddress::lemma_make_eta(address);
        }
        Array { address, marker: core::marker::PhantomData }
    }

    fn to_bytes(&self) -> (r: Vec<u8>) {
        let key: [u8; 32] = self.address.address();
        let mut r: Vec<u8> = Vec::new();
        let mut i: usize = 0;
        while i < 32
            invariant
                i <= 32,
                r@.len() == i,
                forall|j: int| 0 <= j < i ==> r@[j] == key@[j],
            decreases 32 - i,
        {
            let b: u8 = key[i];
            r.push(b);
            i = i + 1;
        }
        let off: u8 = self.address.offset() as u8;
        r.push(off);
        proof {
            self.address.lemma_shape();
            assert(r@ =~= self.enc());
        }
        r
    }
}

/// What one `push` of `v` leaves behind, seen from outside: the store
/// change its contract describes.
pub open spec fn push_step<T: Serialize>(a: Array<T>, before: Storage, v: T, after: Storage) -> bool {
    a.spec_len(after) == a.spec_len(before) + 1 && a.contents(after) == a.contents(before).push(v)
}

/// Whether `after` results from pushing the values of `vs`, in order,
/// onto what `before` holds.
pub open spec fn pushes_applied<T: Serialize>(
    a: Array<T>,
    before: Storage,
    vs: Seq<T>,
    after: Storage,
) -> bool
    decreases vs.len(),
{
    if vs.len() == 0 {
        after == before
    } else {
        exists|mid: Storage|
            pushes_applied(a, before, vs.drop_last(), mid) && #[trigger] push_step(
                a,
                mid,
                vs.last(),
                after,
            )
    }
}

/// Length and index correctness over whole runs: `n` pushes grow the
/// length by exactly `n` — it never decreases — and leave the old
/// elements where they were, with the pushed values after them in push
/// order. On a fresh sequence the element at `i` is therefore exactly
/// the `i`-th value pushed.
pub proof fn lemma_pushes_append<T: Serialize>(
    a: Array<T>,
    before: Storage,
    vs: Seq<T>,
    after: Storage,
)
    requires
        pushes_applied(a, before, vs, after),
    ensures
        a.spec_len(after) == a.spec_len(before) + vs.len(),
        a.contents(after) == a.contents(before) + vs,
    decreases vs.len(),
{
    if vs.len() == 0 {
        assert(a.contents(before) + vs =~= a.contents(before));
    } else {
        let mid = choose|mid: Storage|
            pushes_applied(a, before, vs.drop_last(), mid) && #[trigger] push_step(
                a,
                mid,
                vs.last(),
                after,
            );
        lemma_pushes_append(a, before, vs.drop_last(), mid);
        assert(a.contents(mid).push(vs.last()) =~= a.contents(before) + vs);
    }
}

/// One element occupies at least one word.
proof fn proof_buckets_pos<T: Serialize>()
    ensures
        1 <= Array::<T>::spec_buckets() <= 33,
{
    T::lemma_byte_len();
    lemma_fundamental_div_mod(T::spec_byte_len() + 31, 32);
}

} // verus!
