//! Hierarchical key derivation.
//!
//! A `SubAddress` is a 32-byte key plus a count of leading bytes already
//! claimed by the ancestor chain. A child is derived from a parent and a
//! 32-bit index by keeping the claimed prefix, writing the little-endian
//! bytes of `index + 1` into the next four bytes, and zero-filling the
//! rest. Encoding `index + 1` rather than `index` keeps the component
//! field of every derived key nonzero, so a key derived at one depth can
//! never collide with a key derived at a deeper one.

use crate::codec::{
    le_bytes, lemma_le_bytes_len, lemma_le_round_trip, lemma_le_val_zero, lemma_pow256_values,
    le_encode,
};
use vstd::prelude::*;

verus! {

/// The four little-endian bytes of the component `c` written into a
/// derived key.
pub open spec fn component_bytes(c: u32) -> Seq<u8> {
    le_bytes(c as int, 4)
}

/// The key of the child derived from a parent key whose first `offset`
/// bytes are claimed, for derivation index `index`: the claimed prefix,
/// then the component bytes of `index + 1`, then zeros.
pub open spec fn derive_key(parent: Seq<u8>, offset: int, index: u32) -> Seq<u8> {
    Seq::new(
        32,
        |i: int|
            if i < offset {
                parent[i]
            } else if i < offset + 4 {
                component_bytes((index + 1) as u32)[i - offset]
            } else {
                0u8
            },
    )
}

/// Equal component bytes come only from equal components.
pub proof fn lemma_component_bytes_injective(c1: u32, c2: u32)
    requires
        component_bytes(c1) == component_bytes(c2),
    ensures
        c1 == c2,
{
    lemma_pow256_values();
    lemma_le_round_trip(c1 as int, 4);
    lemma_le_round_trip(c2 as int, 4);
}

/// A nonzero component has at least one nonzero byte.
pub proof fn lemma_component_bytes_nonzero(c: u32)
    requires
        c != 0,
    ensures
        !(forall|k: int| 0 <= k < 4 ==> component_bytes(c)[k] == 0),
{
    lemma_le_bytes_len(c as int, 4);
    if forall|k: int| 0 <= k < 4 ==> component_bytes(c)[k] == 0 {
        lemma_le_val_zero(component_bytes(c));
        lemma_pow256_values();
        lemma_le_round_trip(c as int, 4);
    }
}

/// Children of one parent with different indices get different keys.
pub proof fn lemma_derive_injective(parent: Seq<u8>, offset: int, i: u32, j: u32)
    requires
        0 <= offset,
        offset + 4 <= 32,
        i < u32::MAX,
        j < u32::MAX,
        i != j,
    ensures
        derive_key(parent, offset, i) != derive_key(parent, offset, j),
{
    if derive_key(parent, offset, i) == derive_key(parent, offset, j) {
        lemma_le_bytes_len((i + 1) as int, 4);
        lemma_le_bytes_len((j + 1) as int, 4);
        assert forall|k: int| 0 <= k < 4 implies #[trigger] component_bytes((i + 1) as u32)[k]
            == component_bytes((j + 1) as u32)[k] by {
            assert(derive_key(parent, offset, i)[offset + k] == derive_key(
                parent,
                offset,
                j,
            )[offset + k]);
        }
        assert(component_bytes((i + 1) as u32) =~= component_bytes((j + 1) as u32));
        lemma_component_bytes_injective((i + 1) as u32, (j + 1) as u32);
    }
}

/// Keys derived at different depths never alias, whatever the parents
/// and indices: the shallower key is zero where the deeper key carries
/// its nonzero component.
pub proof fn lemma_no_alias_across_depths(
    p1: Seq<u8>,
    o1: int,
    i1: u32,
    p2: Seq<u8>,
    o2: int,
    i2: u32,
)
    requires
        0 <= o1,
        o1 + 4 <= o2,
        o2 + 4 <= 32,
        i1 < u32::MAX,
        i2 < u32::MAX,
    ensures
        derive_key(p1, o1, i1) != derive_key(p2, o2, i2),
{
    let k1 = derive_key(p1, o1, i1);
    let k2 = derive_key(p2, o2, i2);
    if k1 == k2 {
        assert forall|k: int| 0 <= k < 4 implies #[trigger] component_bytes((i2 + 1) as u32)[k]
            == 0 by {
            assert(k1[o2 + k] == 0);
            assert(k2[o2 + k] == component_bytes((i2 + 1) as u32)[k]);
        }
        lemma_component_bytes_nonzero((i2 + 1) as u32);
    }
}

/// A child keeps its parent's claimed prefix: parents that differ
/// somewhere in the claimed bytes give children that differ there too,
/// whatever the indices. With `lemma_derive_injective` and
/// `lemma_no_alias_across_depths` this pins down that two different
/// derivation paths from one root never produce the same key.
pub proof fn lemma_derive_keeps_prefix(p1: Seq<u8>, o: int, i1: u32, p2: Seq<u8>, i2: u32)
    requires
        0 <= o,
        o + 4 <= 32,
        p1.take(o) != p2.take(o),
        p1.len() >= o,
        p2.len() >= o,
    ensures
        derive_key(p1, o, i1) != derive_key(p2, o, i2),
{
    if derive_key(p1, o, i1) == derive_key(p2, o, i2) {
        assert forall|q: int| 0 <= q < o implies p1.take(o)[q] == p2.take(o)[q] by {
            assert(derive_key(p1, o, i1)[q] == derive_key(p2, o, i2)[q]);
        }
        assert(p1.take(o) =~= p2.take(o));
    }
}

/// The `N`-byte array holding the first `n` bytes of `s`, zeros after.
pub open spec fn array_of_seq_rec<const N: usize>(s: Seq<u8>, n: int) -> [u8; N]
    decreases n,
{
    if n <= 0 {
        vstd::array::spec_array_fill_for_copy_type(0u8)
    } else {
        vstd::array::spec_array_update(array_of_seq_rec::<N>(s, n - 1), n - 1, s[n - 1])
    }
}

/// The `N`-byte array with the same bytes as the first `N` of `s`.
pub open spec fn array_of_seq<const N: usize>(s: Seq<u8>) -> [u8; N] {
    array_of_seq_rec::<N>(s, N as int)
}

pub proof fn lemma_array_of_seq_rec<const N: usize>(s: Seq<u8>, n: int)
    requires
        0 <= n <= N,
        s.len() >= n,
    ensures
        forall|i: int| 0 <= i < n ==> array_of_seq_rec::<N>(s, n)@[i] == s[i],
        forall|i: int| n <= i < N ==> array_of_seq_rec::<N>(s, n)@[i] == 0,
    decreases n,
{
    broadcast use vstd::array::group_array_axioms;

    if n > 0 {
        lemma_array_of_seq_rec::<N>(s, n - 1);
        assert(array_of_seq_rec::<N>(s, n)@ == array_of_seq_rec::<N>(s, n - 1)@.update(
            n - 1,
            s[n - 1],
        ));
    } else {
        let fill = vstd::array::spec_array_fill_for_copy_type::<u8, N>(0u8);
        assert(array_of_seq_rec::<N>(s, n) == fill);
        assert(forall|i: int| 0 <= i < N ==> fill@[i] == 0);
    }
}

/// `array_of_seq` reproduces exactly the first `N` bytes of `s`.
pub proof fn lemma_array_of_seq<const N: usize>(s: Seq<u8>)
    requires
        s.len() >= N,
    ensures
        array_of_seq::<N>(s)@ == s.take(N as int),
{
    broadcast use vstd::array::group_array_axioms;

    lemma_array_of_seq_rec::<N>(s, N as int);
    assert(array_of_seq::<N>(s)@ =~= s.take(N as int));
}

/// The 32-byte array with the same bytes as a 32-byte sequence.
pub open spec fn array32_of(s: Seq<u8>) -> [u8; 32] {
    array_of_seq::<32>(s)
}

/// `array32_of` reproduces exactly the bytes of a 32-byte sequence.
pub proof fn lemma_array32_of(s: Seq<u8>)
    requires
        s.len() == 32,
    ensures
        array32_of(s)@ == s,
{
    lemma_array_of_seq::<32>(s);
    assert(s.take(32) =~= s);
}

/// A derived key plus the count of claimed leading bytes.
///
/// The first `offset` bytes of `address` are claimed by the ancestor
/// chain; deriving a child claims four more.
#[derive(Clone, Copy)]
pub struct SubAddress {
    address: [u8; 32],
    offset: usize,
}

/// Whether `k` is a key addressed through `a`: the key of some child
/// derived from `a`.
pub open spec fn in_region(a: SubAddress, k: Seq<u8>) -> bool {
    exists|w: u32| w < u32::MAX && k == derive_key(a.key(), a.spec_offset(), w)
}

impl SubAddress {
    /// The key this address stands for.
    pub closed spec fn key(self) -> Seq<u8> {
        self.address@
    }

    /// How many leading bytes of the key are claimed.
    pub closed spec fn spec_offset(self) -> int {
        self.offset as int
    }

    /// Every address carries a 32-byte key and a nonnegative count.
    pub proof fn lemma_shape(self)
        ensures
            self.key().len() == 32,
            0 <= self.spec_offset(),
    {
        broadcast use vstd::array::group_array_axioms;

    }

    /// The address made of a 32-byte key and a claimed-byte count.
    pub closed spec fn spec_make(key: Seq<u8>, offset: int) -> SubAddress {
        SubAddress { address: array32_of(key), offset: offset as usize }
    }

    /// What `spec_make` builds, stated over the observers.
    pub proof fn lemma_spec_make(key: Seq<u8>, offset: int)
        requires
            key.len() == 32,
            0 <= offset <= 32,
        ensures
            Self::spec_make(key, offset).key() == key,
            Self::spec_make(key, offset).spec_offset() == offset,
    {
        lemma_array32_of(key);
    }

    /// An address is exactly what its key and offset make.
    pub proof fn lemma_make_eta(a: SubAddress)
        ensures
            Self::spec_make(a.key(), a.spec_offset()) == a,
    {
        broadcast use vstd::array::group_array_axioms;

        lemma_array32_of(a.key());
        assert(array32_of(a.key()) =~= a.address);
    }

    /// An address exactly as stored: key bytes plus claimed-byte count,
    /// with no bound asked of the count. Decoding stored addresses needs
    /// this; fresh anchors come from `new`.
    pub(crate) fn from_raw(address: [u8; 32], offset: usize) -> (r: SubAddress)
        ensures
            r.key() == address@,
            r.spec_offset() == offset,
    {
        SubAddress { address, offset }
    }

    /// An address anchored at `address` with `offset` claimed bytes.
    pub fn new(address: [u8; 32], offset: usize) -> (r: SubAddress)
        requires
            offset < 32,
        ensures
            r.key() == address@,
            r.spec_offset() == offset,
    {
        SubAddress { address, offset }
    }

    /// The key, as 32 raw bytes.
    pub fn address(&self) -> (r: [u8; 32])
        ensures
            r@ == self.key(),
    {
        self.address
    }

    /// The count of claimed leading bytes.
    pub fn offset(&self) -> (r: usize)
        ensures
            r == self.spec_offset(),
    {
        self.offset
    }

    /// The child address for derivation index `index`.
    pub fn get_sub_address(&self, index: u32) -> (r: SubAddress)
        requires
            self.spec_offset() + 4 <= 32,
            index < u32::MAX,
        ensures
            r.key() == derive_key(self.key(), self.spec_offset(), index),
            r.spec_offset() == self.spec_offset() + 4,
    {
        let c: u32 = index + 1;
        let enc: Vec<u8> = le_encode(c as u64, 4);
        proof {
            lemma_le_bytes_len(c as int, 4);
        }

        let mut address: [u8; 32] = [0u8; 32];
        let mut i: usize = 0;
        while i < self.offset
            invariant
                i <= self.offset,
                self.offset + 4 <= 32,
                forall|j: int| 0 <= j < i ==> address@[j] == self.address@[j],
                forall|j: int| i <= j < 32 ==> address@[j] == 0,
            decreases self.offset - i,
        {
            address[i] = self.address[i];
            i = i + 1;
        }
        address[self.offset] = enc[0];
        address[self.offset + 1] = enc[1];
        address[self.offset + 2] = enc[2];
        address[self.offset + 3] = enc[3];

        proof {
            assert(address@ =~= derive_key(self.key(), self.spec_offset(), index));
        }
        SubAddress { address, offset: self.offset + 4 }
    }

    /// The child address for `index`, or `None` when the key budget is
    /// exhausted: an address whose claimed prefix leaves no room for one
    /// more four-byte component cannot derive a child.
    pub fn try_get_sub_address(&self, index: u32) -> (r: Option<SubAddress>)
        requires
            index < u32::MAX,
        ensures
            r is Some <==> self.spec_offset() + 4 <= 32,
            r matches Some(a) ==> a.key() == derive_key(self.key(), self.spec_offset(), index)
                && a.spec_offset() == self.spec_offset() + 4,
    {
        if self.offset <= 28 {
            Some(self.get_sub_address(index))
        } else {
            None
        }
    }
}

} // verus!
