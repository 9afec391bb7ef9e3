//! A 256-bit unsigned integer held as 32 little-endian bytes.
//!
//! One value fills exactly one storage word, so a sequence of these
//! has one word per element.

use crate::codec::{
    le_bytes, le_decode, le_encode, le_val, lemma_le_bytes_len, lemma_le_val_bound,
    lemma_pow256_values,
};
use crate::collections::Serialize;
use crate::utils::{array32_of, lemma_array32_of};
use vstd::prelude::*;

verus! {

/// A 256-bit unsigned integer: 32 bytes, least significant first.
#[derive(Clone, Copy, PartialEq, Eq, Debug)]
pub struct U256 {
    bytes: [u8; 32],
}

impl View for U256 {
    type V = Seq<u8>;

    /// The little-endian bytes of the value.
    closed spec fn view(&self) -> Seq<u8> {
        self.bytes@
    }
}

impl U256 {
    /// Every value is exactly 32 bytes.
    pub proof fn lemma_shape(self)
        ensures
            self@.len() == 32,
    {
        broadcast use vstd::array::group_array_axioms;

    }

    /// The value whose 32 little-endian bytes are `v` followed by
    /// zeros.
    pub fn from_u32(v: u32) -> (r: U256)
        ensures
            r@ == le_bytes(v as int, 32),
    {
        let enc: Vec<u8> = le_encode(v as u64, 32);
        proof {
            lemma_le_bytes_len(v as int, 32);
        }
        let mut bytes: [u8; 32] = [0u8; 32];
        let mut i: usize = 0;
        while i < 32
            invariant
                i <= 32,
                enc@.len() == 32,
                enc@ == le_bytes(v as int, 32),
                forall|j: int| 0 <= j < i ==> bytes@[j] == enc@[j],
            decreases 32 - i,
        {
            bytes[i] = enc[i];
            i = i + 1;
        }
        proof {
            assert(bytes@ =~= le_bytes(v as int, 32));
        }
        U256 { bytes }
    }

    /// The low 32 bits of the value.
    pub fn as_u32(&self) -> (r: u32)
        ensures
            r == le_val(self@.take(4)),
    {
        proof {
            lemma_le_val_bound(self@.take(4));
            lemma_pow256_values();
            assert(self@.subrange(0, 4) =~= self@.take(4));
        }
        let v: u64 = le_decode(self.bytes.as_slice(), 0, 4);
        v as u32
    }
}

/// Decoding takes the first 32 bytes as the value, byte for byte.
pub proof fn lemma_u256_dec_bytes(b: Seq<u8>)
    requires
        b.len() >= 32,
    ensures
        <U256 as Serialize>::dec(b)@ == b.take(32),
{
    lemma_array32_of(b.take(32));
}

impl Serialize for U256 {
    open spec fn spec_byte_len() -> usize {
        32
    }

    open spec fn codec_wf(self) -> bool {
        true
    }

    open spec fn enc(self) -> Seq<u8> {
        self@
    }

    closed spec fn dec(b: Seq<u8>) -> U256 {
        U256 { bytes: array32_of(b.take(32)) }
    }

    proof fn lemma_byte_len() {
    }

    proof fn lemma_enc_len(self) {
        self.lemma_shape();
    }

    proof fn lemma_round_trip(self) {
        self.lemma_shape();
        assert(self@.take(32) =~= self@);
        lemma_array32_of(self@);
        broadcast use vstd::array::group_array_axioms;

        assert(array32_of(self@) =~= self.bytes);
    }

    proof fn lemma_dec_prefix(b1: Seq<u8>, b2: Seq<u8>) {
    }

    fn byte_len() -> usize {
        32
    }

    fn from_bytes(bytes: &[u8]) -> (r: Self) {
        let mut arr: [u8; 32] = [0u8; 32];
        let mut i: usize = 0;
        while i < 32
            invariant
                i <= 32,
                bytes@.len() >= 32,
                forall|j: int| 0 <= j < i ==> arr@[j] == bytes@[j],
            decreases 32 - i,
        {
            arr[i] = bytes[i];
            i = i + 1;
        }
        proof {
            assert(arr@ =~= bytes@.take(32));
            lemma_array32_of(bytes@.take(32));
            broadcast use vstd::array::group_array_axioms;

            assert(array32_of(bytes@.take(32)) =~= arr);
        }
        U256 { bytes: arr }
    }

    fn to_bytes(&self) -> (r: Vec<u8>) {
        let mut r: Vec<u8> = Vec::new();
        let mut i: usize = 0;
        while i < 32
            invariant
                i <= 32,
                r@.len() == i,
                forall|j: int| 0 <= j < i ==> r@[j] == self@[j],
            decreases 32 - i,
        {
            let b: u8 = self.bytes[i];
            r.push(b);
            i = i + 1;
        }
        proof {
            self.lemma_shape();
            assert(r@ =~= self@);
        }
        r
    }
}

} // verus!
