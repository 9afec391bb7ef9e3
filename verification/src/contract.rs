//! A sample contract built on the sequence engine: it records requests
//! in an `Array<Request>` anchored at the all-zero key of the store it
//! owns, and serves them back by index.

#![allow(non_snake_case)]

use crate::codec::{
    le_bytes, le_val, le_decode, le_encode, lemma_le_bytes_len, lemma_le_round_trip,
    lemma_le_val_bound, lemma_le_val_zero, lemma_pow256_values,
};
use crate::collections::{Array, Serialize};
use crate::storage::{zero_word, Storage};
use crate::utils::{array_of_seq, lemma_array_of_seq, SubAddress};
use vstd::prelude::*;

verus! {

/// One recorded request: a 30-byte service number, a date, and a
/// declarant type.
#[derive(Debug, Copy, Clone)]
pub struct Request {
    pub service_number: [u8; 30],
    pub date: u64,
    pub declarant_type: u32,
}

impl Serialize for Request {
    open spec fn spec_byte_len() -> usize {
        42
    }

    open spec fn codec_wf(self) -> bool {
        true
    }

    open spec fn enc(self) -> Seq<u8> {
        self.service_number@ + le_bytes(self.date as int, 8) + le_bytes(
            self.declarant_type as int,
            4,
        )
    }

    open spec fn dec(b: Seq<u8>) -> Request {
        Request {
            service_number: array_of_seq::<30>(b),
            date: le_val(b.subrange(30, 38)) as u64,
            declarant_type: le_val(b.subrange(38, 42)) as u32,
        }
    }

    proof fn lemma_byte_len() {
    }

    proof fn lemma_enc_len(self) {
        broadcast use vstd::array::group_array_axioms;

        lemma_le_bytes_len(self.date as int, 8);
        lemma_le_bytes_len(self.declarant_type as int, 4);
    }

    proof fn lemma_round_trip(self) {
        broadcast use vstd::array::group_array_axioms;

        lemma_le_bytes_len(self.date as int, 8);
        lemma_le_bytes_len(self.declarant_type as int, 4);
        let b = self.enc();
        lemma_array_of_seq::<30>(b);
        assert(b.take(30) =~= self.service_number@);
        assert(array_of_seq::<30>(b) =~= self.service_number);
        assert(b.subrange(30, 38) =~= le_bytes(self.date as int, 8));
        assert(b.subrange(38, 42) =~= le_bytes(self.declarant_type as int, 4));
        lemma_pow256_values();
        lemma_le_round_trip(self.date as int, 8);
        lemma_le_round_trip(self.declarant_type as int, 4);
    }

    proof fn lemma_dec_prefix(b1: Seq<u8>, b2: Seq<u8>) {
        lemma_array_of_seq::<30>(b1);
        lemma_array_of_seq::<30>(b2);
        assert forall|q: int| 0 <= q < 42 implies b1[q] == b2[q] by {
            assert(b1.take(42)[q] == b2.take(42)[q]);
        }
        assert(b1.take(30) =~= b2.take(30));
        assert(array_of_seq::<30>(b1) =~= array_of_seq::<30>(b2));
        assert(b1.subrange(30, 38) =~= b2.subrange(30, 38));
        assert(b1.subrange(38, 42) =~= b2.subrange(38, 42));
    }

    fn byte_len() -> usize {
        42
    }

    fn from_bytes(bytes: &[u8]) -> (r: Self) {
        let mut sn: [u8; 30] = [0u8; 30];
        let mut i: usize = 0;
        while i < 30
            invariant
                i <= 30,
                bytes@.len() >= 42,
                forall|j: int| 0 <= j < i ==> sn@[j] == bytes@[j],
            decreases 30 - i,
        {
            sn[i] = bytes[i];
            i = i + 1;
        }
        let date: u64 = le_decode(bytes, 30, 8);
        let dtv: u64 = le_decode(bytes, 38, 4);
        proof {
            broadcast use vstd::array::group_array_axioms;

            lemma_array_of_seq::<30>(bytes@);
            assert(sn@ =~= bytes@.take(30));
            assert(sn =~= array_of_seq::<30>(bytes@));
            lemma_le_val_bound(bytes@.subrange(30, 38));
            lemma_le_val_bound(bytes@.subrange(38, 42));
            lemma_pow256_values();
        }
        Request { service_number: sn, date, declarant_type: dtv as u32 }
    }

    fn to_bytes(&self) -> (r: Vec<u8>) {
        let mut r: Vec<u8> = Vec::new();
        let mut i: usize = 0;
        while i < 30
            invariant
                i <= 30,
                r@.len() == i,
                forall|j: int| 0 <= j < i ==> r@[j] == self.service_number@[j],
            decreases 30 - i,
        {
            let b: u8 = self.service_number[i];
            r.push(b);
            i = i + 1;
        }
        let date_bytes: Vec<u8> = le_encode(self.date, 8);
        proof {
            lemma_le_bytes_len(self.date as int, 8);
            broadcast use vstd::array::group_array_axioms;

            assert(r@ =~= self.service_number@ + date_bytes@.take(0));
        }
        let mut k: usize = 0;
        while k < 8
            invariant
                k <= 8,
                date_bytes@.len() == 8,
                date_bytes@ == le_bytes(self.date as int, 8),
                r@ == self.service_number@ + date_bytes@.take(k as int),
            decreases 8 - k,
        {
            let b: u8 = date_bytes[k];
            r.push(b);
            proof {
                assert(self.service_number@ + date_bytes@.take(k + 1) =~= (self.service_number@
                    + date_bytes@.take(k as int)).push(b));
            }
            k = k + 1;
        }
        let dt_bytes: Vec<u8> = le_encode(self.declarant_type as u64, 4);
        proof {
            lemma_le_bytes_len(self.declarant_type as int, 4);
            assert(date_bytes@.take(8) =~= date_bytes@);
            assert(r@ =~= self.service_number@ + le_bytes(self.date as int, 8) + dt_bytes@.take(
                0,
            ));
        }
        let mut k2: usize = 0;
        while k2 < 4
            invariant
                k2 <= 4,
                dt_bytes@.len() == 4,
                dt_bytes@ == le_bytes(self.declarant_type as int, 4),
                r@ == self.service_number@ + le_bytes(self.date as int, 8) + dt_bytes@.take(
                    k2 as int,
                ),
            decreases 4 - k2,
        {
            let b: u8 = dt_bytes[k2];
            r.push(b);
            proof {
                assert(self.service_number@ + le_bytes(self.date as int, 8) + dt_bytes@.take(
                    k2 + 1,
                ) =~= (self.service_number@ + le_bytes(self.date as int, 8) + dt_bytes@.take(
                    k2 as int,
                )).push(b));
            }
            k2 = k2 + 1;
        }
        proof {
            assert(dt_bytes@.take(4) =~= dt_bytes@);
            assert(r@ =~= self.enc());
        }
        r
    }
}

/// The calls the sample contract answers, with what each one does to
/// the recorded requests.
pub trait SampleContractInterface: Sized {
    /// The requests recorded so far, each as its service-number bytes,
    /// date and declarant type.
    spec fn requests(self) -> Seq<(Seq<u8>, u64, u32)>;

    /// The implementation's well-formedness.
    spec fn wf(self) -> bool;

    /// Set up a fresh contract; records nothing.
    fn constructor(&mut self)
        requires
            old(self).wf(),
        ensures
            final(self).wf(),
            final(self).requests() == old(self).requests(),
    ;

    /// Record one more request after all existing ones. The bound on
    /// how many fit keeps every word of the new element addressable
    /// within the 32-bit derivation-index space: a request takes two
    /// words.
    fn createRequest(&mut self, serviceNumber: [u8; 30], date: u64, declarantType: u32)
        requires
            old(self).wf(),
            old(self).requests().len() < 0x7fff_ffff,
        ensures
            final(self).wf(),
            final(self).requests() == old(self).requests().push(
                (serviceNumber@, date, declarantType),
            ),
    ;

    /// The request at `index`; all-zero fields when `index` is out of
    /// range.
    fn getRequestByIndex(&mut self, index: u32) -> (r: ([u8; 30], u64, u32))
        requires
            old(self).wf(),
        ensures
            final(self).wf(),
            final(self).requests() == old(self).requests(),
            index < old(self).requests().len() ==> r.0@ == old(self).requests()[index as int].0
                && r.1 == old(self).requests()[index as int].1 && r.2 == old(
                self,
            ).requests()[index as int].2,
            index >= old(self).requests().len() ==> r.0@ == Seq::new(30, |i: int| 0u8) && r.1 == 0
                && r.2 == 0,
    ;

    /// How many requests are recorded.
    fn getRequestsCount(&mut self) -> (r: u32)
        requires
            old(self).wf(),
        ensures
            final(self).wf(),
            final(self).requests() == old(self).requests(),
            r == old(self).requests().len(),
    ;
}

/// The sample contract. Its whole state is the word store it owns.
pub struct SampleContract {
    pub storage: Storage,
}

impl SampleContract {
    /// The sequence all requests live in: anchored at the all-zero key
    /// with nothing claimed.
    pub open spec fn spec_requests_array() -> Array<Request> {
        Array {
            address: SubAddress::spec_make(zero_word(), 0),
            marker: core::marker::PhantomData,
        }
    }

    /// A contract over a fresh store: no requests recorded.
    pub fn new() -> (c: SampleContract)
        ensures
            c.wf(),
            c.requests() == Seq::<(Seq<u8>, u64, u32)>::empty(),
    {
        let c = SampleContract { storage: Storage::new() };
        proof {
            SubAddress::lemma_spec_make(zero_word(), 0);
            let a = Self::spec_requests_array();
            lemma_le_val_zero(zero_word().take(4));
            assert(a.spec_len(c.storage) == 0);
            assert(c.requests() =~= Seq::<(Seq<u8>, u64, u32)>::empty());
        }
        c
    }

    /// The requests sequence, as executable code.
    fn requests_array() -> (r: Array<Request>)
        ensures
            r == Self::spec_requests_array(),
    {
        let a: Array<Request> = Array::new(SubAddress::new([0u8; 32], 0));
        proof {
            SubAddress::lemma_make_eta(a.address);
            assert(a.address.key() =~= zero_word());
        }
        a
    }
}

impl SampleContractInterface for SampleContract {
    open spec fn requests(self) -> Seq<(Seq<u8>, u64, u32)> {
        Self::spec_requests_array().contents(self.storage).map_values(
            |r: Request| (r.service_number@, r.date, r.declarant_type),
        )
    }

    open spec fn wf(self) -> bool {
        Self::spec_requests_array().addressable(
            Self::spec_requests_array().spec_len(self.storage),
        )
    }

    fn constructor(&mut self) {
    }

    fn createRequest(&mut self, serviceNumber: [u8; 30], date: u64, declarantType: u32) {
        let mut array: Array<Request> = Self::requests_array();
        let request = Request {
            service_number: serviceNumber,
            date,
            declarant_type: declarantType,
        };
        proof {
            SubAddress::lemma_spec_make(zero_word(), 0);
            array.lemma_len_bound(self.storage);
            assert(Array::<Request>::spec_buckets() == 2);
        }
        let ghost pre = *self;
        array.push(&mut self.storage, request);
        proof {
            let a = Self::spec_requests_array();
            let len = a.spec_len(pre.storage);
            assert(a.contents(self.storage) == a.contents(pre.storage).push(request));
            assert(self.requests().len() == len + 1);
            assert forall|i: int| 0 <= i < len + 1 implies self.requests()[i]
                == pre.requests().push((serviceNumber@, date, declarantType))[i] by {
                let c_new = a.contents(self.storage)[i];
                assert(self.requests()[i] == (c_new.service_number@, c_new.date,
                c_new.declarant_type));
                if i < len {
                    let c_old = a.contents(pre.storage)[i];
                    assert(pre.requests()[i] == (c_old.service_number@, c_old.date,
                    c_old.declarant_type));
                    assert(c_new == c_old);
                } else {
                    assert(c_new == request);
                }
            }
            assert(self.requests() =~= pre.requests().push(
                (serviceNumber@, date, declarantType),
            ));
        }
    }

    fn getRequestByIndex(&mut self, index: u32) -> (r: ([u8; 30], u64, u32)) {
        let array: Array<Request> = Self::requests_array();
        proof {
            SubAddress::lemma_spec_make(zero_word(), 0);
        }
        let item: Option<Request> = array.get_item(&self.storage, index);
        match item {
            Some(x) => {
                proof {
                    let a = Self::spec_requests_array();
                    let c0 = a.contents(self.storage)[index as int];
                    assert(old(self).requests()[index as int] == (c0.service_number@, c0.date,
                    c0.declarant_type));
                    assert(x == c0);
                }
                (x.service_number, x.date, x.declarant_type)
            },
            None => {
                let zero_sn: [u8; 30] = [0u8; 30];
                proof {
                    let a = Self::spec_requests_array();
                    a.lemma_len_bound(self.storage);
                    assert(index >= a.spec_len(self.storage));
                    assert(index >= old(self).requests().len());
                    assert(zero_sn@ =~= Seq::new(30, |i: int| 0u8));
                }
                (zero_sn, 0u64, 0u32)
            },
        }
    }

    fn getRequestsCount(&mut self) -> (r: u32) {
        let array: Array<Request> = Self::requests_array();
        proof {
            SubAddress::lemma_spec_make(zero_word(), 0);
        }
        array.len(&self.storage)
    }
}

} // verus!
