//! Little-endian byte strings for fixed-width integers.
//!
//! Every multi-byte integer this crate stores — derivation components,
//! sequence lengths, element fields — is laid out as little-endian
//! bytes, so the stored format is the same on every platform.

use vstd::arithmetic::div_mod::lemma_fundamental_div_mod;
use vstd::prelude::*;

verus! {

/// 256 raised to `n`.
pub open spec fn pow256(n: nat) -> int
    decreases n,
{
    if n == 0 {
        1
    } else {
        256 * pow256((n - 1) as nat)
    }
}

/// The value a little-endian byte string stands for.
pub open spec fn le_val(b: Seq<u8>) -> int
    decreases b.len(),
{
    if b.len() == 0 {
        0
    } else {
        b[0] + 256 * le_val(b.drop_first())
    }
}

/// The `n` little-endian bytes of `v`.
pub open spec fn le_bytes(v: int, n: nat) -> Seq<u8>
    decreases n,
{
    if n == 0 {
        Seq::empty()
    } else {
        seq![(v % 256) as u8] + le_bytes(v / 256, (n - 1) as nat)
    }
}

pub proof fn lemma_pow256_pos(n: nat)
    ensures
        pow256(n) >= 1,
    decreases n,
{
    if n > 0 {
        lemma_pow256_pos((n - 1) as nat);
    }
}

pub proof fn lemma_pow256_mono(m: nat, n: nat)
    requires
        m <= n,
    ensures
        pow256(m) <= pow256(n),
    decreases n,
{
    if m < n {
        lemma_pow256_mono(m, (n - 1) as nat);
        lemma_pow256_pos((n - 1) as nat);
    }
}

pub proof fn lemma_pow256_values()
    ensures
        pow256(1) == 0x100,
        pow256(2) == 0x1_0000,
        pow256(3) == 0x100_0000,
        pow256(4) == 0x1_0000_0000,
        pow256(8) == 0x1_0000_0000_0000_0000,
{
    assert(pow256(0) == 1);
    assert(pow256(1) == 0x100);
    assert(pow256(2) == 0x1_0000);
    assert(pow256(3) == 0x100_0000);
    assert(pow256(4) == 0x1_0000_0000);
    assert(pow256(5) == 0x100_0000_0000);
    assert(pow256(6) == 0x1_0000_0000_0000);
    assert(pow256(7) == 0x100_0000_0000_0000);
    assert(pow256(8) == 0x1_0000_0000_0000_0000);
}

pub proof fn lemma_le_bytes_len(v: int, n: nat)
    ensures
        le_bytes(v, n).len() == n,
    decreases n,
{
    if n > 0 {
        lemma_le_bytes_len(v / 256, (n - 1) as nat);
    }
}

pub proof fn lemma_le_val_bound(b: Seq<u8>)
    ensures
        0 <= le_val(b) < pow256(b.len()),
    decreases b.len(),
{
    if b.len() > 0 {
        lemma_le_val_bound(b.drop_first());
    }
}

pub proof fn lemma_le_val_zero(b: Seq<u8>)
    requires
        forall|i: int| 0 <= i < b.len() ==> b[i] == 0,
    ensures
        le_val(b) == 0,
    decreases b.len(),
{
    if b.len() > 0 {
        lemma_le_val_zero(b.drop_first());
    }
}

/// Decoding inverts encoding: the `n` little-endian bytes of a value
/// below `256^n` stand for that value.
pub proof fn lemma_le_round_trip(v: int, n: nat)
    requires
        0 <= v < pow256(n),
    ensures
        le_val(le_bytes(v, n)) == v,
    decreases n,
{
    if n == 0 {
    } else {
        lemma_fundamental_div_mod(v, 256);
        assert(v / 256 < pow256((n - 1) as nat)) by (nonlinear_arith)
            requires
                0 <= v,
                v < 256 * pow256((n - 1) as nat),
                v == 256 * (v / 256) + v % 256,
                0 <= v % 256 < 256,
        ;
        lemma_le_round_trip(v / 256, (n - 1) as nat);
        let b = le_bytes(v, n);
        assert(b.drop_first() =~= le_bytes(v / 256, (n - 1) as nat));
        assert(b[0] == (v % 256) as u8);
    }
}

/// The `n` little-endian bytes of `v`, as executable code computes them.
pub fn le_encode(v: u64, n: usize) -> (r: Vec<u8>)
    ensures
        r@ == le_bytes(v as int, n as nat),
{
    let mut r: Vec<u8> = Vec::new();
    let mut x: u64 = v;
    let mut k: usize = 0;
    while k < n
        invariant
            k <= n,
            r@.len() == k,
            le_bytes(v as int, n as nat) == r@ + le_bytes(x as int, (n - k) as nat),
        decreases n - k,
    {
        let ghost prev = r@;
        let ghost xi = x as int;
        let ghost m = (n - k) as nat;
        let b: u8 = (x % 256) as u8;
        r.push(b);
        x = x / 256;
        k = k + 1;
        proof {
            assert(le_bytes(xi, m) == seq![b] + le_bytes(xi / 256, (m - 1) as nat));
            assert(prev + le_bytes(xi, m) =~= r@ + le_bytes(x as int, (n - k) as nat));
        }
    }
    proof {
        assert(r@ + le_bytes(x as int, 0) =~= r@);
    }
    r
}

/// The value of the `n` little-endian bytes of `bytes` starting at `pos`.
pub fn le_decode(bytes: &[u8], pos: usize, n: usize) -> (r: u64)
    requires
        pos + n <= bytes@.len(),
        n <= 8,
    ensures
        r == le_val(bytes@.subrange(pos as int, pos + n)),
{
    let total: usize = bytes.len();
    let mut acc: u64 = 0;
    let mut k: usize = n;
    proof {
        assert(bytes@.subrange(pos + n, pos + n) =~= Seq::<u8>::empty());
    }
    while k > 0
        invariant
            k <= n,
            n <= 8,
            total == bytes@.len(),
            pos + n <= total,
            acc == le_val(bytes@.subrange(pos + k, pos + n)),
        decreases k,
    {
        k = k - 1;
        let ghost tail = bytes@.subrange(pos + k + 1, pos + n);
        proof {
            lemma_le_val_bound(tail);
            lemma_pow256_mono(tail.len(), 7);
            lemma_pow256_values();
        }
        let b: u8 = bytes[pos + k];
        acc = (b as u64) + 256 * acc;
        proof {
            let cur = bytes@.subrange(pos + k, pos + n);
            assert(cur.drop_first() =~= tail);
            assert(cur[0] == b);
        }
    }
    acc
}

} // verus!
