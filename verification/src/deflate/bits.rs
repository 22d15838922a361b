//! The bit stream: bits are numbered from the least significant bit of the
//! first byte, and a field of `n` bits is read least significant bit first.
use vstd::prelude::*;
use vstd::arithmetic::power2::pow2;
use vstd::arithmetic::power2::lemma_pow2_pos;
use vstd::arithmetic::power2::lemma_pow2_unfold;
use vstd::arithmetic::power2::lemma2_to64;
use vstd::arithmetic::div_mod::lemma_fundamental_div_mod_converse;

verus! {

/// Bit `i` of `s`; every bit past the end is 0.
pub open spec fn bit_at(s: Seq<u8>, i: int) -> nat {
    if 0 <= i < 8 * s.len() {
        ((s[i / 8] >> ((i % 8) as u8)) & 1u8) as nat
    } else {
        0
    }
}

/// The `n` bits of `s` from bit `p` on, as a number whose lowest bit is bit `p`.
pub open spec fn bits_at(s: Seq<u8>, p: int, n: nat) -> nat
    decreases n,
{
    if n == 0 {
        0
    } else {
        bit_at(s, p) + 2 * bits_at(s, p + 1, (n - 1) as nat)
    }
}

/// The number of bits in `s`.
pub open spec fn bit_len(s: Seq<u8>) -> int {
    8 * s.len() as int
}

/// The first bit at or after `p` that starts a byte.
pub open spec fn align_up(p: int) -> int {
    (p + 7) / 8 * 8
}

pub proof fn lemma_bit_at_bound(s: Seq<u8>, i: int)
    ensures
        bit_at(s, i) <= 1,
{
    if 0 <= i < 8 * s.len() {
        let x = s[i / 8];
        let k = (i % 8) as u8;
        assert((x >> k) & 1u8 <= 1u8) by (bit_vector);
    }
}

pub proof fn lemma_bits_bound(s: Seq<u8>, p: int, n: nat)
    ensures
        bits_at(s, p, n) < pow2(n),
    decreases n,
{
    if n == 0 {
        lemma2_to64();
    } else {
        lemma_bit_at_bound(s, p);
        lemma_bits_bound(s, p + 1, (n - 1) as nat);
        lemma_pow2_unfold(n);
    }
}

/// A field of `a + b` bits is its low field of `a` bits and its high field of `b` bits.
pub proof fn lemma_bits_split(s: Seq<u8>, p: int, a: nat, b: nat)
    ensures
        bits_at(s, p, a + b) == bits_at(s, p, a) + pow2(a) * bits_at(s, p + a, b),
    decreases a,
{
    if a == 0 {
        lemma2_to64();
    } else {
        let a1 = (a - 1) as nat;
        lemma_bits_split(s, p + 1, a1, b);
        lemma_pow2_unfold(a);
        assert((a + b - 1) as nat == a1 + b);
        assert(p + 1 + a1 == p + a);
        let h = bits_at(s, p + a, b);
        assert(2 * (pow2(a1) * h) == pow2(a) * h) by (nonlinear_arith)
            requires
                pow2(a) == 2 * pow2(a1),
        ;
    }
}

pub proof fn lemma_bits_div_mod(s: Seq<u8>, p: int, k: nat, n: nat)
    requires
        k <= n,
    ensures
        bits_at(s, p, n) % pow2(k) == bits_at(s, p, k),
        bits_at(s, p, n) / pow2(k) == bits_at(s, p + k, (n - k) as nat),
{
    lemma_bits_split(s, p, k, (n - k) as nat);
    lemma_bits_bound(s, p, k);
    lemma_pow2_pos(k);
    let x = bits_at(s, p, n) as int;
    let q = bits_at(s, p + k, (n - k) as nat) as int;
    assert(pow2(k) * q == q * pow2(k)) by (nonlinear_arith);
    lemma_fundamental_div_mod_converse(x, pow2(k) as int, q, bits_at(s, p, k) as int);
}

pub proof fn lemma_bits_byte(s: Seq<u8>, i: int)
    requires
        0 <= i < s.len(),
    ensures
        bits_at(s, 8 * i, 8) == s[i],
{
    reveal_with_fuel(bits_at, 9);
    let x = s[i];
    assert forall|j: int| 0 <= j < 8 implies #[trigger] bit_at(s, 8 * i + j) == ((x >> (j as u8)) & 1u8) by {
        assert((8 * i + j) / 8 == i);
        assert((8 * i + j) % 8 == j);
    }
    assert(bit_at(s, 8 * i + 0) == ((x >> 0u8) & 1u8));
    assert(x == (x >> 0u8 & 1u8) + 2 * (x >> 1u8 & 1u8) + 4 * (x >> 2u8 & 1u8) + 8 * (x >> 3u8 & 1u8)
        + 16 * (x >> 4u8 & 1u8) + 32 * (x >> 5u8 & 1u8) + 64 * (x >> 6u8 & 1u8) + 128 * (x >> 7u8 & 1u8))
        by (bit_vector);
    assert(bits_at(s, 8 * i, 8) == bit_at(s, 8 * i + 0) + 2 * (bit_at(s, 8 * i + 1) + 2 * (bit_at(s, 8 * i + 2)
        + 2 * (bit_at(s, 8 * i + 3) + 2 * (bit_at(s, 8 * i + 4) + 2 * (bit_at(s, 8 * i + 5) + 2 * (bit_at(
        s,
        8 * i + 6,
    ) + 2 * bit_at(s, 8 * i + 7))))))));
}

/// There is nothing after the end.
pub proof fn lemma_bits_past_end(s: Seq<u8>, p: int, n: nat)
    requires
        p >= bit_len(s),
    ensures
        bits_at(s, p, n) == 0,
    decreases n,
{
    if n > 0 {
        lemma_bits_past_end(s, p + 1, (n - 1) as nat);
    }
}

} // verus!
