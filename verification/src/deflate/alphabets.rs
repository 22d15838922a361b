//! The length and distance alphabets, by rule: a symbol stands for numbers that
//! agree in their highest bits, and its extra bits give the others.
use vstd::prelude::*;
use vstd::arithmetic::power2::{pow2, lemma2_to64};
use crate::deflate::tables::{DISTANCE_BASE, DISTANCE_EXTRA, LENGTH_BASE, LENGTH_EXTRA};

verus! {

/// Extra bits of length symbol number `k`: one more for every four symbols, but
/// none for the first eight and the last.
pub open spec fn length_bits(k: int) -> nat {
    if k < 8 || k == 28 {
        0
    } else {
        (k / 4 - 1) as nat
    }
}

/// The shortest length of length symbol number `k`.
pub open spec fn length_from(k: int) -> int {
    if k == 28 {
        258
    } else if k < 8 {
        k + 3
    } else {
        (4 + k % 4) * pow2(length_bits(k)) + 3
    }
}

/// Extra bits of distance symbol `k`: one more for every two symbols, but none for
/// the first four.
pub open spec fn distance_bits(k: int) -> nat {
    if k < 4 {
        0
    } else {
        (k / 2 - 1) as nat
    }
}

/// The smallest distance of distance symbol `k`.
pub open spec fn distance_from(k: int) -> int {
    if k < 4 {
        k + 1
    } else {
        (2 + k % 2) * pow2(distance_bits(k)) + 1
    }
}

proof fn lemma_scaled(c: int, e: nat, w: int)
    requires
        pow2(e) == w,
    ensures
        c * pow2(e) == c * w,
{
}

/// The lengths of the length symbols follow the rule.
pub proof fn law_lengths(k: int)
    requires
        0 <= k < 29,
    ensures
        LENGTH_EXTRA[k] == length_bits(k),
        LENGTH_BASE[k] == length_from(k),
{
    lemma2_to64();
    assert(length_bits(0) == LENGTH_EXTRA[0] && length_from(0) == LENGTH_BASE[0]);
    assert(length_bits(1) == LENGTH_EXTRA[1] && length_from(1) == LENGTH_BASE[1]);
    assert(length_bits(2) == LENGTH_EXTRA[2] && length_from(2) == LENGTH_BASE[2]);
    assert(length_bits(3) == LENGTH_EXTRA[3] && length_from(3) == LENGTH_BASE[3]);
    assert(length_bits(4) == LENGTH_EXTRA[4] && length_from(4) == LENGTH_BASE[4]);
    assert(length_bits(5) == LENGTH_EXTRA[5] && length_from(5) == LENGTH_BASE[5]);
    assert(length_bits(6) == LENGTH_EXTRA[6] && length_from(6) == LENGTH_BASE[6]);
    assert(length_bits(7) == LENGTH_EXTRA[7] && length_from(7) == LENGTH_BASE[7]);
    lemma_scaled(4, 1, 2);
    assert(length_bits(8) == LENGTH_EXTRA[8] && length_from(8) == LENGTH_BASE[8]);
    lemma_scaled(5, 1, 2);
    assert(length_bits(9) == LENGTH_EXTRA[9] && length_from(9) == LENGTH_BASE[9]);
    lemma_scaled(6, 1, 2);
    assert(length_bits(10) == LENGTH_EXTRA[10] && length_from(10) == LENGTH_BASE[10]);
    lemma_scaled(7, 1, 2);
    assert(length_bits(11) == LENGTH_EXTRA[11] && length_from(11) == LENGTH_BASE[11]);
    lemma_scaled(4, 2, 4);
    assert(length_bits(12) == LENGTH_EXTRA[12] && length_from(12) == LENGTH_BASE[12]);
    lemma_scaled(5, 2, 4);
    assert(length_bits(13) == LENGTH_EXTRA[13] && length_from(13) == LENGTH_BASE[13]);
    lemma_scaled(6, 2, 4);
    assert(length_bits(14) == LENGTH_EXTRA[14] && length_from(14) == LENGTH_BASE[14]);
    lemma_scaled(7, 2, 4);
    assert(length_bits(15) == LENGTH_EXTRA[15] && length_from(15) == LENGTH_BASE[15]);
    lemma_scaled(4, 3, 8);
    assert(length_bits(16) == LENGTH_EXTRA[16] && length_from(16) == LENGTH_BASE[16]);
    lemma_scaled(5, 3, 8);
    assert(length_bits(17) == LENGTH_EXTRA[17] && length_from(17) == LENGTH_BASE[17]);
    lemma_scaled(6, 3, 8);
    assert(length_bits(18) == LENGTH_EXTRA[18] && length_from(18) == LENGTH_BASE[18]);
    lemma_scaled(7, 3, 8);
    assert(length_bits(19) == LENGTH_EXTRA[19] && length_from(19) == LENGTH_BASE[19]);
    lemma_scaled(4, 4, 16);
    assert(length_bits(20) == LENGTH_EXTRA[20] && length_from(20) == LENGTH_BASE[20]);
    lemma_scaled(5, 4, 16);
    assert(length_bits(21) == LENGTH_EXTRA[21] && length_from(21) == LENGTH_BASE[21]);
    lemma_scaled(6, 4, 16);
    assert(length_bits(22) == LENGTH_EXTRA[22] && length_from(22) == LENGTH_BASE[22]);
    lemma_scaled(7, 4, 16);
    assert(length_bits(23) == LENGTH_EXTRA[23] && length_from(23) == LENGTH_BASE[23]);
    lemma_scaled(4, 5, 32);
    assert(length_bits(24) == LENGTH_EXTRA[24] && length_from(24) == LENGTH_BASE[24]);
    lemma_scaled(5, 5, 32);
    assert(length_bits(25) == LENGTH_EXTRA[25] && length_from(25) == LENGTH_BASE[25]);
    lemma_scaled(6, 5, 32);
    assert(length_bits(26) == LENGTH_EXTRA[26] && length_from(26) == LENGTH_BASE[26]);
    lemma_scaled(7, 5, 32);
    assert(length_bits(27) == LENGTH_EXTRA[27] && length_from(27) == LENGTH_BASE[27]);
    assert(length_bits(28) == LENGTH_EXTRA[28] && length_from(28) == LENGTH_BASE[28]);
}

/// The distances of the distance symbols follow the rule.
pub proof fn law_distances(k: int)
    requires
        0 <= k < 30,
    ensures
        DISTANCE_EXTRA[k] == distance_bits(k),
        DISTANCE_BASE[k] == distance_from(k),
{
    lemma2_to64();
    assert(distance_bits(0) == DISTANCE_EXTRA[0] && distance_from(0) == DISTANCE_BASE[0]);
    assert(distance_bits(1) == DISTANCE_EXTRA[1] && distance_from(1) == DISTANCE_BASE[1]);
    assert(distance_bits(2) == DISTANCE_EXTRA[2] && distance_from(2) == DISTANCE_BASE[2]);
    assert(distance_bits(3) == DISTANCE_EXTRA[3] && distance_from(3) == DISTANCE_BASE[3]);
    lemma_scaled(2, 1, 2);
    assert(distance_bits(4) == DISTANCE_EXTRA[4] && distance_from(4) == DISTANCE_BASE[4]);
    lemma_scaled(3, 1, 2);
    assert(distance_bits(5) == DISTANCE_EXTRA[5] && distance_from(5) == DISTANCE_BASE[5]);
    lemma_scaled(2, 2, 4);
    assert(distance_bits(6) == DISTANCE_EXTRA[6] && distance_from(6) == DISTANCE_BASE[6]);
    lemma_scaled(3, 2, 4);
    assert(distance_bits(7) == DISTANCE_EXTRA[7] && distance_from(7) == DISTANCE_BASE[7]);
    lemma_scaled(2, 3, 8);
    assert(distance_bits(8) == DISTANCE_EXTRA[8] && distance_from(8) == DISTANCE_BASE[8]);
    lemma_scaled(3, 3, 8);
    assert(distance_bits(9) == DISTANCE_EXTRA[9] && distance_from(9) == DISTANCE_BASE[9]);
    lemma_scaled(2, 4, 16);
    assert(distance_bits(10) == DISTANCE_EXTRA[10] && distance_from(10) == DISTANCE_BASE[10]);
    lemma_scaled(3, 4, 16);
    assert(distance_bits(11) == DISTANCE_EXTRA[11] && distance_from(11) == DISTANCE_BASE[11]);
    lemma_scaled(2, 5, 32);
    assert(distance_bits(12) == DISTANCE_EXTRA[12] && distance_from(12) == DISTANCE_BASE[12]);
    lemma_scaled(3, 5, 32);
    assert(distance_bits(13) == DISTANCE_EXTRA[13] && distance_from(13) == DISTANCE_BASE[13]);
    lemma_scaled(2, 6, 64);
    assert(distance_bits(14) == DISTANCE_EXTRA[14] && distance_from(14) == DISTANCE_BASE[14]);
    lemma_scaled(3, 6, 64);
    assert(distance_bits(15) == DISTANCE_EXTRA[15] && distance_from(15) == DISTANCE_BASE[15]);
    lemma_scaled(2, 7, 128);
    assert(distance_bits(16) == DISTANCE_EXTRA[16] && distance_from(16) == DISTANCE_BASE[16]);
    lemma_scaled(3, 7, 128);
    assert(distance_bits(17) == DISTANCE_EXTRA[17] && distance_from(17) == DISTANCE_BASE[17]);
    lemma_scaled(2, 8, 256);
    assert(distance_bits(18) == DISTANCE_EXTRA[18] && distance_from(18) == DISTANCE_BASE[18]);
    lemma_scaled(3, 8, 256);
    assert(distance_bits(19) == DISTANCE_EXTRA[19] && distance_from(19) == DISTANCE_BASE[19]);
    lemma_scaled(2, 9, 512);
    assert(distance_bits(20) == DISTANCE_EXTRA[20] && distance_from(20) == DISTANCE_BASE[20]);
    lemma_scaled(3, 9, 512);
    assert(distance_bits(21) == DISTANCE_EXTRA[21] && distance_from(21) == DISTANCE_BASE[21]);
    lemma_scaled(2, 10, 1024);
    assert(distance_bits(22) == DISTANCE_EXTRA[22] && distance_from(22) == DISTANCE_BASE[22]);
    lemma_scaled(3, 10, 1024);
    assert(distance_bits(23) == DISTANCE_EXTRA[23] && distance_from(23) == DISTANCE_BASE[23]);
    lemma_scaled(2, 11, 2048);
    assert(distance_bits(24) == DISTANCE_EXTRA[24] && distance_from(24) == DISTANCE_BASE[24]);
    lemma_scaled(3, 11, 2048);
    assert(distance_bits(25) == DISTANCE_EXTRA[25] && distance_from(25) == DISTANCE_BASE[25]);
    lemma_scaled(2, 12, 4096);
    assert(distance_bits(26) == DISTANCE_EXTRA[26] && distance_from(26) == DISTANCE_BASE[26]);
    lemma_scaled(3, 12, 4096);
    assert(distance_bits(27) == DISTANCE_EXTRA[27] && distance_from(27) == DISTANCE_BASE[27]);
    lemma_scaled(2, 13, 8192);
    assert(distance_bits(28) == DISTANCE_EXTRA[28] && distance_from(28) == DISTANCE_BASE[28]);
    lemma_scaled(3, 13, 8192);
    assert(distance_bits(29) == DISTANCE_EXTRA[29] && distance_from(29) == DISTANCE_BASE[29]);
}

proof fn lemma_length_symbol(v: int, e: nat, w: int)
    requires
        1 <= e <= 5,
        w == pow2(e),
        4 * w <= v < 8 * w,
        v < 255,
    ensures
        ({
            let k = 4 * e + v / w;
            &&& 8 <= k < 28
            &&& length_bits(k) == e
            &&& length_from(k) + v % w == v + 3
            &&& 0 <= v % w < w
        }),
{
    lemma2_to64();
    vstd::arithmetic::div_mod::lemma_fundamental_div_mod(v, w);
    let q = v / w;
    assert(4 <= q < 8) by (nonlinear_arith)
        requires
            v == w * q + v % w,
            0 <= v % w < w,
            4 * w <= v < 8 * w,
    ;
    let k = 4 * e + q;
    assert(k / 4 == e + 1 && k % 4 == q - 4);
    assert((4 + (q - 4)) * w == w * q) by (nonlinear_arith);
}

/// Every length from 3 to 258 has a symbol.
pub proof fn law_every_length(length: int) -> (r: (int, nat))
    requires
        3 <= length <= 258,
    ensures
        0 <= r.0 < 29,
        r.1 < pow2(length_bits(r.0)),
        length == length_from(r.0) + r.1,
{
    lemma2_to64();
    let v = length - 3;
    if length == 258 {
        (28, 0)
    } else if v < 8 {
        (v, 0)
    } else {
        let e: nat = if v < 16 {
            1
        } else if v < 32 {
            2
        } else if v < 64 {
            3
        } else if v < 128 {
            4
        } else {
            5
        };
        let w = pow2(e) as int;
        lemma_length_symbol(v, e, w);
        (4 * e + v / w, (v % w) as nat)
    }
}

proof fn lemma_distance_symbol(v: int, e: nat, w: int)
    requires
        1 <= e <= 13,
        w == pow2(e),
        2 * w <= v < 4 * w,
    ensures
        ({
            let k = 2 * e + v / w;
            &&& 4 <= k < 30
            &&& distance_bits(k) == e
            &&& distance_from(k) + v % w == v + 1
            &&& 0 <= v % w < w
        }),
{
    lemma2_to64();
    vstd::arithmetic::div_mod::lemma_fundamental_div_mod(v, w);
    let q = v / w;
    assert(2 <= q < 4) by (nonlinear_arith)
        requires
            v == w * q + v % w,
            0 <= v % w < w,
            2 * w <= v < 4 * w,
    ;
    let k = 2 * e + q;
    assert(k / 2 == e + 1 && k % 2 == q - 2);
    assert((2 + (q - 2)) * w == w * q) by (nonlinear_arith);
}

/// Every distance from 1 to 32768 has a symbol.
pub proof fn law_every_distance(distance: int) -> (r: (int, nat))
    requires
        1 <= distance <= 32768,
    ensures
        0 <= r.0 < 30,
        r.1 < pow2(distance_bits(r.0)),
        distance == distance_from(r.0) + r.1,
{
    lemma2_to64();
    let v = distance - 1;
    if v < 4 {
        (v, 0)
    } else {
        let e: nat = if v < 8 {
            1
        } else if v < 16 {
            2
        } else if v < 32 {
            3
        } else if v < 64 {
            4
        } else if v < 128 {
            5
        } else if v < 256 {
            6
        } else if v < 512 {
            7
        } else if v < 1024 {
            8
        } else if v < 2048 {
            9
        } else if v < 4096 {
            10
        } else if v < 8192 {
            11
        } else if v < 16384 {
            12
        } else {
            13
        };
        let w = pow2(e) as int;
        lemma_distance_symbol(v, e, w);
        (2 * e + v / w, (v % w) as nat)
    }
}

} // verus!
