//! Canonical prefix codes: which code each symbol has, and which symbol the
//! bits at a given position stand for.
use vstd::prelude::*;
use vstd::arithmetic::power2::pow2;
use vstd::arithmetic::power2::lemma2_to64;
use vstd::arithmetic::power2::lemma_pow2_unfold;
use vstd::arithmetic::power2::lemma_pow2_strictly_increases;
use vstd::bits::lemma_u32_shr_is_div;
use crate::deflate::DeflateError;
use crate::deflate::tables::{fixed_literals, fixed_distances};
use crate::deflate::bits::{bit_at, bits_at, bit_len, lemma_bit_at_bound, lemma_bits_bound, lemma_bits_div_mod};

verus! {

/// The longest code that DEFLATE permits, in bits.
pub const MAX_CODE_LEN: u32 = 15;

/// How many bits index the decoding table.
pub const LUT_BITS: u32 = 10;

/// How many of the first `n` symbols have a code of `l` bits.
pub open spec fn count(lengths: Seq<u8>, l: int, n: int) -> nat
    decreases n,
{
    if n <= 0 {
        0
    } else {
        count(lengths, l, n - 1) + if lengths[n - 1] == l { 1nat } else { 0nat }
    }
}

/// How many of the first `n` symbols have a code at all.
pub open spec fn used(lengths: Seq<u8>, n: int) -> nat
    decreases n,
{
    if n <= 0 {
        0
    } else {
        used(lengths, n - 1) + if lengths[n - 1] > 0 { 1nat } else { 0nat }
    }
}

/// The code of the first symbol whose code has `l` bits.
pub open spec fn first_code(lengths: Seq<u8>, l: int) -> nat
    decreases l,
{
    if l <= 1 {
        0
    } else {
        2 * (first_code(lengths, l - 1) + count(lengths, l - 1, lengths.len() as int))
    }
}

/// The code of symbol `s`: codes of one length are consecutive, in symbol order.
pub open spec fn code(lengths: Seq<u8>, s: int) -> nat {
    first_code(lengths, lengths[s] as int) + count(lengths, lengths[s] as int, s)
}

/// The `n` bits from bit `p` on, as a number whose highest bit is bit `p`.
/// This is the order in which codes are packed.
pub open spec fn code_bits(input: Seq<u8>, p: int, n: nat) -> nat
    decreases n,
{
    if n == 0 {
        0
    } else {
        2 * code_bits(input, p, (n - 1) as nat) + bit_at(input, p + n - 1)
    }
}

/// Symbol `s` has a code, and the bits at `p` begin with it.
pub open spec fn code_matches(lengths: Seq<u8>, s: int, input: Seq<u8>, p: int) -> bool {
    &&& 0 <= s < lengths.len()
    &&& lengths[s] > 0
    &&& code_bits(input, p, lengths[s] as nat) == code(lengths, s)
}

/// The symbol whose code stands at bit `p`.
pub open spec fn symbol_of(lengths: Seq<u8>, input: Seq<u8>, p: int) -> Option<int> {
    if exists|s: int| code_matches(lengths, s, input, p) {
        Some(choose|s: int| code_matches(lengths, s, input, p))
    } else {
        None
    }
}

/// Looks a symbol up at bit `p`: its code has to be there, and nothing more. That
/// there is no code needs `MAX_CODE_LEN` bits of input.
pub open spec fn lookup_at(lengths: Seq<u8>, input: Seq<u8>, p: int) -> Result<int, DeflateError> {
    match symbol_of(lengths, input, p) {
        Some(s) if lengths[s] <= MAX_CODE_LEN && p + lengths[s] <= bit_len(input) => Ok(s),
        None if bit_len(input) - p >= MAX_CODE_LEN => Err(DeflateError::Invalid("no matching huffman code")),
        _ => Err(DeflateError::UnexpectedEof),
    }
}

/// The share of the code space that codes shorter than `l` bits take up, in
/// units of one code of `MAX_CODE_LEN` bits.
pub open spec fn kraft(lengths: Seq<u8>, l: int) -> nat
    decreases l,
{
    if l <= 1 {
        0
    } else {
        kraft(lengths, l - 1) + count(lengths, l - 1, lengths.len() as int) * pow2((16 - l) as nat)
    }
}

/// No code is longer than DEFLATE permits.
pub open spec fn lengths_in_range(lengths: Seq<u8>) -> bool {
    forall|i: int| 0 <= i < lengths.len() ==> #[trigger] lengths[i] <= MAX_CODE_LEN
}

/// Why `lengths` is no set of code lengths; `strict` also asks that the code be complete.
pub open spec fn tree_error(lengths: Seq<u8>, strict: bool) -> Option<DeflateError> {
    let n = used(lengths, lengths.len() as int);
    let total = kraft(lengths, 16);
    if !lengths_in_range(lengths) {
        Some(DeflateError::Invalid("huffman code length > 15"))
    } else if n >= 2 && total > pow2(15) {
        Some(DeflateError::Invalid("oversubscribed huffman tree"))
    } else if strict && n >= 2 && total != pow2(15) {
        Some(DeflateError::Invalid("incomplete huffman tree (strict)"))
    } else {
        None
    }
}

/// Lengths that describe a prefix code.
pub open spec fn prefix_code(lengths: Seq<u8>) -> bool {
    &&& lengths.len() <= 288
    &&& lengths_in_range(lengths)
    &&& kraft(lengths, 16) <= pow2(15)
}

/// The first `MAX_CODE_LEN`-bit word that begins with the code of `s`.
pub open spec fn slot(lengths: Seq<u8>, s: int) -> nat {
    code(lengths, s) * pow2((15 - lengths[s]) as nat)
}

/// The low 15 bits of `x` in reverse order.
pub open spec fn rev15(x: u32) -> u32 {
    ((x & 1u32) << 14u32) | ((x & 2u32) << 12u32) | ((x & 4u32) << 10u32) | ((x & 8u32) << 8u32) | ((x & 16u32)
        << 6u32) | ((x & 32u32) << 4u32) | ((x & 64u32) << 2u32) | (x & 128u32) | ((x & 256u32) >> 2u32) | ((x
        & 512u32) >> 4u32) | ((x & 1024u32) >> 6u32) | ((x & 2048u32) >> 8u32) | ((x & 4096u32) >> 10u32) | ((x
        & 8192u32) >> 12u32) | ((x & 16384u32) >> 14u32)
}

/// The word `v`, read from the stream lowest bit first, begins with the code of `s`.
pub open spec fn word_in_slot(lengths: Seq<u8>, s: int, v: u32) -> bool {
    &&& 0 <= s < lengths.len()
    &&& lengths[s] > 0
    &&& slot(lengths, s) <= rev15(v) < slot(lengths, s) + pow2((15 - lengths[s]) as nat)
}

pub proof fn lemma_count_bound(lengths: Seq<u8>, l: int, n: int)
    requires
        0 <= n <= lengths.len(),
    ensures
        count(lengths, l, n) <= n,
    decreases n,
{
    if n > 0 {
        lemma_count_bound(lengths, l, n - 1);
    }
}

pub proof fn lemma_count_monotone(lengths: Seq<u8>, l: int, m: int, n: int)
    requires
        0 <= m <= n <= lengths.len(),
    ensures
        count(lengths, l, m) <= count(lengths, l, n),
        m < n && lengths[m] == l ==> count(lengths, l, m) < count(lengths, l, n),
    decreases n,
{
    if m < n {
        lemma_count_monotone(lengths, l, m, n - 1);
    }
}

pub proof fn lemma_kraft_monotone(lengths: Seq<u8>, l: int, m: int)
    requires
        l <= m,
    ensures
        kraft(lengths, l) <= kraft(lengths, m),
    decreases m,
{
    if l < m && m > 1 {
        lemma_kraft_monotone(lengths, l, m - 1);
        assert(0 <= count(lengths, m - 1, lengths.len() as int) * pow2((16 - m) as nat)) by (nonlinear_arith);
    }
}

/// Scaling the first code of `l` bits gives the space taken by shorter codes.
pub proof fn lemma_first_code_scaled(lengths: Seq<u8>, l: int)
    requires
        1 <= l <= 15,
    ensures
        first_code(lengths, l) * pow2((15 - l) as nat) == kraft(lengths, l),
    decreases l,
{
    if l > 1 {
        lemma_first_code_scaled(lengths, l - 1);
        lemma_pow2_unfold((16 - l) as nat);
        let f = first_code(lengths, l - 1);
        let c = count(lengths, l - 1, lengths.len() as int);
        let w = pow2((15 - l) as nat);
        let w2 = pow2((16 - l) as nat);
        assert((15 - (l - 1)) as nat == (16 - l) as nat);
        assert(((16 - l) as nat - 1) as nat == (15 - l) as nat);
        assert((2 * (f + c)) * w == f * w2 + c * w2) by (nonlinear_arith)
            requires
                w2 == 2 * w,
        ;
        assert(first_code(lengths, l) == 2 * (f + c));
        assert(kraft(lengths, l) == kraft(lengths, l - 1) + c * w2);
    } else {
        assert(0 * pow2(14) == 0) by (nonlinear_arith);
    }
}

/// The slot of `s` starts after all codes that precede it.
pub proof fn lemma_slot(lengths: Seq<u8>, s: int)
    requires
        prefix_code(lengths),
        0 <= s < lengths.len(),
        lengths[s] > 0,
    ensures
        slot(lengths, s) == kraft(lengths, lengths[s] as int) + count(lengths, lengths[s] as int, s) * pow2(
            (15 - lengths[s]) as nat,
        ),
        slot(lengths, s) + pow2((15 - lengths[s]) as nat) <= kraft(lengths, lengths[s] + 1),
        slot(lengths, s) + pow2((15 - lengths[s]) as nat) <= pow2(15),
{
    let l = lengths[s] as int;
    let w = pow2((15 - l) as nat);
    let f = first_code(lengths, l);
    let c = count(lengths, l, s);
    let n = count(lengths, l, lengths.len() as int);
    assert(l <= 15);
    lemma_first_code_scaled(lengths, l);
    assert((f + c) * w == f * w + c * w) by (nonlinear_arith);
    lemma_count_monotone(lengths, l, s, lengths.len() as int);
    assert(c * w + w <= n * w) by (nonlinear_arith)
        requires
            c + 1 <= n,
    ;
    assert((16 - (l + 1)) as nat == (15 - l) as nat);
    lemma_kraft_monotone(lengths, l + 1, 16);
}

/// Slots of different symbols do not overlap.
pub proof fn lemma_slots_disjoint(lengths: Seq<u8>, s: int, t: int, v: u32)
    requires
        prefix_code(lengths),
        word_in_slot(lengths, s, v),
        word_in_slot(lengths, t, v),
    ensures
        s == t,
{
    if s != t {
        lemma_slot(lengths, s);
        lemma_slot(lengths, t);
        let ls = lengths[s] as int;
        let lt = lengths[t] as int;
        if ls < lt {
            lemma_kraft_monotone(lengths, ls + 1, lt);
        } else if lt < ls {
            lemma_kraft_monotone(lengths, lt + 1, ls);
        } else {
            let w = pow2((15 - ls) as nat);
            let cs = count(lengths, ls, s);
            let ct = count(lengths, ls, t);
            if s < t {
                lemma_count_monotone(lengths, ls, s, t);
                assert(cs * w + w <= ct * w) by (nonlinear_arith)
                    requires
                        cs + 1 <= ct,
                ;
            } else {
                lemma_count_monotone(lengths, ls, t, s);
                assert(ct * w + w <= cs * w) by (nonlinear_arith)
                    requires
                        ct + 1 <= cs,
                ;
            }
        }
    }
}

pub proof fn lemma_code_bits_split(input: Seq<u8>, p: int, a: nat, b: nat)
    ensures
        code_bits(input, p, a + b) == code_bits(input, p, a) * pow2(b) + code_bits(input, p + a, b),
    decreases b,
{
    if b == 0 {
        lemma2_to64();
    } else {
        let b1 = (b - 1) as nat;
        lemma_code_bits_split(input, p, a, b1);
        lemma_pow2_unfold(b);
        assert((a + b - 1) as nat == a + b1);
        let c = code_bits(input, p, a);
        assert(2 * (c * pow2(b1)) == c * pow2(b)) by (nonlinear_arith)
            requires
                pow2(b) == 2 * pow2(b1),
        ;
    }
}

pub proof fn lemma_code_bits_bound(input: Seq<u8>, p: int, n: nat)
    ensures
        code_bits(input, p, n) < pow2(n),
    decreases n,
{
    if n == 0 {
        lemma2_to64();
    } else {
        lemma_code_bits_bound(input, p, (n - 1) as nat);
        lemma_bit_at_bound(input, p + n - 1);
        lemma_pow2_unfold(n);
    }
}

/// The word at `p`, lowest bit first.
pub open spec fn word_at(input: Seq<u8>, p: int) -> u32 {
    bits_at(input, p, 15) as u32
}

pub proof fn lemma_word_at(input: Seq<u8>, p: int)
    ensures
        bits_at(input, p, 15) < 32768,
        word_at(input, p) < 32768,
        rev15(word_at(input, p)) == code_bits(input, p, 15),
{
    lemma_bits_bound(input, p, 15);
    lemma2_to64();
    let v = word_at(input, p);
    assert forall|i: u32| i < 15 implies (#[trigger] (v >> i)) % 2 == bit_at(input, p + i) by {
        lemma_u32_shr_is_div(v, i);
        lemma_bits_div_mod(input, p, i as nat, 15);
        lemma_bits_div_mod(input, p + i, 1, (15 - i) as nat);
        lemma2_to64();
        reveal_with_fuel(bits_at, 2);
    }
    assert(rev15(v) == (v >> 0u32) % 2 * 16384 + (v >> 1u32) % 2 * 8192 + (v >> 2u32) % 2 * 4096 + (v >> 3u32) % 2
        * 2048 + (v >> 4u32) % 2 * 1024 + (v >> 5u32) % 2 * 512 + (v >> 6u32) % 2 * 256 + (v >> 7u32) % 2 * 128 + (v
        >> 8u32) % 2 * 64 + (v >> 9u32) % 2 * 32 + (v >> 10u32) % 2 * 16 + (v >> 11u32) % 2 * 8 + (v >> 12u32) % 2
        * 4 + (v >> 13u32) % 2 * 2 + (v >> 14u32) % 2) by (bit_vector);
    reveal_with_fuel(code_bits, 16);
    assert(code_bits(input, p, 15) == bit_at(input, p + 0) * 16384 + bit_at(input, p + 1) * 8192 + bit_at(input, p + 2)
        * 4096 + bit_at(input, p + 3) * 2048 + bit_at(input, p + 4) * 1024 + bit_at(input, p + 5) * 512 + bit_at(
        input,
        p + 6,
    ) * 256 + bit_at(input, p + 7) * 128 + bit_at(input, p + 8) * 64 + bit_at(input, p + 9) * 32 + bit_at(
        input,
        p + 10,
    ) * 16 + bit_at(input, p + 11) * 8 + bit_at(input, p + 12) * 4 + bit_at(input, p + 13) * 2 + bit_at(input, p + 14));
    assert((v >> 0u32) % 2 == bit_at(input, p + 0));
}

/// A code matches exactly when the word at `p` lies in the symbol's slot.
pub proof fn lemma_matches_is_slot(lengths: Seq<u8>, s: int, input: Seq<u8>, p: int)
    requires
        prefix_code(lengths),
        0 <= s < lengths.len(),
    ensures
        code_matches(lengths, s, input, p) == word_in_slot(lengths, s, word_at(input, p)),
{
    if lengths[s] > 0 {
        let l = lengths[s] as nat;
        let k = (15 - l) as nat;
        assert(l <= 15);
        lemma_word_at(input, p);
        lemma_code_bits_split(input, p, l, k);
        lemma_code_bits_bound(input, p + l, k);
        let c = code_bits(input, p, l) as int;
        let d = code(lengths, s) as int;
        let w = pow2(k) as int;
        let low = code_bits(input, p + l, k) as int;
        assert(c * w + low >= d * w && c * w + low < d * w + w <==> c == d) by (nonlinear_arith)
            requires
                0 <= low < w,
        ;
    }
}

/// At most one symbol's code stands at a position.
pub proof fn lemma_match_unique(lengths: Seq<u8>, s: int, t: int, input: Seq<u8>, p: int)
    requires
        prefix_code(lengths),
        code_matches(lengths, s, input, p),
        code_matches(lengths, t, input, p),
    ensures
        s == t,
{
    lemma_matches_is_slot(lengths, s, input, p);
    lemma_matches_is_slot(lengths, t, input, p);
    lemma_slots_disjoint(lengths, s, t, word_at(input, p));
}

pub proof fn lemma_symbol_of(lengths: Seq<u8>, s: int, input: Seq<u8>, p: int)
    requires
        prefix_code(lengths),
        code_matches(lengths, s, input, p),
    ensures
        symbol_of(lengths, input, p) == Some(s),
{
    let t = choose|t: int| code_matches(lengths, t, input, p);
    lemma_match_unique(lengths, s, t, input, p);
}

/// A word lies in a slot exactly when its low bits are the slot's code reversed.
pub proof fn lemma_low_bits_in_slot(acc: u32, l: u32, v: u32)
    requires
        1 <= l <= 15,
        acc < 32768,
        v < 32768,
        acc as nat % pow2((15 - l) as nat) == 0,
    ensures
        (v & (((1u32 << l) - 1) as u32) == rev15(acc)) <==> acc <= rev15(v) < acc + pow2((15 - l) as nat),
        (v as nat % pow2(l as nat) == rev15(acc)) <==> acc <= rev15(v) < acc + pow2((15 - l) as nat),
{
    let k = (15 - l) as u32;
    lemma2_to64();
    vstd::bits::lemma_u32_shl_is_mul(1, l);
    vstd::bits::lemma_u32_shl_is_mul(1, k);
    vstd::bits::lemma_u32_low_bits_mask_is_mod(v, l as nat);
    vstd::bits::lemma_u32_low_bits_mask_is_mod(acc, k as nat);
    vstd::bits::lemma_u32_pow2_no_overflow(l as nat);
    vstd::bits::lemma_u32_pow2_no_overflow(k as nat);
    if l < 15 {
        lemma_pow2_strictly_increases(l as nat, 15);
    }
    if k < 15 {
        lemma_pow2_strictly_increases(k as nat, 15);
    }
    let ml = ((1u32 << l) - 1) as u32;
    let mk = ((1u32 << k) - 1) as u32;
    assert(((v & ml) == rev15(acc)) <==> (acc <= rev15(v) && rev15(v) < acc + (1u32 << k))) by (bit_vector)
        requires
            1 <= l <= 15,
            k == 15 - l,
            acc < 32768,
            v < 32768,
            ml == (1u32 << l) - 1,
            mk == (1u32 << k) - 1,
            acc & mk == 0,
    ;
}

pub proof fn lemma_count_block(lengths: Seq<u8>, l: int, from: int, to: int, v: u8)
    requires
        0 <= from <= to <= lengths.len(),
        forall|i: int| from <= i < to ==> #[trigger] lengths[i] == v,
    ensures
        count(lengths, l, to) == count(lengths, l, from) + if v == l { to - from } else { 0 },
    decreases to - from,
{
    if from < to {
        lemma_count_block(lengths, l, from, to - 1, v);
    }
}

proof fn lemma_fixed_kraft(f: Seq<u8>, d: Seq<u8>, l: int)
    requires
        f.len() == 288,
        d.len() == 32,
        1 <= l <= 16,
        forall|l: int| #[trigger]
            count(f, l, 288) == if l == 7 {
                24nat
            } else if l == 8 {
                152nat
            } else if l == 9 {
                112nat
            } else {
                0nat
            },
        forall|l: int| #[trigger]
            count(d, l, 32) == if l == 5 {
                32nat
            } else {
                0nat
            },
    ensures
        kraft(f, l) == if l <= 7 {
            0nat
        } else if l == 8 {
            6144nat
        } else if l == 9 {
            25600nat
        } else {
            32768nat
        },
        kraft(d, l) == if l <= 5 {
            0nat
        } else {
            32768nat
        },
    decreases l,
{
    lemma2_to64();
    if l > 1 {
        lemma_fixed_kraft(f, d, l - 1);
        assert(count(f, l - 1, f.len() as int) == count(f, l - 1, 288));
        assert(count(d, l - 1, d.len() as int) == count(d, l - 1, 32));
        assert(0 * pow2((16 - l) as nat) == 0) by (nonlinear_arith);
        assert(l == 8 ==> pow2((16 - l) as nat) == 256);
        assert(l == 9 ==> pow2((16 - l) as nat) == 128);
        assert(l == 10 ==> pow2((16 - l) as nat) == 64);
        assert(l == 6 ==> pow2((16 - l) as nat) == 1024);
    }
}

/// The fixed codes are complete prefix codes.
pub proof fn lemma_fixed_codes()
    ensures
        tree_error(fixed_literals(), false) is None,
        tree_error(fixed_distances(), false) is None,
{
    let f = fixed_literals();
    let d = fixed_distances();
    lemma2_to64();
    assert forall|l: int| #[trigger] count(f, l, 288) == if l == 7 {
        24nat
    } else if l == 8 {
        152nat
    } else if l == 9 {
        112nat
    } else {
        0nat
    } by {
        lemma_count_block(f, l, 0, 144, 8);
        lemma_count_block(f, l, 144, 256, 9);
        lemma_count_block(f, l, 256, 280, 7);
        lemma_count_block(f, l, 280, 288, 8);
    }
    assert forall|l: int| #[trigger] count(d, l, 32) == if l == 5 {
        32nat
    } else {
        0nat
    } by {
        lemma_count_block(d, l, 0, 32, 5);
    }
    lemma_fixed_kraft(f, d, 16);
}

} // verus!
