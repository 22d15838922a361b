//! Table-driven decoder for canonical prefix codes.
//!
//! Codes are packed highest bit first while [`BitReader`] reads lowest bit
//! first, so the table is keyed by the reversed code. Each table entry is one
//! `u32` whose low byte is the length of the code; an entry of 0 is unused.
//! Codes longer than `LUT_BITS` stand in a list that is searched in order.
use vstd::prelude::*;
use vstd::arithmetic::power2::pow2;
use vstd::arithmetic::power2::lemma2_to64;
use vstd::arithmetic::power2::lemma_pow2_adds;
use vstd::arithmetic::power2::lemma_pow2_unfold;
use vstd::arithmetic::power2::lemma_pow2_strictly_increases;
use crate::deflate::DeflateError;
use crate::deflate::bit_reader::BitReader;
use crate::deflate::bits::{lemma_bits_bound, lemma_bits_div_mod};
use crate::deflate::canonical::{
    MAX_CODE_LEN, LUT_BITS, count, used, kraft, slot, rev15, word_at, word_in_slot, prefix_code, tree_error,
    code_matches, symbol_of, lookup_at, lengths_in_range, lemma_count_bound, lemma_count_monotone,
    lemma_kraft_monotone, lemma_slot, lemma_slots_disjoint, lemma_word_at, lemma_matches_is_slot, lemma_symbol_of,
    lemma_low_bits_in_slot,
};
use crate::deflate::tables::{DISTANCE_BASE, DISTANCE_EXTRA, LENGTH_BASE, LENGTH_EXTRA, lemma_alphabet_bounds};

verus! {

/// Number of entries of the decoding table.
pub const LUT_SIZE: usize = 1024;

/// Flag of a literal in a `LitLen` entry.
pub const HUFFDEC_LITERAL: u32 = 0x8000_0000;

/// Flag of an entry that is neither a literal nor a length nor a distance.
pub const HUFFDEC_EXCEPTIONAL: u32 = 0x8000;

/// The part of an entry that holds the length of its code.
const LENGTH_MASK: u32 = 0xff;

/// What the entries of a decoder hold.
#[derive(Debug, Clone, Copy, PartialEq, Eq, Structural)]
pub enum Encoding {
    /// Bits 31..16: the symbol.
    Simple,
    /// Literals carry `HUFFDEC_LITERAL` and the byte in bits 23..16; lengths
    /// carry their base in bits 24..16 and their extra bits in bits 12..8;
    /// the rest carries `HUFFDEC_EXCEPTIONAL`.
    LitLen,
    /// Distances carry their base in bits 31..16 and their extra bits in bits
    /// 12..8; the rest carries `HUFFDEC_EXCEPTIONAL`.
    Dist,
}

/// The entry that stands for symbol `sym` with a code of `len` bits.
pub open spec fn entry_of(sym: int, len: int, encoding: Encoding) -> int {
    match encoding {
        Encoding::Simple => sym * 0x10000 + len,
        Encoding::LitLen => if sym < 256 {
            HUFFDEC_LITERAL + sym * 0x10000 + len
        } else if sym == 256 {
            HUFFDEC_EXCEPTIONAL + len
        } else if sym <= 285 {
            LENGTH_BASE[sym - 257] * 0x10000 + LENGTH_EXTRA[sym - 257] * 0x100 + len
        } else {
            HUFFDEC_EXCEPTIONAL + sym * 0x10000 + len
        },
        Encoding::Dist => if sym <= 29 {
            DISTANCE_BASE[sym] * 0x10000 + DISTANCE_EXTRA[sym] * 0x100 + len
        } else {
            HUFFDEC_EXCEPTIONAL + len
        },
    }
}

/// A value, a count of extra bits and a code length, packed into one entry.
pub proof fn lemma_pack(a: u32, b: u32, c: u32)
    requires
        a <= 0x7fff,
        b <= 31,
        c <= 255,
    ensures
        (a << 16u32) | (b << 8u32) | c == a * 0x10000 + b * 0x100 + c,
        (a << 16u32) | c == a * 0x10000 + c,
        ({
            let e = (a * 0x10000 + b * 0x100 + c) as u32;
            &&& e >> 16u32 == a
            &&& (e >> 8u32) & 0x1fu32 == b
            &&& e & 0xffu32 == c
            &&& e & 0x8000_0000u32 == 0
            &&& e & 0x8000u32 == 0
        }),
{
    let e = (a * 0x10000 + b * 0x100 + c) as u32;
    assert((a << 16u32) | (b << 8u32) | c == a * 0x10000 + b * 0x100 + c && (a << 16u32) | c == a * 0x10000 + c)
        by (bit_vector)
        requires
            a <= 0x7fff,
            b <= 31,
            c <= 255,
    ;
    assert(e >> 16u32 == a && (e >> 8u32) & 0x1fu32 == b && e & 0xffu32 == c && e & 0x8000_0000u32 == 0 && e & 0x8000u32
        == 0) by (bit_vector)
        requires
            a <= 0x7fff,
            b <= 31,
            c <= 255,
            e == a * 0x10000 + b * 0x100 + c,
    ;
}

/// A literal and its code length, packed into one entry.
pub proof fn lemma_pack_literal(a: u32, c: u32)
    requires
        a <= 255,
        c <= 255,
    ensures
        0x8000_0000u32 | (a << 16u32) | c == 0x8000_0000u32 + a * 0x10000 + c,
        ({
            let e = (0x8000_0000u32 + a * 0x10000 + c) as u32;
            &&& (e >> 16u32) & 0xffu32 == a
            &&& e & 0xffu32 == c
            &&& e & 0x8000_0000u32 != 0
        }),
{
    let e = (0x8000_0000u32 + a * 0x10000 + c) as u32;
    assert(0x8000_0000u32 | (a << 16u32) | c == 0x8000_0000u32 + a * 0x10000 + c) by (bit_vector)
        requires
            a <= 255,
            c <= 255,
    ;
    assert((e >> 16u32) & 0xffu32 == a && e & 0xffu32 == c && e & 0x8000_0000u32 != 0) by (bit_vector)
        requires
            a <= 255,
            c <= 255,
            e == 0x8000_0000u32 + a * 0x10000 + c,
    ;
}

/// An exceptional entry: a value and a code length under the flag.
pub proof fn lemma_pack_exceptional(a: u32, c: u32)
    requires
        a <= 0x7fff,
        c <= 255,
    ensures
        0x8000u32 | (a << 16u32) | c == 0x8000u32 + a * 0x10000 + c,
        0x8000u32 | c == 0x8000u32 + c,
        ({
            let e = (0x8000u32 + a * 0x10000 + c) as u32;
            &&& e >> 16u32 == a
            &&& e & 0xffu32 == c
            &&& e & 0x8000_0000u32 == 0
            &&& e & 0x8000u32 != 0
        }),
{
    let e = (0x8000u32 + a * 0x10000 + c) as u32;
    assert(0x8000u32 | (a << 16u32) | c == 0x8000u32 + a * 0x10000 + c && 0x8000u32 | c == 0x8000u32 + c)
        by (bit_vector)
        requires
            a <= 0x7fff,
            c <= 255,
    ;
    assert(e >> 16u32 == a && e & 0xffu32 == c && e & 0x8000_0000u32 == 0 && e & 0x8000u32 != 0) by (bit_vector)
        requires
            a <= 0x7fff,
            c <= 255,
            e == 0x8000u32 + a * 0x10000 + c,
    ;
}

/// The low byte of an entry is the code length, so that a used entry is never 0.
proof fn lemma_entry_length(sym: int, len: int, encoding: Encoding)
    requires
        0 <= sym < 288,
        1 <= len <= 15,
    ensures
        0 < entry_of(sym, len, encoding) <= u32::MAX,
        (entry_of(sym, len, encoding) as u32) & LENGTH_MASK == len,
{
    lemma_alphabet_bounds();
    let c = len as u32;
    match encoding {
        Encoding::Simple => {
            lemma_pack(sym as u32, 0, c);
        },
        Encoding::LitLen => {
            if sym < 256 {
                lemma_pack_literal(sym as u32, c);
            } else if sym == 256 {
                lemma_pack_exceptional(0, c);
            } else if sym <= 285 {
                lemma_pack(LENGTH_BASE[sym - 257] as u32, LENGTH_EXTRA[sym - 257] as u32, c);
            } else {
                lemma_pack_exceptional(sym as u32, c);
            }
        },
        Encoding::Dist => {
            if sym <= 29 {
                lemma_pack(DISTANCE_BASE[sym] as u32, DISTANCE_EXTRA[sym] as u32, c);
            } else {
                lemma_pack_exceptional(0, c);
            }
        },
    }
}

/// Packs a symbol and the length of its code into an entry.
fn encode_entry(sym: u16, length: u8, encoding: Encoding) -> (e: u32)
    requires
        sym < 288,
        1 <= length <= 15,
    ensures
        e == entry_of(sym as int, length as int, encoding),
{
    let len: u32 = length as u32;
    proof {
        lemma_alphabet_bounds();
    }
    match encoding {
        Encoding::Simple => {
            proof {
                lemma_pack(sym as u32, 0, len);
            }
            ((sym as u32) << 16) | len
        },
        Encoding::LitLen => {
            if sym < 256 {
                proof {
                    lemma_pack_literal(sym as u32, len);
                }
                HUFFDEC_LITERAL | ((sym as u32) << 16) | len
            } else if sym == 256 {
                proof {
                    lemma_pack_exceptional(0, len);
                }
                HUFFDEC_EXCEPTIONAL | len
            } else if sym <= 285 {
                let li: usize = (sym - 257) as usize;
                let base: u32 = LENGTH_BASE[li] as u32;
                let extra: u32 = LENGTH_EXTRA[li] as u32;
                proof {
                    lemma_pack(base, extra, len);
                }
                (base << 16) | (extra << 8) | len
            } else {
                proof {
                    lemma_pack_exceptional(sym as u32, len);
                }
                HUFFDEC_EXCEPTIONAL | ((sym as u32) << 16) | len
            }
        },
        Encoding::Dist => {
            if sym <= 29 {
                let base: u32 = DISTANCE_BASE[sym as usize] as u32;
                let extra: u32 = DISTANCE_EXTRA[sym as usize] as u32;
                proof {
                    lemma_pack(base, extra, len);
                }
                (base << 16) | (extra << 8) | len
            } else {
                proof {
                    lemma_pack_exceptional(0, len);
                }
                HUFFDEC_EXCEPTIONAL | len
            }
        },
    }
}

/// A code that is too long for the table.
#[derive(Debug, Clone, Copy)]
struct LongCode {
    reversed: u32,
    length: u8,
    entry: u32,
}

/// The symbols that precede the `i`-th symbol with a code of `l` bits.
spec fn precedes(lengths: Seq<u8>, s: int, l: int, i: int) -> bool {
    &&& 0 <= s < lengths.len()
    &&& lengths[s] > 0
    &&& lengths[s] < l || (lengths[s] == l && count(lengths, l, s) < i)
}

/// Symbol `s` has a code that fits the table, and table index `idx` begins with it.
spec fn fills(lengths: Seq<u8>, s: int, idx: int) -> bool {
    lengths[s] <= LUT_BITS && word_in_slot(lengths, s, idx as u32)
}

spec fn long_code_of(lengths: Seq<u8>, s: int, encoding: Encoding) -> LongCode {
    LongCode {
        reversed: rev15(slot(lengths, s) as u32),
        length: lengths[s],
        entry: entry_of(s, lengths[s] as int, encoding) as u32,
    }
}

/// `c` is the long code of some symbol before the `i`-th of length `l`.
spec fn is_long_code(c: LongCode, lengths: Seq<u8>, encoding: Encoding, l: int, i: int) -> bool {
    exists|s: int|
        #[trigger] precedes(lengths, s, l, i) && lengths[s] > LUT_BITS && c == long_code_of(lengths, s, encoding)
}

/// The `i`-th symbol with a code of `l` bits.
spec fn ranked(lengths: Seq<u8>, l: int, i: int) -> int {
    choose|t: int| 0 <= t < lengths.len() && #[trigger] lengths[t] == l && count(lengths, l, t) == i
}

/// The codes too long for the table, of the symbols before the `i`-th of length
/// `l`: each once, by length and then by symbol.
spec fn long_list(lengths: Seq<u8>, encoding: Encoding, l: int, i: int) -> Seq<LongCode>
    decreases l, i,
{
    if l <= LUT_BITS {
        Seq::empty()
    } else if i > 0 {
        long_list(lengths, encoding, l, i - 1).push(long_code_of(lengths, ranked(lengths, l, i - 1), encoding))
    } else {
        long_list(lengths, encoding, l - 1, count(lengths, l - 1, lengths.len() as int) as int)
    }
}

proof fn lemma_ranked_is(lengths: Seq<u8>, s: int)
    requires
        0 <= s < lengths.len(),
        lengths[s] > 0,
    ensures
        ranked(lengths, lengths[s] as int, count(lengths, lengths[s] as int, s) as int) == s,
{
    let l = lengths[s] as int;
    let i = count(lengths, l, s) as int;
    assert(lengths[s] == l && count(lengths, l, s) == i);
    let t = ranked(lengths, l, i);
    if t < s {
        lemma_count_monotone(lengths, l, t, s);
    } else if s < t {
        lemma_count_monotone(lengths, l, s, t);
    }
}

proof fn lemma_no_long_codes(encoding: Encoding, l: int)
    ensures
        long_list(Seq::<u8>::empty(), encoding, l, 0) == Seq::<LongCode>::empty(),
    decreases l,
{
    if l > LUT_BITS {
        lemma_no_long_codes(encoding, l - 1);
    }
}

/// The two tables hold the codes of the symbols before the `i`-th of length
/// `l`, and nothing else.
spec fn holds_codes(
    lut: Seq<u32>,
    long_codes: Seq<LongCode>,
    lengths: Seq<u8>,
    encoding: Encoding,
    l: int,
    i: int,
) -> bool {
    &&& lut.len() == LUT_SIZE
    &&& forall|s: int, idx: int|
        0 <= idx < LUT_SIZE && precedes(lengths, s, l, i) && #[trigger] fills(lengths, s, idx) ==> lut[idx]
            == entry_of(s, lengths[s] as int, encoding)
    &&& forall|idx: int|
        0 <= idx < LUT_SIZE && #[trigger] lut[idx] != 0 ==> exists|s: int|
            precedes(lengths, s, l, i) && #[trigger] fills(lengths, s, idx) && lut[idx] == entry_of(
                s,
                lengths[s] as int,
                encoding,
            )
    &&& forall|s: int|
        #[trigger] precedes(lengths, s, l, i) && lengths[s] > LUT_BITS ==> exists|k: int|
            0 <= k < long_codes.len() && #[trigger] long_codes[k] == long_code_of(lengths, s, encoding)
    &&& forall|k: int|
        0 <= k < long_codes.len() ==> is_long_code(#[trigger] long_codes[k], lengths, encoding, l, i)
    &&& long_codes == long_list(lengths, encoding, l, i)
}

/// How many of the first `n` symbols have a code shorter than `l` bits.
spec fn shorter(lengths: Seq<u8>, l: int, n: int) -> nat
    decreases l,
{
    if l <= 1 {
        0
    } else {
        shorter(lengths, l - 1, n) + count(lengths, l - 1, n)
    }
}

proof fn lemma_shorter_step(lengths: Seq<u8>, l: int, n: int)
    requires
        0 < n <= lengths.len(),
    ensures
        shorter(lengths, l, n) == shorter(lengths, l, n - 1) + if 1 <= lengths[n - 1] < l { 1nat } else { 0nat },
    decreases l,
{
    if l > 1 {
        lemma_shorter_step(lengths, l - 1, n);
    }
}

proof fn lemma_shorter_bound(lengths: Seq<u8>, l: int, n: int)
    requires
        0 <= n <= lengths.len(),
    ensures
        shorter(lengths, l, n) <= n,
    decreases n,
{
    if n > 0 {
        lemma_shorter_bound(lengths, l, n - 1);
        lemma_shorter_step(lengths, l, n);
    } else {
        lemma_shorter_none(lengths, l);
    }
}

proof fn lemma_shorter_none(lengths: Seq<u8>, l: int)
    ensures
        shorter(lengths, l, 0) == 0,
    decreases l,
{
    if l > 1 {
        lemma_shorter_none(lengths, l - 1);
    }
}

proof fn lemma_shorter_monotone(lengths: Seq<u8>, l: int, m: int, n: int)
    requires
        l <= m,
    ensures
        shorter(lengths, l, n) <= shorter(lengths, m, n),
    decreases m,
{
    if l < m && m > 1 {
        lemma_shorter_monotone(lengths, l, m - 1, n);
    }
}

/// Where symbol `t` stands when symbols are sorted by length, then by value.
spec fn sorted_pos(lengths: Seq<u8>, t: int) -> nat {
    shorter(lengths, lengths[t] as int, lengths.len() as int) + count(lengths, lengths[t] as int, t)
}

proof fn lemma_sorted_pos(lengths: Seq<u8>, t: int)
    requires
        0 <= t < lengths.len(),
        lengths_in_range(lengths),
        lengths[t] > 0,
    ensures
        0 <= sorted_pos(lengths, t) < lengths.len(),
        sorted_pos(lengths, t) < shorter(lengths, lengths[t] + 1, lengths.len() as int),
{
    let l = lengths[t] as int;
    let n = lengths.len() as int;
    lemma_count_monotone(lengths, l, t, n);
    lemma_shorter_monotone(lengths, l + 1, 16, n);
    lemma_shorter_bound(lengths, 16, n);
}

proof fn lemma_sorted_pos_distinct(lengths: Seq<u8>, s: int, t: int)
    requires
        0 <= s < t < lengths.len(),
        lengths_in_range(lengths),
        lengths[s] > 0,
        lengths[t] > 0,
    ensures
        sorted_pos(lengths, s) != sorted_pos(lengths, t),
{
    let n = lengths.len() as int;
    lemma_sorted_pos(lengths, s);
    lemma_sorted_pos(lengths, t);
    if lengths[s] < lengths[t] {
        lemma_shorter_monotone(lengths, lengths[s] + 1, lengths[t] as int, n);
    } else if lengths[t] < lengths[s] {
        lemma_shorter_monotone(lengths, lengths[t] + 1, lengths[s] as int, n);
    } else {
        lemma_count_monotone(lengths, lengths[s] as int, s, t);
    }
}

/// Some symbol is the `i`-th with a code of `l` bits.
proof fn lemma_ranked(lengths: Seq<u8>, l: int, i: int, n: int) -> (t: int)
    requires
        0 <= n <= lengths.len(),
        0 <= i < count(lengths, l, n),
    ensures
        0 <= t < n,
        lengths[t] == l,
        count(lengths, l, t) == i,
    decreases n,
{
    if lengths[n - 1] == l && count(lengths, l, n - 1) == i {
        n - 1
    } else {
        lemma_ranked(lengths, l, i, n - 1)
    }
}

/// All codes of length `l` come before any of length `l + 1`.
proof fn lemma_next_length(
    lut: Seq<u32>,
    long_codes: Seq<LongCode>,
    lengths: Seq<u8>,
    encoding: Encoding,
    l: int,
)
    requires
        holds_codes(lut, long_codes, lengths, encoding, l, count(lengths, l, lengths.len() as int) as int),
    ensures
        holds_codes(lut, long_codes, lengths, encoding, l + 1, 0),
{
    let c = count(lengths, l, lengths.len() as int) as int;
    assert forall|s: int| #[trigger] precedes(lengths, s, l + 1, 0) == precedes(lengths, s, l, c) by {
        if 0 <= s < lengths.len() && lengths[s] == l {
            lemma_count_monotone(lengths, l, s, lengths.len() as int);
        }
    }
    assert forall|idx: int|
        0 <= idx < LUT_SIZE && #[trigger] lut[idx] != 0 implies exists|s: int|
        precedes(lengths, s, l + 1, 0) && #[trigger] fills(lengths, s, idx) && lut[idx] == entry_of(
            s,
            lengths[s] as int,
            encoding,
        ) by {
        let s = choose|s: int|
            precedes(lengths, s, l, c) && #[trigger] fills(lengths, s, idx) && lut[idx] == entry_of(
                s,
                lengths[s] as int,
                encoding,
            );
        assert(precedes(lengths, s, l + 1, 0));
    }
    assert forall|k: int| 0 <= k < long_codes.len() implies is_long_code(
        #[trigger] long_codes[k],
        lengths,
        encoding,
        l + 1,
        0,
    ) by {
        assert(is_long_code(long_codes[k], lengths, encoding, l, c));
        let s = choose|s: int|
            #[trigger] precedes(lengths, s, l, c) && lengths[s] > LUT_BITS && long_codes[k] == long_code_of(
                lengths,
                s,
                encoding,
            );
        assert(precedes(lengths, s, l + 1, 0));
    }
}

/// Reversing the bits of a word moves bit `b` to bit `14 - b`.
proof fn lemma_rev15_bit(r: u32, b: u32)
    requires
        r < 32768,
        b < 15,
    ensures
        r & (1u32 << b) != 0 ==> rev15(r ^ (1u32 << b)) + (1u32 << ((14 - b) as u32)) == rev15(r) && (r ^ (1u32 << b)) < 32768,
        r & (1u32 << b) == 0 ==> rev15(r | (1u32 << b)) == rev15(r) + (1u32 << ((14 - b) as u32)) && (r | (1u32 << b)) < 32768,
{
    let c = (14 - b) as u32;
    assert((r & (1u32 << b) != 0 ==> rev15(r ^ (1u32 << b)) + (1u32 << c) == rev15(r) && (r ^ (1u32 << b)) < 32768) && (r
        & (1u32 << b) == 0 ==> rev15(r | (1u32 << b)) == rev15(r) + (1u32 << c) && (r | (1u32 << b)) < 32768)) by (bit_vector)
        requires
            r < 32768,
            b < 15,
            c == 14 - b,
    ;
}

proof fn lemma_rev15_involutive(r: u32)
    requires
        r < 32768,
    ensures
        rev15(rev15(r)) == r,
        rev15(r) < 32768,
{
    assert(rev15(rev15(r)) == r && rev15(r) < 32768) by (bit_vector)
        requires
            r < 32768,
    ;
}

/// Steps a reversed code of `len` bits to the next one.
fn next_reversed(rev: u32, len: u32) -> (r: u32)
    requires
        1 <= len <= 15,
        rev < 32768,
    ensures
        r < 32768,
        rev15(rev) + pow2((15 - len) as nat) < 32768 ==> rev15(r) == rev15(rev) + pow2((15 - len) as nat),
{
    let mut r: u32 = rev;
    let mut b: u32 = len - 1;
    let mut bit: u32 = 1u32 << b;
    proof {
        lemma2_to64();
        let k = (15 - len) as u32;
        if k < 15 {
            lemma_pow2_strictly_increases(k as nat, 15);
        }
        vstd::bits::lemma_u32_shl_is_mul(1, k);
        lemma_rev15_involutive(r);
    }
    let ghost target = rev15(rev) + pow2((15 - len) as nat);
    while r & bit != 0
        invariant
            b < 15,
            bit == 1u32 << b,
            r < 32768,
            rev15(r) + (1u32 << ((14 - b) as u32)) == target,
            target == rev15(rev) + pow2((15 - len) as nat),
        decreases b,
    {
        proof {
            lemma_rev15_bit(r, b);
            let c = (14 - b) as u32;
            let rx = r ^ bit;
            lemma_rev15_involutive(rx);
            assert(b > 0 ==> (1u32 << b) >> 1u32 == 1u32 << ((b - 1) as u32) && 1u32 << ((c + 1) as u32) == (1u32 << c) + (1u32
                << c)) by (bit_vector)
                requires
                    b < 15,
                    c == 14 - b,
            ;
            assert((1u32 << 0u32) >> 1u32 == 0u32) by (bit_vector);
            assert(1u32 << 14u32 == 16384u32) by (bit_vector);
            if b == 0 {
                assert(c == 14u32);
                assert(target >= 32768);
            }
        }
        r = r ^ bit;
        bit = bit >> 1;
        if b == 0 {
            return r;
        }
        b = b - 1;
    }
    proof {
        lemma_rev15_bit(r, b);
    }
    r | bit
}

/// A slot starts on a multiple of its size.
proof fn lemma_slot_aligned(lengths: Seq<u8>, s: int)
    requires
        prefix_code(lengths),
        0 <= s < lengths.len(),
        lengths[s] > 0,
    ensures
        slot(lengths, s) % pow2((15 - lengths[s]) as nat) == 0,
        slot(lengths, s) < 32768,
        rev15(slot(lengths, s) as u32) < 32768,
        rev15(slot(lengths, s) as u32) < pow2(lengths[s] as nat),
        word_in_slot(lengths, s, rev15(slot(lengths, s) as u32)),
{
    lemma_slot(lengths, s);
    lemma2_to64();
    let w = pow2((15 - lengths[s]) as nat);
    vstd::arithmetic::power2::lemma_pow2_pos((15 - lengths[s]) as nat);
    vstd::arithmetic::power2::lemma_pow2_pos(lengths[s] as nat);
    vstd::arithmetic::div_mod::lemma_mod_multiples_basic(crate::deflate::canonical::code(lengths, s) as int, w as int);
    let acc = slot(lengths, s) as u32;
    lemma_rev15_involutive(acc);
    lemma_low_bits_in_slot(acc, lengths[s] as u32, rev15(acc));
}

/// Adds the code of `sym` to the tables; `rev` is that code reversed.
fn insert_code(
    lut: &mut [u32; LUT_SIZE],
    long_codes: &mut Vec<LongCode>,
    lengths: &[u8],
    encoding: Encoding,
    sym: u16,
    rev: u32,
)
    requires
        prefix_code(lengths@),
        sym < lengths@.len(),
        lengths@[sym as int] > 0,
        rev == rev15(slot(lengths@, sym as int) as u32),
        holds_codes(
            old(lut)@,
            old(long_codes)@,
            lengths@,
            encoding,
            lengths@[sym as int] as int,
            count(lengths@, lengths@[sym as int] as int, sym as int) as int,
        ),
    ensures
        holds_codes(
            final(lut)@,
            final(long_codes)@,
            lengths@,
            encoding,
            lengths@[sym as int] as int,
            (count(lengths@, lengths@[sym as int] as int, sym as int) + 1) as int,
        ),
{
    let len_u8: u8 = lengths[sym as usize];
    let len: u32 = len_u8 as u32;
    let entry: u32 = encode_entry(sym, len_u8, encoding);
    let ghost ls = lengths@;
    let ghost me = sym as int;
    let ghost l = len as int;
    let ghost i = count(ls, l, me) as int;
    let ghost lut0 = lut@;
    let ghost long0 = long_codes@;
    proof {
        lemma_slot_aligned(ls, me);
        lemma2_to64();
        lemma_entry_length(me, l, encoding);
        assert forall|s: int| #[trigger] precedes(ls, s, l, i + 1) == (precedes(ls, s, l, i) || s == me) by {
            if 0 <= s < ls.len() && ls[s] == l && s != me {
                if s < me {
                    lemma_count_monotone(ls, l, s, me);
                } else {
                    lemma_count_monotone(ls, l, me, s);
                }
            }
        }
        assert(precedes(ls, me, l, i + 1));
        lemma_ranked_is(ls, me);
    }
    if len <= LUT_BITS {
        let stride: usize = 1usize << len;
        let ghost st = stride as int;
        proof {
            assert(1usize << len == 1u32 << len) by (bit_vector)
                requires
                    len <= 10,
            ;
            vstd::bits::lemma_u32_shl_is_mul(1, len);
            if len < 10 {
                lemma_pow2_strictly_increases(len as nat, 10);
            }
        }
        let mut idx: usize = rev as usize;
        proof {
            vstd::arithmetic::div_mod::lemma_small_mod(rev as nat, st as nat);
            assert forall|j: int| 0 <= j < rev implies #[trigger] (j % st) != rev by {
                vstd::arithmetic::div_mod::lemma_small_mod(j as nat, st as nat);
            }
        }
        while idx < LUT_SIZE
            invariant
                0 < st <= 1024,
                st == stride,
                rev < st,
                idx as int % st == rev,
                idx < 2048,
                lut@.len() == LUT_SIZE,
                lut0.len() == LUT_SIZE,
                forall|j: int| 0 <= j < LUT_SIZE ==> #[trigger] lut@[j] == if j < idx && j % st == rev {
                    entry
                } else {
                    lut0[j]
                },
            decreases 2048 - idx,
        {
            let ghost lut1 = lut@;
            lut[idx] = entry;
            proof {
                let a = idx as int;
                assert forall|j: int| 0 <= j < LUT_SIZE implies #[trigger] lut@[j] == if j < a + st && j % st == rev {
                    entry
                } else {
                    lut0[j]
                } by {
                    if a < j < a + st && j % st == rev {
                        vstd::arithmetic::div_mod::lemma_fundamental_div_mod(a, st);
                        vstd::arithmetic::div_mod::lemma_fundamental_div_mod(j, st);
                        let qa = a / st;
                        let qj = j / st;
                        assert(false) by (nonlinear_arith)
                            requires
                                a == st * qa + rev,
                                j == st * qj + rev,
                                a < j < a + st,
                                st > 0,
                        ;
                    }
                }
                vstd::arithmetic::div_mod::lemma_mod_add_multiples_vanish(a, st);
            }
            idx = idx + stride;
        }
        proof {
            assert forall|j: int| 0 <= j < LUT_SIZE implies (j % st == rev) == #[trigger] fills(ls, me, j) by {
                lemma_low_bits_in_slot(slot(ls, me) as u32, len, j as u32);
            }
            assert forall|s: int, idx: int|
                0 <= idx < LUT_SIZE && precedes(ls, s, l, i + 1) && #[trigger] fills(ls, s, idx) implies lut@[idx]
                == entry_of(s, ls[s] as int, encoding) by {
                if s != me {
                    assert(precedes(ls, s, l, i));
                    if fills(ls, me, idx) {
                        lemma_slots_disjoint(ls, s, me, idx as u32);
                    }
                }
            }
            assert forall|idx: int| 0 <= idx < LUT_SIZE && #[trigger] lut@[idx] != 0 implies exists|s: int|
                precedes(ls, s, l, i + 1) && #[trigger] fills(ls, s, idx) && lut@[idx] == entry_of(
                    s,
                    ls[s] as int,
                    encoding,
                ) by {
                if fills(ls, me, idx) {
                } else {
                    assert(lut0[idx] != 0);
                    let s = choose|s: int|
                        precedes(ls, s, l, i) && #[trigger] fills(ls, s, idx) && lut0[idx] == entry_of(
                            s,
                            ls[s] as int,
                            encoding,
                        );
                    assert(precedes(ls, s, l, i + 1) && fills(ls, s, idx));
                }
            }
            assert forall|k: int| 0 <= k < long_codes@.len() implies is_long_code(
                #[trigger] long_codes@[k],
                ls,
                encoding,
                l,
                i + 1,
            ) by {
                assert(is_long_code(long0[k], ls, encoding, l, i));
                let s = choose|s: int|
                    #[trigger] precedes(ls, s, l, i) && ls[s] > LUT_BITS && long0[k] == long_code_of(ls, s, encoding);
                assert(precedes(ls, s, l, i + 1));
            }
        }
    } else {
        long_codes.push(LongCode { reversed: rev, length: len_u8, entry });
        proof {
            assert(long_codes@.last() == long_code_of(ls, me, encoding));
            assert forall|k: int| 0 <= k < long_codes@.len() implies is_long_code(
                #[trigger] long_codes@[k],
                ls,
                encoding,
                l,
                i + 1,
            ) by {
                if k < long0.len() {
                    assert(is_long_code(long0[k], ls, encoding, l, i));
                    let s = choose|s: int|
                        #[trigger] precedes(ls, s, l, i) && ls[s] > LUT_BITS && long0[k] == long_code_of(ls, s, encoding);
                    assert(precedes(ls, s, l, i + 1));
                }
            }
            assert forall|s: int| #[trigger] precedes(ls, s, l, i + 1) && ls[s] > LUT_BITS implies exists|k: int|
                0 <= k < long_codes@.len() && #[trigger] long_codes@[k] == long_code_of(ls, s, encoding) by {
                if s == me {
                    assert(long_codes@[long0.len() as int] == long_code_of(ls, s, encoding));
                } else {
                    assert(precedes(ls, s, l, i));
                    let k = choose|k: int| 0 <= k < long0.len() && #[trigger] long0[k] == long_code_of(ls, s, encoding);
                    assert(long_codes@[k] == long0[k]);
                }
            }
            assert forall|idx: int| 0 <= idx < LUT_SIZE && #[trigger] lut@[idx] != 0 implies exists|s: int|
                precedes(ls, s, l, i + 1) && #[trigger] fills(ls, s, idx) && lut@[idx] == entry_of(
                    s,
                    ls[s] as int,
                    encoding,
                ) by {
                let s = choose|s: int|
                    precedes(ls, s, l, i) && #[trigger] fills(ls, s, idx) && lut0[idx] == entry_of(
                        s,
                        ls[s] as int,
                        encoding,
                    );
                assert(precedes(ls, s, l, i + 1) && fills(ls, s, idx));
            }
        }
    }
}

/// The number of codes of each length.
fn count_lengths(lengths: &[u8]) -> (r: Result<[u32; 16], DeflateError>)
    requires
        lengths@.len() <= 288,
    ensures
        !lengths_in_range(lengths@) ==> r == Err::<[u32; 16], DeflateError>(
            DeflateError::Invalid("huffman code length > 15"),
        ),
        lengths_in_range(lengths@) ==> r is Ok && forall|l: int|
            1 <= l <= 15 ==> #[trigger] r->Ok_0@[l] == count(lengths@, l, lengths@.len() as int),
{
    let mut bl_count: [u32; 16] = [0u32; 16];
    let mut i: usize = 0;
    while i < lengths.len()
        invariant
            i <= lengths@.len() <= 288,
            forall|j: int| 0 <= j < i ==> #[trigger] lengths@[j] <= 15,
            forall|l: int| 0 <= l <= 15 ==> #[trigger] bl_count@[l] == count(lengths@, l, i as int),
        decreases lengths@.len() - i,
    {
        let l: u8 = lengths[i];
        if l as u32 > MAX_CODE_LEN {
            return Err(DeflateError::Invalid("huffman code length > 15"));
        }
        proof {
            lemma_count_bound(lengths@, l as int, i as int);
        }
        bl_count[l as usize] = bl_count[l as usize] + 1;
        i = i + 1;
    }
    Ok(bl_count)
}

/// The number of symbols that have a code.
pub(crate) fn count_used(lengths: &[u8]) -> (n: u32)
    requires
        lengths@.len() <= 288,
    ensures
        n == used(lengths@, lengths@.len() as int),
        n <= 288,
{
    let mut n: u32 = 0;
    let mut i: usize = 0;
    while i < lengths.len()
        invariant
            i <= lengths@.len() <= 288,
            n <= i,
            n == used(lengths@, i as int),
        decreases lengths@.len() - i,
    {
        if lengths[i] > 0 {
            n = n + 1;
        }
        i = i + 1;
    }
    n
}

/// The share of the code space that all codes take up.
fn code_space(bl_count: &[u32; 16], lengths: &[u8]) -> (total: u64)
    requires
        lengths@.len() <= 288,
        forall|l: int| 1 <= l <= 15 ==> #[trigger] bl_count@[l] == count(lengths@, l, lengths@.len() as int),
    ensures
        total == kraft(lengths@, 16),
{
    let mut total: u64 = 0;
    let mut l: usize = 1;
    while l <= 15
        invariant
            1 <= l <= 16,
            lengths@.len() <= 288,
            forall|l: int| 1 <= l <= 15 ==> #[trigger] bl_count@[l] == count(lengths@, l, lengths@.len() as int),
            total == kraft(lengths@, l as int),
            total <= l * 288 * 16384,
        decreases 16 - l,
    {
        let c: u64 = bl_count[l] as u64;
        let shift: u64 = 15 - l as u64;
        proof {
            lemma_count_bound(lengths@, l as int, lengths@.len() as int);
            lemma2_to64();
            if shift < 14 {
                lemma_pow2_strictly_increases(shift as nat, 14);
            }
            assert(c * pow2(shift as nat) <= 288 * 16384) by (nonlinear_arith)
                requires
                    c <= 288,
                    pow2(shift as nat) <= 16384,
            ;
            vstd::bits::lemma_u64_shl_is_mul(c, shift);
            assert((16 - (l + 1)) as nat == shift as nat);
        }
        total = total + (c << shift);
        l = l + 1;
    }
    total
}

/// The symbols that have a code, sorted by code length, then by value.
fn sort_symbols(bl_count: &[u32; 16], lengths: &[u8]) -> (sorted: Vec<u16>)
    requires
        lengths@.len() <= 288,
        lengths_in_range(lengths@),
        forall|l: int| 1 <= l <= 15 ==> #[trigger] bl_count@[l] == count(lengths@, l, lengths@.len() as int),
    ensures
        sorted@.len() == 288,
        forall|t: int|
            0 <= t < lengths@.len() && #[trigger] lengths@[t] > 0 ==> sorted@[sorted_pos(lengths@, t) as int] == t,
{
    let ghost ls = lengths@;
    let ghost n = lengths@.len() as int;
    let mut cursors: [u32; 17] = [0u32; 17];
    let mut l: usize = 1;
    while l <= 15
        invariant
            1 <= l <= 16,
            n == ls.len() <= 288,
            ls == lengths@,
            forall|l: int| 1 <= l <= 15 ==> #[trigger] bl_count@[l] == count(ls, l, n),
            forall|k: int| 1 <= k <= l ==> #[trigger] cursors@[k] == shorter(ls, k, n),
        decreases 16 - l,
    {
        proof {
            lemma_shorter_bound(ls, l + 1, n);
        }
        cursors[l + 1] = cursors[l] + bl_count[l];
        l = l + 1;
    }
    let mut sorted: Vec<u16> = Vec::with_capacity(288);
    let mut k: usize = 0;
    while k < 288
        invariant
            k <= 288,
            sorted@.len() == k,
        decreases 288 - k,
    {
        sorted.push(0);
        k = k + 1;
    }
    let mut sym: usize = 0;
    while sym < lengths.len()
        invariant
            sym <= n,
            n == ls.len() <= 288,
            ls == lengths@,
            lengths_in_range(ls),
            sorted@.len() == 288,
            forall|k: int| 1 <= k <= 15 ==> #[trigger] cursors@[k] == shorter(ls, k, n) + count(ls, k, sym as int),
            forall|t: int| 0 <= t < sym && #[trigger] ls[t] > 0 ==> sorted@[sorted_pos(ls, t) as int] == t,
        decreases n - sym,
    {
        let l: usize = lengths[sym] as usize;
        if l != 0 {
            assert(l <= 15);
            proof {
                lemma_sorted_pos(ls, sym as int);
                assert forall|t: int| 0 <= t < sym && #[trigger] ls[t] > 0 implies sorted_pos(ls, t) != sorted_pos(
                    ls,
                    sym as int,
                ) && sorted_pos(ls, t) < n by {
                    lemma_sorted_pos_distinct(ls, t, sym as int);
                    lemma_sorted_pos(ls, t);
                }
            }
            let at: usize = cursors[l] as usize;
            sorted.set(at, sym as u16);
            cursors[l] = cursors[l] + 1;
        }
        sym = sym + 1;
    }
    sorted
}

/// Fills the tables with the codes that `lengths` describes.
fn build_into(
    lut: &mut [u32; LUT_SIZE],
    long_codes: &mut Vec<LongCode>,
    lengths: &[u8],
    strict: bool,
    encoding: Encoding,
) -> (r: Result<(), DeflateError>)
    requires
        lengths@.len() <= 288,
    ensures
        tree_error(lengths@, strict) is Some ==> r == Err::<(), DeflateError>(tree_error(lengths@, strict)->Some_0)
            && final(lut)@ == Seq::new(LUT_SIZE as nat, |i: int| 0u32) && final(long_codes)@.len() == 0,
        tree_error(lengths@, strict) is None ==> r is Ok && prefix_code(lengths@) && holds_codes(
            final(lut)@,
            final(long_codes)@,
            lengths@,
            encoding,
            16,
            0,
        ),
{
    let mut z: usize = 0;
    while z < LUT_SIZE
        invariant
            z <= LUT_SIZE,
            lut@.len() == LUT_SIZE,
            forall|j: int| 0 <= j < z ==> #[trigger] lut@[j] == 0,
        decreases LUT_SIZE - z,
    {
        lut[z] = 0;
        z = z + 1;
    }
    assert(lut@ =~= Seq::new(LUT_SIZE as nat, |i: int| 0u32));
    long_codes.clear();
    let bl_count: [u32; 16] = match count_lengths(lengths) {
        Ok(c) => c,
        Err(e) => {
            return Err(e);
        },
    };
    let total: u64 = code_space(&bl_count, lengths);
    let n_symbols: u32 = count_used(lengths);
    proof {
        lemma2_to64();
    }
    let full: u64 = 0x8000;
    if n_symbols >= 2 && total > full {
        return Err(DeflateError::Invalid("oversubscribed huffman tree"));
    }
    if strict && n_symbols >= 2 && total != full {
        return Err(DeflateError::Invalid("incomplete huffman tree (strict)"));
    }
    let ghost ls = lengths@;
    let ghost n = lengths@.len() as int;
    proof {
        if n_symbols < 2 {
            lemma_few_codes(ls);
        }
    }
    let sorted: Vec<u16> = sort_symbols(&bl_count, lengths);
    let mut rev: u32 = 0;
    let mut start: usize = 0;
    let mut l: usize = 1;
    proof {
        assert(rev15(0) == 0) by (bit_vector);
    }
    while l <= 15
        invariant
            1 <= l <= 16,
            ls == lengths@,
            n == ls.len(),
            prefix_code(ls),
            start == shorter(ls, l as int, n),
            rev < 32768,
            kraft(ls, l as int) < 32768 ==> rev15(rev) == kraft(ls, l as int),
            sorted@.len() == 288,
            forall|t: int| 0 <= t < n && #[trigger] ls[t] > 0 ==> sorted@[sorted_pos(ls, t) as int] == t,
            forall|l: int| 1 <= l <= 15 ==> #[trigger] bl_count@[l] == count(ls, l, n),
            holds_codes(lut@, long_codes@, ls, encoding, l as int, 0),
        decreases 16 - l,
    {
        let count_l: usize = bl_count[l] as usize;
        let ghost w = pow2((15 - l) as nat);
        let mut i: usize = 0;
        proof {
            lemma2_to64();
            lemma_shorter_bound(ls, l + 1, n);
            lemma_kraft_monotone(ls, l + 1, 16);
            assert((16 - (l + 1)) as nat == (15 - l) as nat);
            assert(0 * w == 0) by (nonlinear_arith);
        }
        while i < count_l
            invariant
                i <= count_l,
                count_l == count(ls, l as int, n),
                1 <= l <= 15,
                ls == lengths@,
                n == ls.len(),
                prefix_code(ls),
                start == shorter(ls, l as int, n),
                start + count_l <= n,
                w == pow2((15 - l) as nat),
                kraft(ls, l + 1) == kraft(ls, l as int) + count_l * w,
                kraft(ls, l + 1) <= 32768,
                rev < 32768,
                kraft(ls, l as int) + i * w < 32768 ==> rev15(rev) == kraft(ls, l as int) + i * w,
                sorted@.len() == 288,
                forall|t: int| 0 <= t < n && #[trigger] ls[t] > 0 ==> sorted@[sorted_pos(ls, t) as int] == t,
                holds_codes(lut@, long_codes@, ls, encoding, l as int, i as int),
            decreases count_l - i,
        {
            let sym: u16 = sorted[start + i];
            proof {
                let t = lemma_ranked(ls, l as int, i as int, n);
                assert(sym == t);
                lemma_slot(ls, t);
                lemma_rev15_involutive(rev);
                vstd::arithmetic::power2::lemma_pow2_pos((15 - l) as nat);
                lemma2_to64();
                assert((i + 1) * w == i * w + w) by (nonlinear_arith);
            }
            insert_code(lut, long_codes, lengths, encoding, sym, rev);
            rev = next_reversed(rev, l as u32);
            i = i + 1;
        }
        proof {
            lemma_next_length(lut@, long_codes@, ls, encoding, l as int);
        }
        start = start + count_l;
        l = l + 1;
    }
    Ok(())
}

/// Lengths without an error describe a prefix code.
pub proof fn lemma_tree_is_prefix_code(lengths: Seq<u8>, strict: bool)
    requires
        lengths.len() <= 288,
        tree_error(lengths, strict) is None,
    ensures
        prefix_code(lengths),
{
    if used(lengths, lengths.len() as int) < 2 {
        lemma_few_codes(lengths);
    }
}

/// With fewer than two codes the code space cannot overflow.
proof fn lemma_few_codes(lengths: Seq<u8>)
    requires
        lengths_in_range(lengths),
        used(lengths, lengths.len() as int) < 2,
    ensures
        kraft(lengths, 16) <= pow2(15),
{
    lemma_kraft_by_used(lengths, 16);
    lemma2_to64();
}

proof fn lemma_kraft_by_used(lengths: Seq<u8>, l: int)
    requires
        lengths_in_range(lengths),
        l <= 16,
    ensures
        kraft(lengths, l) <= 16384 * shorter(lengths, l, lengths.len() as int),
        shorter(lengths, l, lengths.len() as int) <= used(lengths, lengths.len() as int),
    decreases l,
{
    let n = lengths.len() as int;
    if l > 1 {
        lemma_kraft_by_used(lengths, l - 1);
        lemma2_to64();
        let k = (16 - l) as nat;
        if k < 14 {
            lemma_pow2_strictly_increases(k, 14);
        }
        let c = count(lengths, l - 1, n);
        assert(c * pow2(k) <= c * 16384) by (nonlinear_arith)
            requires
                pow2(k) <= 16384,
        ;
    }
    lemma_shorter_used(lengths, l, n);
}

proof fn lemma_shorter_used(lengths: Seq<u8>, l: int, n: int)
    requires
        0 <= n <= lengths.len(),
    ensures
        shorter(lengths, l, n) <= used(lengths, n),
    decreases n,
{
    if n > 0 {
        lemma_shorter_used(lengths, l, n - 1);
        lemma_shorter_step(lengths, l, n);
    } else {
        lemma_shorter_none(lengths, l);
    }
}

/// Decodes the symbols of one prefix code.
pub struct HuffmanDecoder {
    lut: Box<[u32; LUT_SIZE]>,
    long_codes: Vec<LongCode>,
    lengths: Ghost<Seq<u8>>,
    encoding: Ghost<Encoding>,
}

impl HuffmanDecoder {
    /// The code lengths that the tables were built from.
    pub closed spec fn lengths(&self) -> Seq<u8> {
        self.lengths@
    }

    /// What the entries hold.
    pub closed spec fn encoding(&self) -> Encoding {
        self.encoding@
    }

    pub closed spec fn wf(&self) -> bool {
        &&& prefix_code(self.lengths@)
        &&& holds_codes(self.lut@, self.long_codes@, self.lengths@, self.encoding@, 16, 0)
    }

    pub proof fn lemma_wf(&self)
        requires
            self.wf(),
        ensures
            prefix_code(self.lengths()),
    {
    }

    /// The entry that a lookup of symbol `s` returns.
    pub open spec fn entry(&self, s: int) -> int {
        entry_of(s, self.lengths()[s] as int, self.encoding())
    }

    /// A decoder of the code without symbols.
    pub fn new_empty() -> (d: HuffmanDecoder)
        ensures
            d.wf(),
            d.lengths() == Seq::<u8>::empty(),
            d.encoding() == Encoding::Simple,
    {
        let d = HuffmanDecoder {
            lut: Box::new([0u32; LUT_SIZE]),
            long_codes: Vec::new(),
            lengths: Ghost(Seq::empty()),
            encoding: Ghost(Encoding::Simple),
        };
        proof {
            lemma_no_codes();
            assert(d.lut@ =~= Seq::new(LUT_SIZE as nat, |i: int| 0u32));
            assert(holds_codes(d.lut@, d.long_codes@, Seq::<u8>::empty(), Encoding::Simple, 16, 0));
        }
        d
    }

    fn rebuild(&mut self, lengths: &[u8], strict: bool, encoding: Encoding) -> (r: Result<(), DeflateError>)
        requires
            lengths@.len() <= 288,
        ensures
            final(self).wf(),
            final(self).encoding() == encoding,
            match tree_error(lengths@, strict) {
                Some(e) => r == Err::<(), DeflateError>(e) && final(self).lengths() == Seq::<u8>::empty(),
                None => r is Ok && final(self).lengths() == lengths@,
            },
    {
        self.encoding = Ghost(encoding);
        match build_into(&mut self.lut, &mut self.long_codes, lengths, strict, encoding) {
            Ok(()) => {
                self.lengths = Ghost(lengths@);
                Ok(())
            },
            Err(e) => {
                self.lengths = Ghost(Seq::empty());
                proof {
                    lemma_no_codes();
                }
                Err(e)
            },
        }
    }

    /// Rebuilds the tables in place, with `Simple` entries.
    pub fn rebuild_from_lengths(&mut self, lengths: &[u8], strict: bool) -> (r: Result<(), DeflateError>)
        requires
            lengths@.len() <= 288,
        ensures
            final(self).wf(),
            final(self).encoding() == Encoding::Simple,
            match tree_error(lengths@, strict) {
                Some(e) => r == Err::<(), DeflateError>(e) && final(self).lengths() == Seq::<u8>::empty(),
                None => r is Ok && final(self).lengths() == lengths@,
            },
    {
        self.rebuild(lengths, strict, Encoding::Simple)
    }

    /// Rebuilds the tables in place, with `LitLen` entries.
    pub fn rebuild_from_lengths_litlen(&mut self, lengths: &[u8]) -> (r: Result<(), DeflateError>)
        requires
            lengths@.len() <= 288,
        ensures
            final(self).wf(),
            final(self).encoding() == Encoding::LitLen,
            match tree_error(lengths@, false) {
                Some(e) => r == Err::<(), DeflateError>(e) && final(self).lengths() == Seq::<u8>::empty(),
                None => r is Ok && final(self).lengths() == lengths@,
            },
    {
        self.rebuild(lengths, false, Encoding::LitLen)
    }

    /// Rebuilds the tables in place, with `Dist` entries.
    pub fn rebuild_from_lengths_dist(&mut self, lengths: &[u8]) -> (r: Result<(), DeflateError>)
        requires
            lengths@.len() <= 288,
        ensures
            final(self).wf(),
            final(self).encoding() == Encoding::Dist,
            match tree_error(lengths@, false) {
                Some(e) => r == Err::<(), DeflateError>(e) && final(self).lengths() == Seq::<u8>::empty(),
                None => r is Ok && final(self).lengths() == lengths@,
            },
    {
        self.rebuild(lengths, false, Encoding::Dist)
    }

    fn build(lengths: &[u8], strict: bool, encoding: Encoding) -> (r: Result<HuffmanDecoder, DeflateError>)
        requires
            lengths@.len() <= 288,
        ensures
            match tree_error(lengths@, strict) {
                Some(e) => r == Err::<HuffmanDecoder, DeflateError>(e),
                None => r is Ok && r->Ok_0.wf() && r->Ok_0.lengths() == lengths@ && r->Ok_0.encoding() == encoding,
            },
    {
        let mut d = HuffmanDecoder::new_empty();
        match d.rebuild(lengths, strict, encoding) {
            Ok(()) => Ok(d),
            Err(e) => Err(e),
        }
    }

    /// A decoder with `Simple` entries. The code may be incomplete.
    pub fn from_lengths(lengths: &[u8]) -> (r: Result<HuffmanDecoder, DeflateError>)
        requires
            lengths@.len() <= 288,
        ensures
            match tree_error(lengths@, false) {
                Some(e) => r == Err::<HuffmanDecoder, DeflateError>(e),
                None => r is Ok && r->Ok_0.wf() && r->Ok_0.lengths() == lengths@ && r->Ok_0.encoding()
                    == Encoding::Simple,
            },
    {
        HuffmanDecoder::build(lengths, false, Encoding::Simple)
    }

    /// A decoder with `Simple` entries. A code of two or more symbols must be complete.
    pub fn from_lengths_strict(lengths: &[u8]) -> (r: Result<HuffmanDecoder, DeflateError>)
        requires
            lengths@.len() <= 288,
        ensures
            match tree_error(lengths@, true) {
                Some(e) => r == Err::<HuffmanDecoder, DeflateError>(e),
                None => r is Ok && r->Ok_0.wf() && r->Ok_0.lengths() == lengths@ && r->Ok_0.encoding()
                    == Encoding::Simple,
            },
    {
        HuffmanDecoder::build(lengths, true, Encoding::Simple)
    }

    /// A decoder with `LitLen` entries.
    pub fn from_lengths_litlen(lengths: &[u8]) -> (r: Result<HuffmanDecoder, DeflateError>)
        requires
            lengths@.len() <= 288,
        ensures
            match tree_error(lengths@, false) {
                Some(e) => r == Err::<HuffmanDecoder, DeflateError>(e),
                None => r is Ok && r->Ok_0.wf() && r->Ok_0.lengths() == lengths@ && r->Ok_0.encoding()
                    == Encoding::LitLen,
            },
    {
        HuffmanDecoder::build(lengths, false, Encoding::LitLen)
    }

    /// A decoder with `Dist` entries.
    pub fn from_lengths_dist(lengths: &[u8]) -> (r: Result<HuffmanDecoder, DeflateError>)
        requires
            lengths@.len() <= 288,
        ensures
            match tree_error(lengths@, false) {
                Some(e) => r == Err::<HuffmanDecoder, DeflateError>(e),
                None => r is Ok && r->Ok_0.wf() && r->Ok_0.lengths() == lengths@ && r->Ok_0.encoding()
                    == Encoding::Dist,
            },
    {
        HuffmanDecoder::build(lengths, false, Encoding::Dist)
    }

    /// True when some code is too long for the table.
    pub fn has_long_codes(&self) -> (b: bool)
        requires
            self.wf(),
        ensures
            b == exists|s: int| 0 <= s < self.lengths().len() && #[trigger] self.lengths()[s] > LUT_BITS,
    {
        let b: bool = self.long_codes.len() > 0;
        proof {
            let ls = self.lengths@;
            if b {
                assert(is_long_code(self.long_codes@[0], ls, self.encoding@, 16, 0));
                let s = choose|s: int|
                    #[trigger] precedes(ls, s, 16, 0) && ls[s] > LUT_BITS && self.long_codes@[0] == long_code_of(
                        ls,
                        s,
                        self.encoding@,
                    );
                assert(self.lengths()[s] > LUT_BITS);
            } else {
                assert forall|s: int| 0 <= s < ls.len() implies !(#[trigger] self.lengths()[s] > LUT_BITS) by {
                    assert(precedes(ls, s, 16, 0) || ls[s] == 0);
                }
            }
        }
        b
    }

    /// Decodes one symbol.
    pub fn decode(&self, br: &mut BitReader<'_>) -> (r: Result<u16, DeflateError>)
        requires
            self.wf(),
            self.encoding() == Encoding::Simple,
            old(br).wf(),
        ensures
            final(br).wf(),
            final(br).stream() == old(br).stream(),
            match lookup_at(self.lengths(), old(br).stream(), old(br).pos()) {
                Ok(s) => r == Ok::<u16, DeflateError>(s as u16) && 0 <= s < self.lengths().len() && final(br).pos()
                    == old(br).pos() + self.lengths()[s],
                Err(e) => r == Err::<u16, DeflateError>(e) && final(br).pos() == old(br).pos(),
            },
    {
        match self.lookup(br) {
            Ok(entry) => {
                proof {
                    let s = lookup_at(self.lengths(), old(br).stream(), old(br).pos())->Ok_0;
                    lemma_pack(s as u32, 0, self.lengths()[s] as u32);
                }
                Ok((entry >> 16) as u16)
            },
            Err(e) => Err(e),
        }
    }

    /// Decodes one symbol when `LUT_BITS` bits are loaded already.
    pub fn decode_filled(&self, br: &mut BitReader<'_>) -> (r: Result<u16, DeflateError>)
        requires
            self.wf(),
            self.encoding() == Encoding::Simple,
            old(br).wf(),
            old(br).buffered() >= LUT_BITS,
        ensures
            final(br).wf(),
            final(br).stream() == old(br).stream(),
            match lookup_at(self.lengths(), old(br).stream(), old(br).pos()) {
                Ok(s) => r == Ok::<u16, DeflateError>(s as u16) && 0 <= s < self.lengths().len() && final(br).pos()
                    == old(br).pos() + self.lengths()[s],
                Err(e) => r == Err::<u16, DeflateError>(e) && final(br).pos() == old(br).pos(),
            },
    {
        match self.lookup_filled(br) {
            Ok(entry) => {
                proof {
                    let s = lookup_at(self.lengths(), old(br).stream(), old(br).pos())->Ok_0;
                    lemma_pack(s as u32, 0, self.lengths()[s] as u32);
                }
                Ok((entry >> 16) as u16)
            },
            Err(e) => Err(e),
        }
    }

    /// Steps over one code and returns its entry, when `LUT_BITS` bits are loaded already.
    pub fn lookup_filled(&self, br: &mut BitReader<'_>) -> (r: Result<u32, DeflateError>)
        requires
            self.wf(),
            old(br).wf(),
            old(br).buffered() >= LUT_BITS,
        ensures
            final(br).wf(),
            final(br).stream() == old(br).stream(),
            match lookup_at(self.lengths(), old(br).stream(), old(br).pos()) {
                Ok(s) => r is Ok && r->Ok_0 == self.entry(s) && 0 <= s < self.lengths().len() && 1 <= self.lengths()[s]
                    <= 15 && final(br).pos() == old(br).pos() + self.lengths()[s] && final(br).buffered()
                    >= old(br).buffered() - self.lengths()[s],
                Err(e) => r == Err::<u32, DeflateError>(e) && final(br).pos() == old(br).pos(),
            },
    {
        self.lookup(br)
    }

    /// Steps over one code and returns its entry.
    pub(crate) fn lookup(&self, br: &mut BitReader<'_>) -> (r: Result<u32, DeflateError>)
        requires
            self.wf(),
            old(br).wf(),
        ensures
            final(br).wf(),
            final(br).stream() == old(br).stream(),
            match lookup_at(self.lengths(), old(br).stream(), old(br).pos()) {
                Ok(s) => r is Ok && r->Ok_0 == self.entry(s) && 0 <= s < self.lengths().len() && 1 <= self.lengths()[s]
                    <= 15 && final(br).pos() == old(br).pos() + self.lengths()[s] && final(br).buffered()
                    >= old(br).buffered() - self.lengths()[s],
                Err(e) => r == Err::<u32, DeflateError>(e) && final(br).pos() == old(br).pos(),
            },
    {
        let (peeked, avail) = br.peek_padded(LUT_BITS);
        let ghost p = br.pos();
        let ghost input = br.stream();
        let ghost ls = self.lengths@;
        let ghost v = word_at(input, p);
        proof {
            br.lemma_wf();
            lemma2_to64();
            lemma_bits_bound(input, p, 10);
            lemma_word_at(input, p);
            lemma_bits_div_mod(input, p, 10, 15);
            assert(peeked as nat == v as nat % 1024);
            assert forall|s: int|
                0 <= s < ls.len() && 0 < #[trigger] ls[s] <= LUT_BITS implies word_in_slot(ls, s, v) == word_in_slot(
                ls,
                s,
                peeked,
            ) by {
                lemma_slot_aligned(ls, s);
                lemma_low_bits_in_slot(slot(ls, s) as u32, ls[s] as u32, v);
                lemma_low_bits_in_slot(slot(ls, s) as u32, ls[s] as u32, peeked);
                lemma_mod_of_mod(v as nat, ls[s] as nat);
            }
        }
        let entry: u32 = self.lut[peeked as usize];
        let length: u32 = entry & LENGTH_MASK;
        if length == 0 {
            proof {
                if entry != 0 {
                    let s = choose|s: int|
                        precedes(ls, s, 16, 0) && #[trigger] fills(ls, s, peeked as int) && entry == entry_of(
                            s,
                            ls[s] as int,
                            self.encoding@,
                        );
                    lemma_entry_length(s, ls[s] as int, self.encoding@);
                }
                assert((0u32 & 0xffu32) == 0u32) by (bit_vector);
                if symbol_of(ls, input, p) is Some && ls[symbol_of(ls, input, p)->Some_0] <= LUT_BITS {
                    let s = symbol_of(ls, input, p)->Some_0;
                    lemma_matches_is_slot(ls, s, input, p);
                    assert(fills(ls, s, peeked as int));
                    assert(precedes(ls, s, 16, 0));
                    lemma_entry_length(s, ls[s] as int, self.encoding@);
                }
            }
            return self.lookup_long(br);
        }
        proof {
            assert((0u32 & 0xffu32) == 0u32) by (bit_vector);
            let s = choose|s: int|
                precedes(ls, s, 16, 0) && #[trigger] fills(ls, s, peeked as int) && entry == entry_of(
                    s,
                    ls[s] as int,
                    self.encoding@,
                );
            lemma_entry_length(s, ls[s] as int, self.encoding@);
            lemma_matches_is_slot(ls, s, input, p);
            lemma_symbol_of(ls, s, input, p);
        }
        if length > avail {
            return Err(DeflateError::UnexpectedEof);
        }
        br.consume(length);
        Ok(entry)
    }

    /// Searches the codes that are too long for the table.
    pub(crate) fn lookup_long(&self, br: &mut BitReader<'_>) -> (r: Result<u32, DeflateError>)
        requires
            self.wf(),
            old(br).wf(),
            match symbol_of(self.lengths(), old(br).stream(), old(br).pos()) {
                Some(s) => self.lengths()[s] > LUT_BITS,
                None => true,
            },
        ensures
            final(br).wf(),
            final(br).stream() == old(br).stream(),
            match lookup_at(self.lengths(), old(br).stream(), old(br).pos()) {
                Ok(s) => r is Ok && r->Ok_0 == self.entry(s) && 0 <= s < self.lengths().len() && 1 <= self.lengths()[s]
                    <= 15 && final(br).pos() == old(br).pos() + self.lengths()[s] && final(br).buffered()
                    >= old(br).buffered() - self.lengths()[s],
                Err(e) => r == Err::<u32, DeflateError>(e) && final(br).pos() == old(br).pos(),
            },
    {
        let (bits, avail) = br.peek_padded(MAX_CODE_LEN);
        let ghost p = br.pos();
        let ghost input = br.stream();
        let ghost ls = self.lengths@;
        let mut k: usize = 0;
        proof {
            br.lemma_wf();
            lemma_word_at(input, p);
            assert(bits == word_at(input, p));
        }
        while k < self.long_codes.len()
            invariant
                k <= self.long_codes@.len(),
                self.wf(),
                br.wf(),
                br.pos() == p,
                br.pos() == old(br).pos(),
                br.stream() == input,
                input == old(br).stream(),
                avail == br.buffered(),
                avail <= br.remaining(),
                avail >= 15 || avail == br.remaining(),
                br.buffered() >= old(br).buffered(),
                ls == self.lengths(),
                bits < 32768,
                bits == word_at(input, p),
                forall|j: int|
                    0 <= j < k ==> bits & (((1u32 << (#[trigger] self.long_codes@[j]).length) - 1) as u32)
                        != self.long_codes@[j].reversed,
            decreases self.long_codes@.len() - k,
        {
            let c: LongCode = self.long_codes[k];
            proof {
                assert(is_long_code(self.long_codes@[k as int], ls, self.encoding@, 16, 0));
            }
            let ghost s = choose|s: int|
                #[trigger] precedes(ls, s, 16, 0) && ls[s] > LUT_BITS && c == long_code_of(ls, s, self.encoding@);
            proof {
                let cl = c.length as u32;
                assert((1u32 << cl) >= 1) by (bit_vector)
                    requires
                        cl <= 15,
                ;
                lemma_entry_length(s, ls[s] as int, self.encoding@);
            }
            let mask: u32 = (1u32 << c.length) - 1;
            if (bits & mask) == c.reversed {
                proof {
                    lemma_slot_aligned(ls, s);
                    lemma_low_bits_in_slot(slot(ls, s) as u32, c.length as u32, bits);
                    lemma_matches_is_slot(ls, s, input, p);
                    lemma_symbol_of(ls, s, input, p);
                }
                if c.length as u32 > avail {
                    return Err(DeflateError::UnexpectedEof);
                }
                br.consume(c.length as u32);
                return Ok(c.entry);
            }
            k = k + 1;
        }
        proof {
            if symbol_of(ls, input, p) is Some {
                let s = symbol_of(ls, input, p)->Some_0;
                assert(code_matches(ls, s, input, p));
                assert(precedes(ls, s, 16, 0));
                let j = choose|j: int|
                    0 <= j < self.long_codes@.len() && #[trigger] self.long_codes@[j] == long_code_of(
                        ls,
                        s,
                        self.encoding@,
                    );
                lemma_slot_aligned(ls, s);
                lemma_low_bits_in_slot(slot(ls, s) as u32, ls[s] as u32, bits);
                lemma_matches_is_slot(ls, s, input, p);
            }
        }
        if avail < MAX_CODE_LEN {
            return Err(DeflateError::UnexpectedEof);
        }
        Err(DeflateError::Invalid("no matching huffman code"))
    }
}

proof fn lemma_no_codes()
    ensures
        prefix_code(Seq::<u8>::empty()),
        forall|lut: Seq<u32>, long_codes: Seq<LongCode>, encoding: Encoding|
            lut == Seq::new(LUT_SIZE as nat, |i: int| 0u32) && long_codes.len() == 0 ==> #[trigger] holds_codes(
                lut,
                long_codes,
                Seq::<u8>::empty(),
                encoding,
                16,
                0,
            ),
{
    assert forall|encoding: Encoding|
        #[trigger] long_list(Seq::<u8>::empty(), encoding, 16, 0) == Seq::<LongCode>::empty() by {
        lemma_no_long_codes(encoding, 16);
    }
    assert forall|lut: Seq<u32>, long_codes: Seq<LongCode>, encoding: Encoding|
        lut == Seq::new(LUT_SIZE as nat, |i: int| 0u32) && long_codes.len() == 0 implies #[trigger] holds_codes(
        lut,
        long_codes,
        Seq::empty(),
        encoding,
        16,
        0,
    ) by {
        assert(long_codes =~= long_list(Seq::<u8>::empty(), encoding, 16, 0));
    }
    lemma_kraft_by_used(Seq::<u8>::empty(), 16);
    lemma2_to64();
}

proof fn lemma_mod_of_mod(v: nat, l: nat)
    requires
        l <= 10,
    ensures
        (v % 1024) % pow2(l) == v % pow2(l),
{
    lemma2_to64();
    lemma_pow2_adds(l, (10 - l) as nat);
    vstd::arithmetic::power2::lemma_pow2_pos(l);
    vstd::arithmetic::power2::lemma_pow2_pos((10 - l) as nat);
    vstd::arithmetic::div_mod::lemma_mod_mod(v as int, pow2(l) as int, pow2((10 - l) as nat) as int);
}

/// Reverses the low `len` bits of `v`.
pub fn bit_reverse(v: u32, len: u32) -> (out: u32)
    requires
        len <= 32,
    ensures
        out == reversed(v as nat, len as nat),
{
    let mut out: u32 = 0;
    let mut rest: u32 = v;
    let mut i: u32 = 0;
    proof {
        lemma2_to64();
    }
    while i < len
        invariant
            i <= len <= 32,
            out < pow2(i as nat),
            out * pow2((len - i) as nat) + reversed(rest as nat, (len - i) as nat) == reversed(v as nat, len as nat),
        decreases len - i,
    {
        proof {
            let k = (len - i - 1) as nat;
            lemma_pow2_unfold((len - i) as nat);
            lemma_pow2_unfold((i + 1) as nat);
            if i < 31 {
                lemma_pow2_strictly_increases(i as nat, 31);
            }
            vstd::arithmetic::power2::lemma2_to64();
            assert(((out << 1u32) | (rest & 1u32)) == 2 * out + rest % 2 && rest >> 1u32 == rest / 2) by (bit_vector)
                requires
                    out < 0x8000_0000u32,
            ;
            let a = out as nat;
            let b = (rest % 2) as nat;
            let w = pow2(k);
            assert((2 * a + b) * w == a * (2 * w) + b * w) by (nonlinear_arith);
        }
        out = (out << 1) | (rest & 1);
        rest = rest >> 1;
        i = i + 1;
    }
    proof {
        assert(out * 1 == out);
    }
    out
}

/// The low `len` bits of `v`, the lowest first.
pub open spec fn reversed(v: nat, len: nat) -> nat
    decreases len,
{
    if len == 0 {
        0
    } else {
        (v % 2) * pow2((len - 1) as nat) + reversed(v / 2, (len - 1) as nat)
    }
}

} // verus!
