//! DEFLATE streams as they are written (RFC 1951): which bits stand for which
//! bytes. Decoding is held against this.
use vstd::prelude::*;
use vstd::arithmetic::power2::{pow2, lemma2_to64, lemma_pow2_pos, lemma_pow2_unfold};
use crate::deflate::DeflateError;
use crate::deflate::alphabets::{
    distance_bits, distance_from, length_bits, length_from, law_distances, law_lengths,
};
use crate::deflate::bits::{bit_at, bits_at, bit_len, lemma_bit_at_bound, lemma_bits_bound};
use crate::deflate::canonical::{
    code, code_bits, code_matches, count, first_code, kraft, lengths_in_range, lookup_at, prefix_code, tree_error, used,
    lemma_count_block, lemma_fixed_codes, lemma_slot, lemma_symbol_of,
};
use crate::deflate::format::{
    Decoded, Symbol, copy_back, extra_at, run, symbol_at, lemma_lookup_advances, lemma_symbol_advances,
};
use crate::deflate::tables::{
    DISTANCE_EXTRA, LENGTH_EXTRA, fixed_distances, fixed_literals, lemma_alphabet_bounds,
};

verus! {

/// Bit `i` of some bytes is set; the lowest bit of a byte comes first.
pub open spec fn is_set(input: Seq<u8>, i: int) -> bool {
    (input[i / 8] >> ((i % 8) as u8)) & 1u8 == 1u8
}

/// `bits` stand in the input from bit `p` on.
pub open spec fn stands(input: Seq<u8>, p: int, bits: Seq<bool>) -> bool {
    &&& 0 <= p
    &&& p + bits.len() <= 8 * input.len()
    &&& forall|i: int| 0 <= i < bits.len() ==> is_set(input, p + i) == #[trigger] bits[i]
}

/// A number in `n` bits, the lowest bit first.
pub open spec fn low_first(v: nat, n: nat) -> Seq<bool> {
    Seq::new(n, |i: int| (v / pow2(i as nat)) % 2 == 1)
}

/// A number in `n` bits, the highest bit first.
pub open spec fn high_first(v: nat, n: nat) -> Seq<bool> {
    Seq::new(n, |i: int| (v / pow2((n - 1 - i) as nat)) % 2 == 1)
}

pub proof fn lemma_stands_append(input: Seq<u8>, p: int, a: Seq<bool>, b: Seq<bool>)
    ensures
        stands(input, p, a + b) == (stands(input, p, a) && stands(input, p + a.len(), b)),
{
    if stands(input, p, a + b) {
        assert forall|i: int| 0 <= i < a.len() implies is_set(input, p + i) == #[trigger] a[i] by {
            assert((a + b)[i] == a[i]);
        }
        assert forall|i: int| 0 <= i < b.len() implies is_set(input, p + a.len() + i) == #[trigger] b[i] by {
            assert((a + b)[a.len() + i] == b[i]);
        }
    }
    if stands(input, p, a) && stands(input, p + a.len(), b) {
        assert forall|i: int| 0 <= i < (a + b).len() implies is_set(input, p + i) == #[trigger] (a + b)[i] by {
            if i >= a.len() {
                assert((a + b)[i] == b[i - a.len()]);
                assert(p + a.len() + (i - a.len()) == p + i);
            }
        }
    }
}

proof fn lemma_bit(input: Seq<u8>, i: int)
    requires
        0 <= i < 8 * input.len(),
    ensures
        bit_at(input, i) == if is_set(input, i) { 1nat } else { 0nat },
{
    lemma_bit_at_bound(input, i);
}

proof fn lemma_halves(v: nat, i: nat)
    ensures
        v / pow2(i + 1) == (v / 2) / pow2(i),
{
    lemma_pow2_unfold(i + 1);
    lemma_pow2_pos(i);
    vstd::arithmetic::div_mod::lemma_div_denominator(v as int, 2, pow2(i) as int);
}

/// A field that stands in the input is read.
pub proof fn lemma_read_low(input: Seq<u8>, p: int, v: nat, n: nat)
    requires
        v < pow2(n),
    ensures
        stands(input, p, low_first(v, n)) ==> bits_at(input, p, n) == v,
        0 <= p && p + n <= 8 * input.len() && bits_at(input, p, n) == v ==> stands(input, p, low_first(v, n)),
    decreases n,
{
    lemma2_to64();
    if n > 0 {
        let m = (n - 1) as nat;
        let w = v / 2;
        lemma_pow2_unfold(n);
        let bits = low_first(v, n);
        let rest = low_first(w, m);
        lemma_read_low(input, p + 1, w, m);
        assert(bits =~= seq![v % 2 == 1] + rest) by {
            assert(pow2(0) == 1 && v / pow2(0) == v);
            assert(bits[0] == (v % 2 == 1));
            assert forall|i: int| 1 <= i < n implies #[trigger] bits[i] == rest[i - 1] by {
                lemma_halves(v, (i - 1) as nat);
                assert((i - 1) as nat + 1 == i as nat);
            }
        }
        lemma_stands_append(input, p, seq![v % 2 == 1], rest);
        let one = seq![v % 2 == 1];
        if 0 <= p && p + n <= 8 * input.len() {
            lemma_bit(input, p);
            if stands(input, p, one) {
                assert(is_set(input, p + 0) == one[0]);
            }
            if bits_at(input, p, n) == v {
                assert forall|i: int| 0 <= i < one.len() implies is_set(input, p + i) == #[trigger] one[i] by {
                }
            }
        }
    }
}

/// A code that stands in the input is read.
pub proof fn lemma_read_high(input: Seq<u8>, p: int, v: nat, n: nat)
    requires
        v < pow2(n),
    ensures
        stands(input, p, high_first(v, n)) ==> code_bits(input, p, n) == v,
        0 <= p && p + n <= 8 * input.len() && code_bits(input, p, n) == v ==> stands(input, p, high_first(v, n)),
    decreases n,
{
    lemma2_to64();
    if n > 0 {
        let m = (n - 1) as nat;
        let w = v / 2;
        lemma_pow2_unfold(n);
        let bits = high_first(v, n);
        let rest = high_first(w, m);
        let one = seq![v % 2 == 1];
        lemma_read_high(input, p, w, m);
        assert(bits =~= rest + one) by {
            assert(pow2(0) == 1 && v / pow2(0) == v);
            assert(bits[m as int] == (v % 2 == 1));
            assert forall|i: int| 0 <= i < m implies #[trigger] bits[i] == rest[i] by {
                lemma_halves(v, (m - 1 - i) as nat);
                assert((n - 1 - i) as nat == (m - 1 - i) as nat + 1);
            }
        }
        lemma_stands_append(input, p, rest, one);
        if 0 <= p && p + n <= 8 * input.len() {
            lemma_bit(input, p + m);
            if stands(input, p + m, one) {
                assert(is_set(input, p + m + 0) == one[0]);
            }
            if code_bits(input, p, n) == v {
                lemma_bit_at_bound(input, p + n - 1);
                assert forall|i: int| 0 <= i < one.len() implies is_set(input, p + m + i) == #[trigger] one[i] by {
                }
            }
        }
    }
}

/// Symbol `t` has a code, and comes before symbol `s`: its code is shorter, or as
/// long and its number is lower.
pub open spec fn comes_before(lengths: Seq<u8>, t: int, s: int) -> bool {
    &&& lengths[t] > 0
    &&& lengths[t] < lengths[s] || (lengths[t] == lengths[s] && t < s)
}

/// How much of all words of 15 bits begins with a code of one of the first `n`
/// symbols that come before symbol `s`.
pub open spec fn share_before(lengths: Seq<u8>, s: int, n: int) -> nat
    decreases n,
{
    if n <= 0 {
        0
    } else {
        share_before(lengths, s, n - 1) + if comes_before(lengths, n - 1, s) {
            pow2((15 - lengths[n - 1]) as nat)
        } else {
            0
        }
    }
}

/// How much of all words of 15 bits begins with a code of one of the first `n` symbols.
pub open spec fn share(lengths: Seq<u8>, n: int) -> nat
    decreases n,
{
    if n <= 0 {
        0
    } else {
        share(lengths, n - 1) + if lengths[n - 1] > 0 {
            pow2((15 - lengths[n - 1]) as nat)
        } else {
            0
        }
    }
}

/// The code of symbol `s`: it follows the codes of all symbols that come before it.
pub open spec fn codeword(lengths: Seq<u8>, s: int) -> nat {
    share_before(lengths, s, lengths.len() as int) / pow2((15 - lengths[s]) as nat)
}

/// Code lengths that leave no code without room.
pub open spec fn fits(lengths: Seq<u8>) -> bool {
    &&& forall|i: int| 0 <= i < lengths.len() ==> #[trigger] lengths[i] <= 15
    &&& share(lengths, lengths.len() as int) <= 32768
}

proof fn lemma_count_prefix(a: Seq<u8>, v: u8, l: int, n: int)
    requires
        0 <= n <= a.len(),
    ensures
        count(a.push(v), l, n) == count(a, l, n),
    decreases n,
{
    if n > 0 {
        lemma_count_prefix(a, v, l, n - 1);
    }
}

proof fn lemma_kraft_push(a: Seq<u8>, v: u8, l: int)
    requires
        1 <= l <= 16,
        v <= 15,
    ensures
        kraft(a.push(v), l) == kraft(a, l) + if 0 < v < l { pow2((15 - v) as nat) } else { 0nat },
    decreases l,
{
    if l > 1 {
        let m = l - 1;
        lemma_kraft_push(a, v, m);
        lemma_count_prefix(a, v, m, a.len() as int);
        let c = count(a, m, a.len() as int);
        let w = pow2((16 - l) as nat);
        assert(count(a.push(v), m, a.len() as int + 1) == c + if v == m { 1nat } else { 0nat });
        assert((c + 1) * w == c * w + w) by (nonlinear_arith);
        assert(v == m ==> (15 - v) as nat == (16 - l) as nat);
    }
}

proof fn lemma_kraft_empty(l: int)
    ensures
        kraft(Seq::<u8>::empty(), l) == 0,
    decreases l,
{
    if l > 1 {
        lemma_kraft_empty(l - 1);
        assert(0 * pow2((16 - l) as nat) == 0) by (nonlinear_arith);
    }
}

/// The share of the first symbols.
proof fn lemma_shares(lengths: Seq<u8>, s: int, n: int)
    requires
        0 <= n <= lengths.len(),
        forall|i: int| 0 <= i < lengths.len() ==> #[trigger] lengths[i] <= 15,
    ensures
        share(lengths, n) == kraft(lengths.take(n), 16),
        0 <= s < lengths.len() && lengths[s] > 0 ==> share_before(lengths, s, n) == kraft(
            lengths.take(n),
            lengths[s] as int,
        ) + count(lengths, lengths[s] as int, if n < s { n } else { s }) * pow2((15 - lengths[s]) as nat),
    decreases n,
{
    if n == 0 {
        assert(lengths.take(0) =~= Seq::<u8>::empty());
        lemma_kraft_empty(16);
        if 0 <= s < lengths.len() {
            lemma_kraft_empty(lengths[s] as int);
            assert(0 * pow2((15 - lengths[s]) as nat) == 0) by (nonlinear_arith);
        }
    } else {
        lemma_shares(lengths, s, n - 1);
        let a = lengths.take(n - 1);
        let v = lengths[n - 1];
        assert(lengths.take(n) =~= a.push(v));
        lemma_kraft_push(a, v, 16);
        if 0 <= s < lengths.len() && lengths[s] > 0 {
            let l = lengths[s] as int;
            lemma_kraft_push(a, v, l);
            let c = count(lengths, l, n - 1);
            let w = pow2((15 - l) as nat);
            assert((c + 1) * w == c * w + w) by (nonlinear_arith);
            if n - 1 < s {
                assert(count(lengths, l, n) == c + if v == l { 1nat } else { 0nat });
            }
        }
    }
}

/// Codes are given in order: the code of a symbol is the first that follows the
/// codes of all symbols whose codes are shorter, or as long and whose number is
/// lower.
pub proof fn law_codes_in_order(lengths: Seq<u8>, s: int)
    requires
        fits(lengths),
        lengths.len() <= 288,
        0 <= s < lengths.len(),
        lengths[s] > 0,
    ensures
        prefix_code(lengths),
        code(lengths, s) * pow2((15 - lengths[s]) as nat) == share_before(lengths, s, lengths.len() as int),
        code(lengths, s) == codeword(lengths, s),
        codeword(lengths, s) < pow2(lengths[s] as nat),
{
    lemma2_to64();
    let n = lengths.len() as int;
    let l = lengths[s] as int;
    let w = pow2((15 - l) as nat);
    assert(lengths.take(n) =~= lengths);
    lemma_shares(lengths, s, n);
    lemma_slot(lengths, s);
    lemma_pow2_pos((15 - l) as nat);
    vstd::arithmetic::div_mod::lemma_div_multiples_vanish(code(lengths, s) as int, w as int);
    assert(code(lengths, s) * w == w * code(lengths, s)) by (nonlinear_arith);
    vstd::arithmetic::power2::lemma_pow2_adds(l as nat, (15 - l) as nat);
    let c = code(lengths, s);
    let m = pow2(l as nat);
    assert(c < m) by (nonlinear_arith)
        requires
            c * w + w <= m * w,
            w > 0,
    ;
}

pub proof fn lemma_used(lengths: Seq<u8>, n: int)
    requires
        0 <= n <= lengths.len(),
        forall|i: int| 0 <= i < lengths.len() ==> #[trigger] lengths[i] <= 15,
    ensures
        used(lengths, n) >= 2 <==> exists|i: int, j: int|
            0 <= i < j < n && #[trigger] lengths[i] > 0 && #[trigger] lengths[j] > 0,
        used(lengths, n) == 0 ==> share(lengths, n) == 0 && forall|i: int| 0 <= i < n ==> #[trigger] lengths[i] == 0,
        used(lengths, n) == 1 ==> share(lengths, n) <= 16384 && exists|i: int|
            0 <= i < n && #[trigger] lengths[i] > 0,
    decreases n,
{
    if n > 0 {
        lemma_used(lengths, n - 1);
        let v = lengths[n - 1];
        if v > 0 {
            lemma2_to64();
            if v > 1 {
                vstd::arithmetic::power2::lemma_pow2_strictly_increases((15 - v) as nat, 14);
            }
            if used(lengths, n - 1) == 1 {
                let i = choose|i: int| 0 <= i < n - 1 && #[trigger] lengths[i] > 0;
                assert(0 <= i < n - 1 && lengths[i] > 0 && lengths[n - 1] > 0);
            }
        }
    }
}

/// Code lengths are refused exactly if one is longer than 15 bits or the codes do
/// not fit, and where complete codes are asked for, if two symbols or more leave
/// room for another one.
pub proof fn law_trees(lengths: Seq<u8>, strict: bool)
    ensures
        tree_error(lengths, strict) is None <==> fits(lengths) && (strict && (exists|i: int, j: int|
            0 <= i < j < lengths.len() && #[trigger] lengths[i] > 0 && #[trigger] lengths[j] > 0) ==> share(
            lengths,
            lengths.len() as int,
        ) == 32768),
{
    let n = lengths.len() as int;
    lemma2_to64();
    assert(lengths.take(n) =~= lengths);
    if lengths_in_range(lengths) {
        lemma_shares(lengths, 0, n);
        lemma_used(lengths, n);
    }
}

/// Code lengths are refused by the first rule that they break.
pub proof fn law_trees_refused(lengths: Seq<u8>, strict: bool)
    ensures
        (exists|i: int| 0 <= i < lengths.len() && #[trigger] lengths[i] > 15) ==> tree_error(lengths, strict) == Some(
            DeflateError::Invalid("huffman code length > 15"),
        ),
        (forall|i: int| 0 <= i < lengths.len() ==> #[trigger] lengths[i] <= 15) && share(lengths, lengths.len() as int)
            > 32768 ==> tree_error(lengths, strict) == Some(DeflateError::Invalid("oversubscribed huffman tree")),
        fits(lengths) && tree_error(lengths, strict) is Some ==> tree_error(lengths, strict) == Some(
            DeflateError::Invalid("incomplete huffman tree (strict)"),
        ),
{
    let n = lengths.len() as int;
    lemma2_to64();
    assert(lengths.take(n) =~= lengths);
    if lengths_in_range(lengths) {
        lemma_shares(lengths, 0, n);
        lemma_used(lengths, n);
    }
}

/// A code of `fits` lengths stands in the input exactly where it is looked up.
pub proof fn lemma_lookup_written(lengths: Seq<u8>, s: int, input: Seq<u8>, p: int)
    requires
        fits(lengths),
        lengths.len() <= 288,
        0 <= s < lengths.len(),
        lengths[s] > 0,
        0 <= p,
    ensures
        stands(input, p, high_first(codeword(lengths, s), lengths[s] as nat)) <==> lookup_at(lengths, input, p) == Ok::<
            int,
            DeflateError,
        >(s),
{
    let l = lengths[s] as nat;
    law_codes_in_order(lengths, s);
    lemma_read_high(input, p, codeword(lengths, s), l);
    if stands(input, p, high_first(codeword(lengths, s), l)) {
        assert(code_matches(lengths, s, input, p));
        lemma_symbol_of(lengths, s, input, p);
    }
    if lookup_at(lengths, input, p) == Ok::<int, DeflateError>(s) {
        assert(code_matches(lengths, s, input, p));
    }
}

/// The two codes of a block.
pub ghost enum Book {
    /// Those that the format fixes.
    Fixed,
    /// Codes of the block's own, by the lengths of their codes.
    Own { lit: Seq<u8>, dist: Seq<u8> },
}

impl Book {
    pub open spec fn wf(self) -> bool {
        match self {
            Book::Fixed => true,
            Book::Own { lit, dist } => fits(lit) && fits(dist) && lit.len() <= 288 && dist.len() <= 288,
        }
    }

    /// The code lengths of literals and lengths.
    pub open spec fn lit(self) -> Seq<u8> {
        match self {
            Book::Fixed => fixed_literals(),
            Book::Own { lit, dist } => lit,
        }
    }

    /// The code lengths of distances.
    pub open spec fn dist(self) -> Seq<u8> {
        match self {
            Book::Fixed => fixed_distances(),
            Book::Own { lit, dist } => dist,
        }
    }

    /// Symbol `s` of literals and lengths has a code.
    pub open spec fn has_lit(self, s: int) -> bool {
        match self {
            Book::Fixed => 0 <= s < 288,
            Book::Own { lit, dist } => 0 <= s < lit.len() && lit[s] > 0,
        }
    }

    /// Distance symbol `s` has a code.
    pub open spec fn has_dist(self, s: int) -> bool {
        match self {
            Book::Fixed => 0 <= s < 32,
            Book::Own { lit, dist } => 0 <= s < dist.len() && dist[s] > 0,
        }
    }

    /// The code of symbol `s` of literals and lengths.
    pub open spec fn lit_word(self, s: int) -> Seq<bool> {
        match self {
            Book::Fixed => if s < 144 {
                high_first((0b0011_0000 + s) as nat, 8)
            } else if s < 256 {
                high_first((0b1_1001_0000 + s - 144) as nat, 9)
            } else if s < 280 {
                high_first((s - 256) as nat, 7)
            } else {
                high_first((0b1100_0000 + s - 280) as nat, 8)
            },
            Book::Own { lit, dist } => high_first(codeword(lit, s), lit[s] as nat),
        }
    }

    /// The code of distance symbol `s`.
    pub open spec fn dist_word(self, s: int) -> Seq<bool> {
        match self {
            Book::Fixed => high_first(s as nat, 5),
            Book::Own { lit, dist } => high_first(codeword(dist, s), dist[s] as nat),
        }
    }
}

proof fn lemma_fixed_lit(s: int)
    requires
        0 <= s < 288,
    ensures
        code(fixed_literals(), s) == if s < 144 {
            48 + s
        } else if s < 256 {
            400 + s - 144
        } else if s < 280 {
            s - 256
        } else {
            192 + s - 280
        },
{
    let f = fixed_literals();
    assert forall|l: int| #[trigger] count(f, l, 288) == if l == 7 {
        24nat
    } else if l == 8 {
        152nat
    } else if l == 9 {
        112nat
    } else {
        0nat
    } by {
        lemma_count_block(f, l, 0, 144, 8);
        lemma_count_block(f, l, 144, 256, 9);
        lemma_count_block(f, l, 256, 280, 7);
        lemma_count_block(f, l, 280, 288, 8);
    }
    assert(f.len() == 288);
    reveal_with_fuel(first_code, 10);
    assert(first_code(f, 7) == 0);
    assert(first_code(f, 8) == 48);
    assert(first_code(f, 9) == 400);
    let l = f[s] as int;
    lemma_count_block(f, l, 0, if s < 144 { s } else { 144 }, 8);
    if s >= 144 {
        lemma_count_block(f, l, 144, if s < 256 { s } else { 256 }, 9);
    }
    if s >= 256 {
        lemma_count_block(f, l, 256, if s < 280 { s } else { 280 }, 7);
    }
    if s >= 280 {
        lemma_count_block(f, l, 280, s, 8);
    }
}

proof fn lemma_fixed_dist(s: int)
    requires
        0 <= s < 32,
    ensures
        code(fixed_distances(), s) == s,
{
    let d = fixed_distances();
    assert forall|l: int| #[trigger] count(d, l, 32) == if l == 5 {
        32nat
    } else {
        0nat
    } by {
        lemma_count_block(d, l, 0, 32, 5);
    }
    assert(d.len() == 32);
    reveal_with_fuel(first_code, 6);
    assert(first_code(d, 5) == 0);
    lemma_count_block(d, 5, 0, s, 5);
}

pub proof fn lemma_fixed_fits()
    ensures
        fits(fixed_literals()),
        fits(fixed_distances()),
{
    lemma_fixed_codes();
    law_trees(fixed_literals(), false);
    law_trees(fixed_distances(), false);
}

/// A symbol of literals and lengths stands in the input exactly where it is looked up.
pub proof fn law_lit_lookup(book: Book, s: int, input: Seq<u8>, p: int)
    requires
        book.wf(),
        book.has_lit(s),
        0 <= p,
    ensures
        stands(input, p, book.lit_word(s)) <==> lookup_at(book.lit(), input, p) == Ok::<int, DeflateError>(s),
        book.lit_word(s).len() == book.lit()[s],
        0 <= s < book.lit().len(),
        book.lit_word(s).len() > 0,
{
    if book is Fixed {
        lemma_fixed_fits();
        lemma_fixed_lit(s);
        law_codes_in_order(fixed_literals(), s);
    }
    lemma_lookup_written(book.lit(), s, input, p);
}

/// A distance symbol stands in the input exactly where it is looked up.
pub proof fn law_dist_lookup(book: Book, s: int, input: Seq<u8>, p: int)
    requires
        book.wf(),
        book.has_dist(s),
        0 <= p,
    ensures
        stands(input, p, book.dist_word(s)) <==> lookup_at(book.dist(), input, p) == Ok::<int, DeflateError>(s),
        book.dist_word(s).len() == book.dist()[s],
        0 <= s < book.dist().len(),
{
    if book is Fixed {
        lemma_fixed_fits();
        lemma_fixed_dist(s);
        law_codes_in_order(fixed_distances(), s);
    }
    lemma_lookup_written(book.dist(), s, input, p);
}

/// What a symbol of a block writes.
pub ghost enum Step {
    Literal(u8),
    /// Some bytes that were written before, by the symbols of the length and of the
    /// distance and the values of their extra bits.
    Copy { length: (int, nat), distance: (int, nat) },
}

impl Step {
    /// The step can be written with the codes of `book`.
    pub open spec fn wf(self, book: Book) -> bool {
        match self {
            Step::Literal(b) => book.has_lit(b as int),
            Step::Copy { length, distance } => {
                &&& 0 <= length.0 < 29
                &&& length.1 < pow2(length_bits(length.0))
                &&& 0 <= distance.0 < 30
                &&& distance.1 < pow2(distance_bits(distance.0))
                &&& book.has_lit(257 + length.0)
                &&& book.has_dist(distance.0)
            },
        }
    }

    /// How many bytes a copy writes.
    pub open spec fn length(self) -> int {
        self->length.1 + length_from(self->length.0)
    }

    /// How far back a copy reaches.
    pub open spec fn distance(self) -> int {
        self->distance.1 + distance_from(self->distance.0)
    }

    /// The bits that stand for the step.
    pub open spec fn bits(self, book: Book) -> Seq<bool> {
        match self {
            Step::Literal(b) => book.lit_word(b as int),
            Step::Copy { length, distance } => book.lit_word(257 + length.0) + (low_first(
                length.1,
                length_bits(length.0),
            ) + (book.dist_word(distance.0) + low_first(distance.1, distance_bits(distance.0)))),
        }
    }

    /// The step can follow `n` bytes.
    pub open spec fn reaches(self, n: nat) -> bool {
        self is Copy ==> self.distance() <= n
    }

    /// The bytes `out` with what the step writes: a copy repeats the last bytes.
    pub open spec fn written(self, out: Seq<u8>) -> Seq<u8> {
        match self {
            Step::Literal(b) => out + seq![b],
            Step::Copy { length, distance } => out + Seq::new(
                self.length() as nat,
                |j: int| out[out.len() - self.distance() + j % self.distance()],
            ),
        }
    }

    /// The symbol that decoding gives.
    pub open spec fn symbol(self) -> Symbol {
        match self {
            Step::Literal(b) => Symbol::Literal(b),
            Step::Copy { length, distance } => Symbol::Match { length: self.length(), distance: self.distance() },
        }
    }
}

proof fn lemma_extra(input: Seq<u8>, p: int, v: nat, n: u8)
    requires
        v < pow2(n as nat),
        0 <= p,
    ensures
        stands(input, p, low_first(v, n as nat)) <==> extra_at(input, p, n) == Ok::<(nat, int), DeflateError>(
            (v, p + n),
        ),
{
    lemma_read_low(input, p, v, n as nat);
}

/// A symbol stands in the input exactly where it is read.
pub proof fn law_step_read(book: Book, step: Step, input: Seq<u8>, p: int)
    requires
        book.wf(),
        step.wf(book),
        0 <= p,
    ensures
        stands(input, p, step.bits(book)) ==> symbol_at(book.lit(), book.dist(), input, p) == Ok::<
            (Symbol, int),
            DeflateError,
        >((step.symbol(), p + step.bits(book).len())),
        step.bits(book).len() > 0,
{
    match step {
        Step::Literal(b) => {
            law_lit_lookup(book, b as int, input, p);
        },
        Step::Copy { length, distance } => {
            let a = book.lit_word(257 + length.0);
            let b = low_first(length.1, length_bits(length.0));
            let c = book.dist_word(distance.0);
            let d = low_first(distance.1, distance_bits(distance.0));
            law_lengths(length.0);
            law_distances(distance.0);
            law_lit_lookup(book, 257 + length.0, input, p);
            let p1 = p + a.len();
            let p2 = p1 + b.len();
            let p3 = p2 + c.len();
            law_dist_lookup(book, distance.0, input, p2);
            lemma_extra(input, p1, length.1, LENGTH_EXTRA[length.0]);
            lemma_extra(input, p3, distance.1, DISTANCE_EXTRA[distance.0]);
            lemma_stands_append(input, p, a, b + (c + d));
            lemma_stands_append(input, p1, b, c + d);
            lemma_stands_append(input, p2, c, d);
        },
    }
}

/// A symbol that is read stands in the input.
pub proof fn law_symbol_stands(book: Book, input: Seq<u8>, p: int) -> (step: Step)
    requires
        book.wf(),
        0 <= p,
        match symbol_at(book.lit(), book.dist(), input, p) {
            Ok((Symbol::EndOfBlock, _)) => false,
            Ok(_) => true,
            Err(_) => false,
        },
    ensures
        step.wf(book),
        stands(input, p, step.bits(book)),
        symbol_at(book.lit(), book.dist(), input, p) == Ok::<(Symbol, int), DeflateError>(
            (step.symbol(), p + step.bits(book).len()),
        ),
{
    if book is Fixed {
        lemma_fixed_fits();
    }
    let s = lookup_at(book.lit(), input, p)->Ok_0;
    lemma_lookup_advances(book.lit(), input, p);
    law_lit_lookup(book, s, input, p);
    if s < 256 {
        Step::Literal(s as u8)
    } else {
        let li = s - 257;
        law_lengths(li);
        let p1 = p + book.lit()[s];
        let (lx, p2) = extra_at(input, p1, LENGTH_EXTRA[li])->Ok_0;
        let d = lookup_at(book.dist(), input, p2)->Ok_0;
        lemma_lookup_advances(book.dist(), input, p2);
        law_dist_lookup(book, d, input, p2);
        law_distances(d);
        let p3 = p2 + book.dist()[d];
        let (dx, p4) = extra_at(input, p3, DISTANCE_EXTRA[d])->Ok_0;
        lemma_bits_bound(input, p1, length_bits(li));
        lemma_bits_bound(input, p3, distance_bits(d));
        let step = Step::Copy { length: (li, lx), distance: (d, dx) };
        let a = book.lit_word(s);
        let b = low_first(lx, length_bits(li));
        let c = book.dist_word(d);
        let e = low_first(dx, distance_bits(d));
        lemma_extra(input, p1, lx, LENGTH_EXTRA[li]);
        lemma_extra(input, p3, dx, DISTANCE_EXTRA[d]);
        lemma_stands_append(input, p, a, b + (c + e));
        lemma_stands_append(input, p1, b, c + e);
        lemma_stands_append(input, p2, c, e);
        step
    }
}

/// A copy repeats the last bytes.
pub proof fn law_copy_repeats(out: Seq<u8>, distance: int, n: int)
    requires
        1 <= distance <= out.len(),
        0 <= n,
    ensures
        copy_back(out, distance, n) == out + Seq::new(n as nat, |j: int| out[out.len() - distance + j % distance]),
    decreases n,
{
    let want = out + Seq::new(n as nat, |j: int| out[out.len() - distance + j % distance]);
    if n == 0 {
        assert(want =~= out);
    } else {
        let o1 = out.push(out[out.len() - distance]);
        law_copy_repeats(o1, distance, n - 1);
        let got = o1 + Seq::new((n - 1) as nat, |j: int| o1[o1.len() - distance + j % distance]);
        assert(got =~= want) by {
            assert forall|i: int| 0 <= i < want.len() implies #[trigger] got[i] == want[i] by {
                if i == out.len() {
                    assert(0int % distance == 0) by (nonlinear_arith)
                        requires
                            distance >= 1,
                    ;
                } else if i > out.len() {
                    let j = i - out.len() - 1;
                    lemma_next_mod(j, distance);
                    assert(got[i] == o1[o1.len() - distance + j % distance]);
                }
            }
        }
    }
}

proof fn lemma_next_mod(j: int, d: int)
    requires
        0 <= j,
        1 <= d,
    ensures
        0 <= j % d < d,
        (j + 1) % d == if j % d == d - 1 { 0 } else { j % d + 1 },
{
    vstd::arithmetic::div_mod::lemma_fundamental_div_mod(j, d);
    let q = j / d;
    let r = j % d;
    if r == d - 1 {
        assert(j + 1 == (q + 1) * d + 0) by (nonlinear_arith)
            requires
                j == d * q + r,
                r == d - 1,
        ;
        vstd::arithmetic::div_mod::lemma_fundamental_div_mod_converse(j + 1, d, q + 1, 0);
    } else {
        assert(j + 1 == q * d + (r + 1)) by (nonlinear_arith)
            requires
                j == d * q + r,
        ;
        vstd::arithmetic::div_mod::lemma_fundamental_div_mod_converse(j + 1, d, q, r + 1);
    }
}

/// The bits of the steps of a block, with its end.
pub open spec fn steps_bits(book: Book, steps: Seq<Step>) -> Seq<bool>
    decreases steps.len(),
{
    if steps.len() == 0 {
        book.lit_word(256)
    } else {
        steps[0].bits(book) + steps_bits(book, steps.skip(1))
    }
}

/// The steps can be written with the codes of `book`, and can follow `n` bytes.
pub open spec fn steps_wf(book: Book, steps: Seq<Step>, n: nat) -> bool
    decreases steps.len(),
{
    if steps.len() == 0 {
        book.has_lit(256)
    } else {
        &&& steps[0].wf(book)
        &&& steps[0].reaches(n)
        &&& steps_wf(book, steps.skip(1), n + if steps[0] is Copy { steps[0].length() as nat } else { 1 })
    }
}

/// The bytes `out` with what the steps write.
pub open spec fn steps_written(steps: Seq<Step>, out: Seq<u8>) -> Seq<u8>
    decreases steps.len(),
{
    if steps.len() == 0 {
        out
    } else {
        steps_written(steps.skip(1), steps[0].written(out))
    }
}

pub proof fn lemma_copy_bounds(step: Step, book: Book)
    requires
        step.wf(book),
        step is Copy,
    ensures
        3 <= step.length(),
        1 <= step.distance(),
{
    law_lengths(step->length.0);
    law_distances(step->distance.0);
    lemma_alphabet_bounds();
}

/// Steps that stand in the input are decoded to what they write.
pub proof fn law_steps_decode(book: Book, steps: Seq<Step>, input: Seq<u8>, p: int, out: Seq<u8>)
    requires
        book.wf(),
        steps_wf(book, steps, out.len()),
        stands(input, p, steps_bits(book, steps)),
    ensures
        run(book.lit(), book.dist(), input, p, out) == (Decoded {
            out: steps_written(steps, out),
            end: Ok::<int, DeflateError>(p + steps_bits(book, steps).len()),
        }),
    decreases steps.len(),
{
    reveal(run);
    if steps.len() == 0 {
        law_lit_lookup(book, 256, input, p);
    } else {
        let step = steps[0];
        let a = step.bits(book);
        let rest = steps.skip(1);
        lemma_stands_append(input, p, a, steps_bits(book, rest));
        law_step_read(book, step, input, p);
        let next = step.written(out);
        if step is Copy {
            lemma_copy_bounds(step, book);
            law_copy_repeats(out, step.distance(), step.length());
        } else {
            assert(next =~= out.push(step->Literal_0));
        }
        law_steps_decode(book, rest, input, p + a.len(), next);
    }
}

/// A block that is decoded to its end stands in the input as steps.
pub proof fn law_run_stands(book: Book, input: Seq<u8>, p: int, out: Seq<u8>) -> (steps: Seq<Step>)
    requires
        book.wf(),
        0 <= p,
        run(book.lit(), book.dist(), input, p, out).end is Ok,
    ensures
        steps_wf(book, steps, out.len()),
        stands(input, p, steps_bits(book, steps)),
        run(book.lit(), book.dist(), input, p, out) == (Decoded {
            out: steps_written(steps, out),
            end: Ok::<int, DeflateError>(p + steps_bits(book, steps).len()),
        }),
    decreases bit_len(input) - p,
{
    reveal(run);
    lemma_symbol_advances(book.lit(), book.dist(), input, p);
    let (symbol, q) = symbol_at(book.lit(), book.dist(), input, p)->Ok_0;
    if symbol is EndOfBlock {
        if book is Fixed {
            lemma_fixed_fits();
        }
        lemma_lookup_advances(book.lit(), input, p);
        law_lit_lookup(book, 256, input, p);
        Seq::empty()
    } else {
        let step = law_symbol_stands(book, input, p);
        let next = step.written(out);
        if step is Copy {
            lemma_copy_bounds(step, book);
            law_copy_repeats(out, step.distance(), step.length());
        } else {
            assert(next =~= out.push(step->Literal_0));
        }
        let rest = law_run_stands(book, input, q, next);
        let steps = seq![step] + rest;
        assert(steps.skip(1) =~= rest);
        lemma_stands_append(input, p, step.bits(book), steps_bits(book, rest));
        steps
    }
}

} // verus!
