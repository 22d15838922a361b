//! Blocks and streams as they are written, and that decoding inverts writing.
use vstd::prelude::*;
use vstd::arithmetic::power2::lemma2_to64;
use crate::deflate::DeflateError;
use crate::deflate::bits::{align_up, bits_at, bit_len, lemma_bits_bound};
use crate::deflate::canonical::lookup_at;
use crate::deflate::format::{
    Body, Codes, Decoded, block, body_at, code_lengths, dynamic_header, extra_at, inflate, precode_lengths, repeat_base,
    repeat_extra, repeated, stored_at, until, lemma_block_advances, lemma_lookup_advances,
};
use crate::deflate::tables::PRECODE_ORDER;
use crate::deflate::writing::{
    Book, Step, codeword, fits, high_first, is_set, low_first, share, stands, steps_bits, steps_wf, steps_written,
    law_run_stands, law_steps_decode, law_trees, lemma_lookup_written, lemma_read_low, lemma_stands_append,
};

verus! {

/// How code lengths are given in the header of a block.
pub ghost enum Given {
    /// A length.
    One(u8),
    /// The length before it, 3 to 6 times.
    Again(nat),
    /// 3 to 10 zeros.
    Zeros(nat),
    /// 11 to 138 zeros.
    ManyZeros(nat),
}

impl Given {
    /// Its symbol in the precode.
    pub open spec fn symbol(self) -> int {
        match self {
            Given::One(l) => l as int,
            Given::Again(_) => 16,
            Given::Zeros(_) => 17,
            Given::ManyZeros(_) => 18,
        }
    }

    /// It can be written with a precode of these lengths, after `n` lengths.
    pub open spec fn wf(self, pre: Seq<u8>, n: nat) -> bool {
        &&& pre[self.symbol()] > 0
        &&& match self {
            Given::One(l) => l <= 15,
            Given::Again(k) => 3 <= k <= 6 && n > 0,
            Given::Zeros(k) => 3 <= k <= 10,
            Given::ManyZeros(k) => 11 <= k <= 138,
        }
    }

    /// The extra bits.
    pub open spec fn extra(self) -> Seq<bool> {
        match self {
            Given::One(_) => Seq::empty(),
            Given::Again(k) => low_first((k - 3) as nat, 2),
            Given::Zeros(k) => low_first((k - 3) as nat, 3),
            Given::ManyZeros(k) => low_first((k - 11) as nat, 7),
        }
    }

    /// The bits that stand for it.
    pub open spec fn bits(self, pre: Seq<u8>) -> Seq<bool> {
        high_first(codeword(pre, self.symbol()), pre[self.symbol()] as nat) + self.extra()
    }

    /// The lengths `acc` with those that it gives.
    pub open spec fn given(self, acc: Seq<u8>) -> Seq<u8> {
        match self {
            Given::One(l) => acc + seq![l],
            Given::Again(k) => acc + Seq::new(k, |i: int| acc[acc.len() - 1]),
            Given::Zeros(k) => acc + Seq::new(k, |i: int| 0u8),
            Given::ManyZeros(k) => acc + Seq::new(k, |i: int| 0u8),
        }
    }
}

pub open spec fn items_bits(pre: Seq<u8>, items: Seq<Given>) -> Seq<bool>
    decreases items.len(),
{
    if items.len() == 0 {
        Seq::empty()
    } else {
        items[0].bits(pre) + items_bits(pre, items.skip(1))
    }
}

/// The lengths `acc` with those that the items give.
pub open spec fn items_given(items: Seq<Given>, acc: Seq<u8>) -> Seq<u8>
    decreases items.len(),
{
    if items.len() == 0 {
        acc
    } else {
        items_given(items.skip(1), items[0].given(acc))
    }
}

pub open spec fn items_wf(pre: Seq<u8>, items: Seq<Given>, acc: Seq<u8>) -> bool
    decreases items.len(),
{
    items.len() == 0 || (items[0].wf(pre, acc.len()) && items_wf(pre, items.skip(1), items[0].given(acc)))
}

proof fn lemma_items_grow(pre: Seq<u8>, items: Seq<Given>, acc: Seq<u8>)
    requires
        items_wf(pre, items, acc),
    ensures
        items_given(items, acc).len() >= acc.len() + items.len(),
    decreases items.len(),
{
    if items.len() > 0 {
        lemma_items_grow(pre, items.skip(1), items[0].given(acc));
    }
}

proof fn lemma_item_read(pre: Seq<u8>, item: Given, input: Seq<u8>, p: int, acc: Seq<u8>)
    requires
        fits(pre),
        pre.len() == 19,
        item.wf(pre, acc.len()),
        0 <= p,
    ensures
        ({
            let s = item.symbol();
            let q = p + pre[s];
            let found = lookup_at(pre, input, p) == Ok::<int, DeflateError>(s);
            match item {
                Given::One(l) => stands(input, p, item.bits(pre)) <==> found,
                _ => {
                    let n = item.given(acc).len() - acc.len();
                    &&& item.given(acc) == acc + repeated(acc, s, n)
                    &&& stands(input, p, item.bits(pre)) <==> found && extra_at(input, q, repeat_extra(s)) == Ok::<
                        (nat, int),
                        DeflateError,
                    >(((n - repeat_base(s)) as nat, p + item.bits(pre).len()))
                },
            }
        }),
        item.bits(pre).len() >= pre[item.symbol()],
{
    lemma2_to64();
    let s = item.symbol();
    let w = high_first(codeword(pre, s), pre[s] as nat);
    lemma_lookup_written(pre, s, input, p);
    lemma_stands_append(input, p, w, item.extra());
    match item {
        Given::One(l) => {
            assert(item.bits(pre) =~= w);
        },
        Given::Again(k) => {
            lemma_read_low(input, p + w.len(), (k - 3) as nat, 2);
            assert(item.given(acc) =~= acc + repeated(acc, s, k as int));
        },
        Given::Zeros(k) => {
            lemma_read_low(input, p + w.len(), (k - 3) as nat, 3);
            assert(item.given(acc) =~= acc + repeated(acc, s, k as int));
        },
        Given::ManyZeros(k) => {
            lemma_read_low(input, p + w.len(), (k - 11) as nat, 7);
            assert(item.given(acc) =~= acc + repeated(acc, s, k as int));
        },
    }
}

/// Reading code lengths goes on after the first of them.
pub proof fn law_items_front(pre: Seq<u8>, items: Seq<Given>, input: Seq<u8>, p: int, acc: Seq<u8>, total: int)
    requires
        fits(pre),
        pre.len() == 19,
        items_wf(pre, items, acc),
        items_given(items, acc).len() <= total,
        stands(input, p, items_bits(pre, items)),
    ensures
        code_lengths(pre, input, p, acc, total) == code_lengths(
            pre,
            input,
            p + items_bits(pre, items).len(),
            items_given(items, acc),
            total,
        ),
    decreases items.len(),
{
    if items.len() > 0 {
        reveal(code_lengths);
        let item = items[0];
        let rest = items.skip(1);
        let next = item.given(acc);
        lemma_items_grow(pre, rest, next);
        lemma_item_read(pre, item, input, p, acc);
        lemma_stands_append(input, p, item.bits(pre), items_bits(pre, rest));
        if let Given::One(l) = item {
            assert(next =~= acc.push(l));
            assert(item.bits(pre).len() == pre[item.symbol()]);
        }
        law_items_front(pre, rest, input, p + item.bits(pre).len(), next, total);
    }
}

/// A length that is repeated must have one before it, and no more may be given than
/// are asked for.
pub proof fn law_items_refused(pre: Seq<u8>, items: Seq<Given>, item: Given, input: Seq<u8>, p: int, total: int)
    requires
        fits(pre),
        pre.len() == 19,
        items_wf(pre, items, Seq::empty()),
        items_given(items, Seq::empty()).len() < total,
        item.wf(pre, 1),
        stands(input, p, items_bits(pre, items) + item.bits(pre)),
    ensures
        item is Again && items.len() == 0 ==> code_lengths(pre, input, p, Seq::empty(), total) == Err::<
            (Seq<u8>, int),
            DeflateError,
        >(DeflateError::Invalid("code length repeat without a previous length")),
        !(item is One) && item.wf(pre, items_given(items, Seq::empty()).len()) && item.given(
            items_given(items, Seq::empty()),
        ).len() > total ==> code_lengths(pre, input, p, Seq::empty(), total) == Err::<(Seq<u8>, int), DeflateError>(
            DeflateError::Invalid("code length repeat past the end"),
        ),
{
    let none = Seq::<u8>::empty();
    let acc = items_given(items, none);
    let a = items_bits(pre, items);
    let q = p + a.len();
    lemma_stands_append(input, p, a, item.bits(pre));
    law_items_front(pre, items, input, p, none, total);
    reveal(code_lengths);
    if item is Again && items.len() == 0 {
        lemma_item_read(pre, item, input, q, seq![0u8]);
    } else if item.wf(pre, acc.len()) {
        lemma_item_read(pre, item, input, q, acc);
    }
}

/// Code lengths that stand in the input are read.
proof fn lemma_items_decode(pre: Seq<u8>, items: Seq<Given>, input: Seq<u8>, p: int, acc: Seq<u8>, total: int)
    requires
        fits(pre),
        pre.len() == 19,
        items_wf(pre, items, acc),
        items_given(items, acc).len() == total,
        stands(input, p, items_bits(pre, items)),
    ensures
        code_lengths(pre, input, p, acc, total) == Ok::<(Seq<u8>, int), DeflateError>(
            (items_given(items, acc), p + items_bits(pre, items).len()),
        ),
    decreases items.len(),
{
    reveal(code_lengths);
    if items.len() > 0 {
        let item = items[0];
        let rest = items.skip(1);
        let next = item.given(acc);
        lemma_items_grow(pre, rest, next);
        lemma_item_read(pre, item, input, p, acc);
        lemma_stands_append(input, p, item.bits(pre), items_bits(pre, rest));
        if let Given::One(l) = item {
            assert(next =~= acc.push(l));
            assert(item.bits(pre).len() == pre[item.symbol()]);
        }
        lemma_items_decode(pre, rest, input, p + item.bits(pre).len(), next, total);
    }
}

/// The next code lengths that are read stand in the input.
#[verifier::rlimit(30)]
proof fn lemma_item_stands(pre: Seq<u8>, input: Seq<u8>, p: int, acc: Seq<u8>, total: int) -> (item: Given)
    requires
        fits(pre),
        pre.len() == 19,
        0 <= p <= bit_len(input),
        acc.len() < total,
        code_lengths(pre, input, p, acc, total) is Ok,
    ensures
        item.wf(pre, acc.len()),
        stands(input, p, item.bits(pre)),
        item.bits(pre).len() > 0,
        item.given(acc).len() <= total,
        code_lengths(pre, input, p, acc, total) == code_lengths(
            pre,
            input,
            p + item.bits(pre).len(),
            item.given(acc),
            total,
        ),
{
    reveal(code_lengths);
    lemma2_to64();
    lemma_lookup_advances(pre, input, p);
    let s = lookup_at(pre, input, p)->Ok_0;
    let q = p + pre[s];
    if s < 16 {
        let item = Given::One(s as u8);
        lemma_item_read(pre, item, input, p, acc);
        assert(item.given(acc) =~= acc.push(s as u8));
        assert(item.bits(pre).len() == pre[s]);
        item
    } else {
        let extra = extra_at(input, q, repeat_extra(s))->Ok_0.0;
        lemma_bits_bound(input, q, repeat_extra(s) as nat);
        let item = if s == 16 {
            Given::Again(extra + 3)
        } else if s == 17 {
            Given::Zeros(extra + 3)
        } else {
            Given::ManyZeros(extra + 11)
        };
        assert(item.bits(pre).len() == pre[s] + repeat_extra(s));
        lemma_item_read(pre, item, input, p, acc);
        item
    }
}

/// Code lengths that are read stand in the input.
proof fn lemma_items_stand(pre: Seq<u8>, input: Seq<u8>, p: int, acc: Seq<u8>, total: int) -> (items: Seq<Given>)
    requires
        fits(pre),
        pre.len() == 19,
        0 <= p <= bit_len(input),
        acc.len() <= total,
        code_lengths(pre, input, p, acc, total) is Ok,
    ensures
        items_wf(pre, items, acc),
        items_given(items, acc).len() == total,
        stands(input, p, items_bits(pre, items)),
        code_lengths(pre, input, p, acc, total) == Ok::<(Seq<u8>, int), DeflateError>(
            (items_given(items, acc), p + items_bits(pre, items).len()),
        ),
    decreases bit_len(input) - p,
{
    if acc.len() >= total {
        reveal(code_lengths);
        Seq::empty()
    } else {
        let item = lemma_item_stands(pre, input, p, acc, total);
        let rest = lemma_items_stand(pre, input, p + item.bits(pre).len(), item.given(acc), total);
        let items = seq![item] + rest;
        assert(items.skip(1) =~= rest);
        assert(items[0] == item);
        lemma_stands_append(input, p, item.bits(pre), items_bits(pre, rest));
        items
    }
}

/// The symbol of the precode whose length is given in place `i`: first those that
/// repeat, then zero, then the others, from the middle outwards.
pub open spec fn precode_symbol(i: int) -> int {
    if i < 3 {
        16 + i
    } else if i == 3 {
        0
    } else if i % 2 == 0 {
        8 + (i - 4) / 2
    } else {
        7 - (i - 5) / 2
    }
}

/// The place in which the length of a symbol of the precode is given.
pub open spec fn precode_place(s: int) -> int {
    if s >= 16 {
        s - 16
    } else if s == 0 {
        3
    } else if s >= 8 {
        4 + 2 * (s - 8)
    } else {
        5 + 2 * (7 - s)
    }
}

/// The order of the precode follows the rule.
pub proof fn law_precode_order(i: int)
    requires
        0 <= i < 19,
    ensures
        PRECODE_ORDER[i] == precode_symbol(i),
        precode_place(precode_symbol(i)) == i,
        precode_symbol(precode_place(i)) == i,
        0 <= precode_symbol(i) < 19,
        0 <= precode_place(i) < 19,
{
    assert(PRECODE_ORDER[0] == 16 && PRECODE_ORDER[1] == 17 && PRECODE_ORDER[2] == 18 && PRECODE_ORDER[3] == 0);
    assert(PRECODE_ORDER[4] == 8 && PRECODE_ORDER[5] == 7 && PRECODE_ORDER[6] == 9 && PRECODE_ORDER[7] == 6);
    assert(PRECODE_ORDER[8] == 10 && PRECODE_ORDER[9] == 5 && PRECODE_ORDER[10] == 11 && PRECODE_ORDER[11] == 4);
    assert(PRECODE_ORDER[12] == 12 && PRECODE_ORDER[13] == 3 && PRECODE_ORDER[14] == 13 && PRECODE_ORDER[15] == 2);
    assert(PRECODE_ORDER[16] == 14 && PRECODE_ORDER[17] == 1 && PRECODE_ORDER[18] == 15);
}

/// The first `n` lengths of the precode, 3 bits each.
pub open spec fn precode_bits(pre: Seq<u8>, n: int) -> Seq<bool>
    decreases n,
{
    if n <= 0 {
        Seq::empty()
    } else {
        precode_bits(pre, n - 1) + low_first(pre[precode_symbol(n - 1)] as nat, 3)
    }
}

proof fn lemma_precode_read(pre: Seq<u8>, input: Seq<u8>, p: int, n: int)
    requires
        pre.len() == 19,
        forall|i: int| 0 <= i < 19 ==> #[trigger] pre[i] <= 7,
        0 <= n <= 19,
        0 <= p,
    ensures
        precode_bits(pre, n).len() == 3 * n,
        precode_lengths(input, p, n).len() == 19,
        stands(input, p, precode_bits(pre, n)) <==> p + 3 * n <= bit_len(input) && forall|s: int|
            0 <= s < 19 ==> #[trigger] precode_lengths(input, p, n)[s] == if precode_place(s) < n {
                pre[s]
            } else {
                0u8
            },
    decreases n,
{
    if n > 0 {
        lemma2_to64();
        let m = n - 1;
        lemma_precode_read(pre, input, p, m);
        let k = precode_symbol(m);
        law_precode_order(m);
        let a = precode_bits(pre, m);
        let b = low_first(pre[k] as nat, 3);
        lemma_stands_append(input, p, a, b);
        lemma_read_low(input, p + 3 * m, pre[k] as nat, 3);
        lemma_bits_bound(input, p + 3 * m, 3);
        let before = precode_lengths(input, p, m);
        let after = precode_lengths(input, p, n);
        assert(after == before.update(k, bits_at(input, p + 3 * m, 3) as u8));
        assert forall|s: int| 0 <= s < 19 && s != k implies precode_place(s) != m by {
            law_precode_order(s);
        }
        if stands(input, p, a + b) {
            assert forall|s: int| 0 <= s < 19 implies #[trigger] after[s] == if precode_place(s) < n {
                pre[s]
            } else {
                0u8
            } by {
                assert(before[s] == if precode_place(s) < m { pre[s] } else { 0u8 });
            }
        }
        if p + 3 * n <= bit_len(input) && forall|s: int|
            0 <= s < 19 ==> #[trigger] after[s] == if precode_place(s) < n {
                pre[s]
            } else {
                0u8
            } {
            assert forall|s: int| 0 <= s < 19 implies #[trigger] before[s] == if precode_place(s) < m {
                pre[s]
            } else {
                0u8
            } by {
                assert(after[s] == if precode_place(s) < n { pre[s] } else { 0u8 });
                if s == k {
                    lemma_precode_untouched(input, p, m, s);
                }
            }
            assert(after[k] == pre[k]);
        }
    } else {
        assert forall|s: int| 0 <= s < 19 implies precode_place(s) >= 0 by {
            law_precode_order(s);
        }
    }
}

proof fn lemma_precode_untouched(input: Seq<u8>, p: int, n: int, s: int)
    requires
        0 <= n <= 19,
        0 <= s < 19,
        precode_place(s) >= n,
    ensures
        precode_lengths(input, p, n).len() == 19,
        precode_lengths(input, p, n)[s] == 0,
    decreases n,
{
    if n > 0 {
        law_precode_order(n - 1);
        law_precode_order(s);
        lemma_precode_untouched(input, p, n - 1, s);
    }
}

/// Where codes must be complete, they leave no room for another one.
pub open spec fn complete(lengths: Seq<u8>) -> bool {
    (exists|i: int, j: int| 0 <= i < j < lengths.len() && #[trigger] lengths[i] > 0 && #[trigger] lengths[j] > 0)
        ==> share(lengths, lengths.len() as int) == 32768
}

/// The header of a block with codes of its own.
pub ghost struct Table {
    /// The lengths of the precode.
    pub pre: Seq<u8>,
    /// How many of them are given.
    pub pre_given: int,
    /// How many literals and lengths there are.
    pub lits: int,
    pub items: Seq<Given>,
}

impl Table {
    /// All code lengths: those of literals and lengths, and then those of distances.
    pub open spec fn lengths(self) -> Seq<u8> {
        items_given(self.items, Seq::empty())
    }

    pub open spec fn lit(self) -> Seq<u8> {
        self.lengths().take(self.lits)
    }

    pub open spec fn dist(self) -> Seq<u8> {
        self.lengths().skip(self.lits)
    }

    pub open spec fn wf(self) -> bool {
        &&& self.pre.len() == 19
        &&& forall|i: int| 0 <= i < 19 ==> #[trigger] self.pre[i] <= 7
        &&& 4 <= self.pre_given <= 19
        &&& forall|s: int| 0 <= s < 19 && precode_place(s) >= self.pre_given ==> #[trigger] self.pre[s] == 0
        &&& fits(self.pre)
        &&& items_wf(self.pre, self.items, Seq::empty())
        &&& 257 <= self.lits <= 286
        &&& self.lits + 1 <= self.lengths().len() <= self.lits + 32
        &&& fits(self.lit())
        &&& fits(self.dist())
    }

    /// All its codes are complete.
    pub open spec fn is_complete(self) -> bool {
        complete(self.pre) && complete(self.lit()) && complete(self.dist())
    }

    pub open spec fn bits(self) -> Seq<bool> {
        low_first((self.lits - 257) as nat, 5) + (low_first((self.lengths().len() - self.lits - 1) as nat, 5) + (
        low_first((self.pre_given - 4) as nat, 4) + (precode_bits(self.pre, self.pre_given) + items_bits(
            self.pre,
            self.items,
        ))))
    }

    pub open spec fn book(self) -> Book {
        Book::Own { lit: self.lit(), dist: self.dist() }
    }
}

/// A header that stands in the input is read.
pub proof fn law_table_read(table: Table, input: Seq<u8>, p: int, strict: bool)
    requires
        table.wf(),
        strict ==> table.is_complete(),
        stands(input, p, table.bits()),
    ensures
        dynamic_header(input, p, strict) == Ok::<Codes, DeflateError>(
            (Codes { lit: table.lit(), dist: table.dist(), at: p + table.bits().len() }),
        ),
{
    reveal(dynamic_header);
    lemma2_to64();
    let a = low_first((table.lits - 257) as nat, 5);
    let dists = table.lengths().len() - table.lits;
    let b = low_first((dists - 1) as nat, 5);
    let c = low_first((table.pre_given - 4) as nat, 4);
    let d = precode_bits(table.pre, table.pre_given);
    let e = items_bits(table.pre, table.items);
    lemma_stands_append(input, p, a, b + (c + (d + e)));
    lemma_stands_append(input, p + 5, b, c + (d + e));
    lemma_stands_append(input, p + 10, c, d + e);
    lemma_precode_read(table.pre, input, p + 14, table.pre_given);
    lemma_stands_append(input, p + 14, d, e);
    lemma_read_low(input, p, (table.lits - 257) as nat, 5);
    lemma_read_low(input, p + 5, (dists - 1) as nat, 5);
    lemma_read_low(input, p + 10, (table.pre_given - 4) as nat, 4);
    let pre = precode_lengths(input, p + 14, table.pre_given);
    assert(pre =~= table.pre);
    law_trees(table.pre, strict);
    law_trees(table.lit(), strict);
    law_trees(table.dist(), strict);
    lemma_items_decode(
        table.pre,
        table.items,
        input,
        p + 14 + 3 * table.pre_given,
        Seq::empty(),
        table.lengths().len() as int,
    );
}

/// No more than 286 literals and lengths may have codes.
pub proof fn law_too_many_codes(n: nat, input: Seq<u8>, p: int, strict: bool)
    requires
        286 < n <= 288,
        stands(input, p, low_first((n - 257) as nat, 5)),
        p + 14 <= bit_len(input),
    ensures
        dynamic_header(input, p, strict) == Err::<Codes, DeflateError>(
            DeflateError::Invalid("too many literal/length codes"),
        ),
{
    reveal(dynamic_header);
    lemma2_to64();
    lemma_read_low(input, p, (n - 257) as nat, 5);
}

/// A header that is read stands in the input.
pub proof fn law_table_stands(input: Seq<u8>, p: int, strict: bool) -> (table: Table)
    requires
        0 <= p,
        dynamic_header(input, p, strict) is Ok,
    ensures
        table.wf(),
        strict ==> table.is_complete(),
        stands(input, p, table.bits()),
        dynamic_header(input, p, strict) == Ok::<Codes, DeflateError>(
            (Codes { lit: table.lit(), dist: table.dist(), at: p + table.bits().len() }),
        ),
{
    reveal(dynamic_header);
    lemma2_to64();
    lemma_bits_bound(input, p, 5);
    lemma_bits_bound(input, p + 5, 5);
    lemma_bits_bound(input, p + 10, 4);
    let hlit = bits_at(input, p, 5) + 257;
    let hdist = bits_at(input, p + 5, 5) + 1;
    let hclen = bits_at(input, p + 10, 4) + 4;
    let pre = precode_lengths(input, p + 14, hclen as int);
    lemma_precode_shape(input, p + 14, hclen as int);
    law_trees(pre, strict);
    lemma_precode_read(pre, input, p + 14, hclen as int);
    assert forall|s: int| 0 <= s < 19 implies #[trigger] pre[s] == if precode_place(s) < hclen { pre[s] } else { 0u8 } by {
        if precode_place(s) >= hclen {
            lemma_precode_untouched(input, p + 14, hclen as int, s);
        }
    }
    let at = p + 14 + 3 * hclen;
    let total = (hlit + hdist) as int;
    let items = lemma_items_stand(pre, input, at, Seq::empty(), total);
    let table = Table { pre, pre_given: hclen as int, lits: hlit as int, items };
    law_trees(table.lit(), strict);
    law_trees(table.dist(), strict);
    let a = low_first((table.lits - 257) as nat, 5);
    let b = low_first((hdist - 1) as nat, 5);
    let c = low_first((table.pre_given - 4) as nat, 4);
    let d = precode_bits(table.pre, table.pre_given);
    let e = items_bits(table.pre, table.items);
    lemma_read_low(input, p, (table.lits - 257) as nat, 5);
    lemma_read_low(input, p + 5, (hdist - 1) as nat, 5);
    lemma_read_low(input, p + 10, (table.pre_given - 4) as nat, 4);
    lemma_stands_append(input, p, a, b + (c + (d + e)));
    lemma_stands_append(input, p + 5, b, c + (d + e));
    lemma_stands_append(input, p + 10, c, d + e);
    lemma_stands_append(input, p + 14, d, e);
    table
}

proof fn lemma_precode_shape(input: Seq<u8>, p: int, n: int)
    requires
        0 <= n <= 19,
    ensures
        precode_lengths(input, p, n).len() == 19,
        forall|i: int| 0 <= i < 19 ==> #[trigger] precode_lengths(input, p, n)[i] <= 7,
    decreases n,
{
    if n > 0 {
        lemma2_to64();
        lemma_precode_shape(input, p, n - 1);
        lemma_bits_bound(input, p + 3 * (n - 1), 3);
        law_precode_order(n - 1);
    }
}

/// The bits of some bytes.
pub open spec fn data_bits(data: Seq<u8>) -> Seq<bool> {
    Seq::new(8 * data.len(), |i: int| is_set(data, i))
}

proof fn lemma_same_byte(x: u8, y: u8)
    requires
        forall|j: u8| j < 8 ==> (#[trigger] (x >> j) & 1u8 == 1u8) == ((y >> j) & 1u8 == 1u8),
    ensures
        x == y,
{
    assert((x >> 0u8) & 1u8 == 1u8 <==> (y >> 0u8) & 1u8 == 1u8);
    assert((x >> 1u8) & 1u8 == 1u8 <==> (y >> 1u8) & 1u8 == 1u8);
    assert((x >> 2u8) & 1u8 == 1u8 <==> (y >> 2u8) & 1u8 == 1u8);
    assert((x >> 3u8) & 1u8 == 1u8 <==> (y >> 3u8) & 1u8 == 1u8);
    assert((x >> 4u8) & 1u8 == 1u8 <==> (y >> 4u8) & 1u8 == 1u8);
    assert((x >> 5u8) & 1u8 == 1u8 <==> (y >> 5u8) & 1u8 == 1u8);
    assert((x >> 6u8) & 1u8 == 1u8 <==> (y >> 6u8) & 1u8 == 1u8);
    assert((x >> 7u8) & 1u8 == 1u8 <==> (y >> 7u8) & 1u8 == 1u8);
    assert(x == y) by (bit_vector)
        requires
            (x >> 0u8) & 1u8 == 1u8 <==> (y >> 0u8) & 1u8 == 1u8,
            (x >> 1u8) & 1u8 == 1u8 <==> (y >> 1u8) & 1u8 == 1u8,
            (x >> 2u8) & 1u8 == 1u8 <==> (y >> 2u8) & 1u8 == 1u8,
            (x >> 3u8) & 1u8 == 1u8 <==> (y >> 3u8) & 1u8 == 1u8,
            (x >> 4u8) & 1u8 == 1u8 <==> (y >> 4u8) & 1u8 == 1u8,
            (x >> 5u8) & 1u8 == 1u8 <==> (y >> 5u8) & 1u8 == 1u8,
            (x >> 6u8) & 1u8 == 1u8 <==> (y >> 6u8) & 1u8 == 1u8,
            (x >> 7u8) & 1u8 == 1u8 <==> (y >> 7u8) & 1u8 == 1u8,
    ;
}

/// Whole bytes stand in the input where they are.
pub proof fn lemma_data_stands(input: Seq<u8>, k: int, data: Seq<u8>)
    requires
        0 <= k,
    ensures
        stands(input, 8 * k, data_bits(data)) <==> k + data.len() <= input.len() && input.subrange(k, k + data.len())
            == data,
{
    let bits = data_bits(data);
    if stands(input, 8 * k, bits) {
        assert forall|j: int| 0 <= j < data.len() implies input[k + j] == #[trigger] data[j] by {
            let x = input[k + j];
            let y = data[j];
            assert forall|b: u8| b < 8 implies (#[trigger] (x >> b) & 1u8 == 1u8) == ((y >> b) & 1u8 == 1u8) by {
                let i = 8 * j + b;
                assert(is_set(input, 8 * k + i) == bits[i]);
                assert((8 * k + i) / 8 == k + j && (8 * k + i) % 8 == b as int);
                assert(i / 8 == j && i % 8 == b as int);
            }
            lemma_same_byte(x, y);
        }
        assert(input.subrange(k, k + data.len()) =~= data);
    }
    if k + data.len() <= input.len() && input.subrange(k, k + data.len()) == data {
        assert forall|i: int| 0 <= i < bits.len() implies is_set(input, 8 * k + i) == #[trigger] bits[i] by {
            let j = i / 8;
            assert((8 * k + i) / 8 == k + j && (8 * k + i) % 8 == i % 8);
            assert(input.subrange(k, k + data.len())[j] == input[k + j]);
        }
    }
}

/// A block.
pub ghost enum Block {
    /// Bytes as they are, after bits that fill a byte up.
    Stored { pad: Seq<bool>, data: Seq<u8> },
    /// Steps in the codes that the format fixes.
    Fixed(Seq<Step>),
    /// Steps in codes of the block's own.
    Own(Table, Seq<Step>),
}

impl Block {
    /// The block can be written at bit `p`, after `n` bytes.
    pub open spec fn wf(self, p: int, n: nat) -> bool {
        match self {
            Block::Stored { pad, data } => data.len() <= 65535 && pad.len() < 8 && (p + 3 + pad.len()) % 8 == 0,
            Block::Fixed(steps) => steps_wf(Book::Fixed, steps, n),
            Block::Own(table, steps) => table.wf() && steps_wf(table.book(), steps, n),
        }
    }

    /// What follows the three bits that tell its kind.
    pub open spec fn body_bits(self) -> Seq<bool> {
        match self {
            Block::Stored { pad, data } => pad + (low_first(data.len(), 16) + (low_first(
                (65535 - data.len()) as nat,
                16,
            ) + data_bits(data))),
            Block::Fixed(steps) => steps_bits(Book::Fixed, steps),
            Block::Own(table, steps) => table.bits() + steps_bits(table.book(), steps),
        }
    }

    /// The bits of the block, which may be the last.
    pub open spec fn bits(self, last: bool) -> Seq<bool> {
        (match self {
            Block::Stored { .. } => seq![last, false, false],
            Block::Fixed(_) => seq![last, true, false],
            Block::Own(_, _) => seq![last, false, true],
        }) + self.body_bits()
    }

    /// The bytes `out` with those that the block writes.
    pub open spec fn written(self, out: Seq<u8>) -> Seq<u8> {
        match self {
            Block::Stored { pad, data } => out + data,
            Block::Fixed(steps) => steps_written(steps, out),
            Block::Own(table, steps) => steps_written(steps, out),
        }
    }
}

pub proof fn lemma_kind_bits(input: Seq<u8>, p: int, a: bool, b: bool, c: bool)
    requires
        0 <= p,
    ensures
        stands(input, p, seq![a, b, c]) <==> p + 3 <= bit_len(input) && (bits_at(input, p, 1) == 1) == a && bits_at(
            input,
            p + 1,
            2,
        ) == (if b { 1int } else { 0int }) + if c { 2int } else { 0int },
{
    let bits = seq![a, b, c];
    reveal_with_fuel(bits_at, 3);
    if p + 3 <= bit_len(input) {
        crate::deflate::bits::lemma_bit_at_bound(input, p);
        crate::deflate::bits::lemma_bit_at_bound(input, p + 1);
        crate::deflate::bits::lemma_bit_at_bound(input, p + 2);
        if stands(input, p, bits) {
            assert(is_set(input, p + 0) == bits[0]);
            assert(is_set(input, p + 1) == bits[1]);
            assert(is_set(input, p + 2) == bits[2]);
        }
        if is_set(input, p) == a && is_set(input, p + 1) == b && is_set(input, p + 2) == c {
            assert forall|i: int| 0 <= i < bits.len() implies is_set(input, p + i) == #[trigger] bits[i] by {
                assert(i == 0 || i == 1 || i == 2);
            }
        }
    }
}

/// A block that stands in the input is decoded to what it writes.
pub proof fn law_block_decodes(b: Block, last: bool, input: Seq<u8>, p: int, out: Seq<u8>)
    requires
        0 <= p,
        b.wf(p, out.len()),
        stands(input, p, b.bits(last)),
    ensures
        block(input, p, out) == (Decoded {
            out: b.written(out),
            end: Ok::<(int, bool), DeflateError>((p + b.bits(last).len(), last)),
        }),
{
    let kind = match b {
        Block::Stored { .. } => seq![last, false, false],
        Block::Fixed(_) => seq![last, true, false],
        Block::Own(_, _) => seq![last, false, true],
    };
    lemma_stands_append(input, p, kind, b.body_bits());
    lemma_kind_bits(input, p, kind[0], kind[1], kind[2]);
    assert(kind =~= seq![kind[0], kind[1], kind[2]]);
    let q = p + 3;
    match b {
        Block::Stored { pad, data } => {
            lemma_stored_read(pad, data, input, q);
        },
        Block::Fixed(steps) => {
            law_steps_decode(Book::Fixed, steps, input, q, out);
        },
        Block::Own(table, steps) => {
            let tb = table.bits();
            lemma_stands_append(input, q, tb, steps_bits(table.book(), steps));
            law_table_read(table, input, q, false);
            law_steps_decode(table.book(), steps, input, q + tb.len(), out);
        },
    }
}

proof fn lemma_stored_read(pad: Seq<bool>, data: Seq<u8>, input: Seq<u8>, q: int)
    requires
        0 <= q,
        data.len() <= 65535,
        pad.len() < 8,
        (q + pad.len()) % 8 == 0,
        stands(input, q, (Block::Stored { pad, data }).body_bits()),
    ensures
        ({
            let from = (q + pad.len()) / 8 + 4;
            &&& stored_at(input, q) == Ok::<(int, int), DeflateError>((from, data.len() as int))
            &&& from + data.len() <= input.len()
            &&& input.subrange(from, from + data.len()) == data
            &&& 8 * (from + data.len()) == q + (Block::Stored { pad, data }).body_bits().len()
        }),
{
    lemma2_to64();
    vstd::arithmetic::power2::lemma2_to64_rest();
    let n = data.len();
    let a = low_first(n, 16);
    let b = low_first((65535 - n) as nat, 16);
    let c = data_bits(data);
    let q1 = q + pad.len();
    lemma_stands_append(input, q, pad, a + (b + c));
    lemma_stands_append(input, q1, a, b + c);
    lemma_stands_append(input, q1 + 16, b, c);
    lemma_read_low(input, q1, n, 16);
    lemma_read_low(input, q1 + 16, (65535 - n) as nat, 16);
    assert(align_up(q) == q1);
    let from = q1 / 8 + 4;
    assert(8 * from == q1 + 32);
    lemma_data_stands(input, from, data);
}

/// A block that is decoded stands in the input.
pub proof fn law_block_stands(input: Seq<u8>, p: int, out: Seq<u8>) -> (b: Block)
    requires
        0 <= p,
        block(input, p, out).end is Ok,
    ensures
        b.wf(p, out.len()),
        ({
            let last = block(input, p, out).end->Ok_0.1;
            &&& stands(input, p, b.bits(last))
            &&& block(input, p, out) == (Decoded {
                out: b.written(out),
                end: Ok::<(int, bool), DeflateError>((p + b.bits(last).len(), last)),
            })
        }),
{
    let last = block(input, p, out).end->Ok_0.1;
    let q = p + 3;
    let btype = bits_at(input, p + 1, 2);
    let b = match body_at(input, q, btype)->Ok_0 {
        Body::Stored { from, len } => {
            lemma_stored_stands(input, q)
        },
        Body::Compressed(c) => if btype == 1 {
            Block::Fixed(law_run_stands(Book::Fixed, input, q, out))
        } else {
            let table = law_table_stands(input, q, false);
            let steps = law_run_stands(table.book(), input, q + table.bits().len(), out);
            lemma_stands_append(input, q, table.bits(), steps_bits(table.book(), steps));
            Block::Own(table, steps)
        },
    };
    let kind = match b {
        Block::Stored { .. } => seq![last, false, false],
        Block::Fixed(_) => seq![last, true, false],
        Block::Own(_, _) => seq![last, false, true],
    };
    lemma_kind_bits(input, p, kind[0], kind[1], kind[2]);
    assert(kind =~= seq![kind[0], kind[1], kind[2]]);
    lemma_stands_append(input, p, kind, b.body_bits());
    b
}

proof fn lemma_stored_stands(input: Seq<u8>, q: int) -> (b: Block)
    requires
        0 <= q,
        match stored_at(input, q) {
            Ok((from, len)) => from + len <= input.len(),
            Err(_) => false,
        },
    ensures
        b is Stored,
        b.wf(q - 3, 0),
        stands(input, q, b.body_bits()),
        b->data == input.subrange(stored_at(input, q)->Ok_0.0, stored_at(input, q)->Ok_0.0 + stored_at(input, q)->Ok_0.1),
        8 * (stored_at(input, q)->Ok_0.0 + stored_at(input, q)->Ok_0.1) == q + b.body_bits().len(),
{
    lemma2_to64();
    vstd::arithmetic::power2::lemma2_to64_rest();
    let q1 = align_up(q);
    let pad = Seq::new((q1 - q) as nat, |i: int| is_set(input, q + i));
    let (from, len) = stored_at(input, q)->Ok_0;
    let data = input.subrange(from, from + len);
    let n = data.len();
    lemma_bits_bound(input, q1, 16);
    lemma_bits_bound(input, q1 + 16, 16);
    let a = low_first(n, 16);
    let b = low_first((65535 - n) as nat, 16);
    let c = data_bits(data);
    lemma_read_low(input, q1, n, 16);
    lemma_read_low(input, q1 + 16, (65535 - n) as nat, 16);
    assert(8 * from == q1 + 32);
    lemma_data_stands(input, from, data);
    lemma_stands_append(input, q, pad, a + (b + c));
    lemma_stands_append(input, q1, a, b + c);
    lemma_stands_append(input, q1 + 16, b, c);
    Block::Stored { pad, data }
}

/// The bits of some blocks, of which the last may end the stream.
pub open spec fn blocks_bits(blocks: Seq<Block>, ends: bool) -> Seq<bool>
    decreases blocks.len(),
{
    if blocks.len() == 0 {
        Seq::empty()
    } else {
        blocks[0].bits(ends && blocks.len() == 1) + blocks_bits(blocks.skip(1), ends)
    }
}

/// The blocks can be written from bit `p` on, after the bytes `out`.
pub open spec fn blocks_wf(blocks: Seq<Block>, p: int, out: Seq<u8>) -> bool
    decreases blocks.len(),
{
    blocks.len() == 0 || {
        &&& blocks[0].wf(p, out.len())
        &&& blocks_wf(blocks.skip(1), p + blocks[0].bits(false).len(), blocks[0].written(out))
    }
}

/// The bytes `out` with those that the blocks write.
pub open spec fn blocks_written(blocks: Seq<Block>, out: Seq<u8>) -> Seq<u8>
    decreases blocks.len(),
{
    if blocks.len() == 0 {
        out
    } else {
        blocks_written(blocks.skip(1), blocks[0].written(out))
    }
}

/// The last of some blocks from bit `p` on is the first that ends the stream, or
/// that ends at or after bit `hint`.
pub open spec fn stops_at(blocks: Seq<Block>, ends: bool, p: int, hint: int) -> bool
    decreases blocks.len(),
{
    let q = p + blocks[0].bits(false).len();
    if blocks.len() <= 1 {
        blocks.len() == 1 && (ends || q >= hint)
    } else {
        q < hint && stops_at(blocks.skip(1), ends, q, hint)
    }
}

/// Blocks that stand in the input are decoded to what they write, up to the first
/// that ends the stream, or that ends at or after the bit that is asked for.
pub proof fn law_blocks_decode(blocks: Seq<Block>, ends: bool, input: Seq<u8>, p: int, hint: int, out: Seq<u8>)
    requires
        0 <= p,
        blocks_wf(blocks, p, out),
        stops_at(blocks, ends, p, hint),
        stands(input, p, blocks_bits(blocks, ends)),
    ensures
        until(input, p, hint, out) == (Decoded {
            out: blocks_written(blocks, out),
            end: Ok::<(int, bool), DeflateError>((p + blocks_bits(blocks, ends).len(), ends)),
        }),
    decreases blocks.len(),
{
    reveal(until);
    let b = blocks[0];
    let last = ends && blocks.len() == 1;
    let rest = blocks.skip(1);
    lemma_stands_append(input, p, b.bits(last), blocks_bits(rest, ends));
    law_block_decodes(b, last, input, p, out);
    assert(b.bits(false).len() == b.bits(last).len());
    if blocks.len() > 1 {
        law_blocks_decode(rest, ends, input, p + b.bits(false).len(), hint, b.written(out));
    } else {
        assert(rest =~= Seq::<Block>::empty());
        assert(blocks_bits(blocks, ends) =~= b.bits(last));
    }
}

/// Blocks that are decoded stand in the input.
pub proof fn law_until_stands(input: Seq<u8>, p: int, hint: int, out: Seq<u8>) -> (blocks: Seq<Block>)
    requires
        0 <= p,
        until(input, p, hint, out).end is Ok,
    ensures
        ({
            let ends = until(input, p, hint, out).end->Ok_0.1;
            &&& blocks_wf(blocks, p, out)
            &&& stops_at(blocks, ends, p, hint)
            &&& stands(input, p, blocks_bits(blocks, ends))
            &&& until(input, p, hint, out) == (Decoded {
                out: blocks_written(blocks, out),
                end: Ok::<(int, bool), DeflateError>((p + blocks_bits(blocks, ends).len(), ends)),
            })
        }),
    decreases bit_len(input) - p,
{
    reveal(until);
    lemma_block_advances(input, p, out);
    let ends = until(input, p, hint, out).end->Ok_0.1;
    let b = law_block_stands(input, p, out);
    let (q, last) = block(input, p, out).end->Ok_0;
    assert(b.bits(false).len() == b.bits(last).len());
    let rest = if last || q >= hint {
        Seq::empty()
    } else {
        law_until_stands(input, q, hint, b.written(out))
    };
    let blocks = seq![b] + rest;
    assert(blocks.skip(1) =~= rest);
    assert(blocks[0] == b);
    lemma_stands_append(input, p, b.bits(last), blocks_bits(rest, ends));
    if last || q >= hint {
        assert(ends == last);
        assert(blocks_bits(rest, ends) == Seq::<bool>::empty());
        assert(blocks_bits(blocks, ends) == b.bits(last) + blocks_bits(rest, ends));
        assert(blocks_bits(blocks, ends) =~= b.bits(last));
        assert(blocks_wf(rest, q, b.written(out)));
        assert(blocks_written(rest, b.written(out)) == b.written(out));
    } else {
        assert(rest.len() > 0);
        assert(blocks_bits(blocks, ends) == b.bits(false) + blocks_bits(rest, ends));
    }
    assert(blocks_written(blocks, out) == blocks_written(rest, b.written(out)));
    assert(blocks_wf(blocks, p, out));
    blocks
}

pub proof fn lemma_blocks_stop(blocks: Seq<Block>, p: int, hint: int, input: Seq<u8>)
    requires
        blocks.len() > 0,
        stands(input, p, blocks_bits(blocks, true)),
        hint > bit_len(input),
    ensures
        stops_at(blocks, true, p, hint),
    decreases blocks.len(),
{
    let b = blocks[0];
    let last = blocks.len() == 1;
    let rest = blocks.skip(1);
    lemma_stands_append(input, p, b.bits(last), blocks_bits(rest, true));
    assert(b.bits(false).len() == b.bits(last).len());
    if blocks.len() > 1 {
        lemma_blocks_stop(rest, p + b.bits(false).len(), hint, input);
    }
}

/// Inflating inverts writing: a stream that stands in the input, of blocks of any
/// kinds, is decoded to what it writes.
pub proof fn law_stream_decodes(blocks: Seq<Block>, input: Seq<u8>, p: int, out: Seq<u8>)
    requires
        0 <= p,
        blocks.len() > 0,
        blocks_wf(blocks, p, out),
        stands(input, p, blocks_bits(blocks, true)),
    ensures
        inflate(input, p, out) == (Decoded {
            out: blocks_written(blocks, out),
            end: Ok::<int, DeflateError>(p + blocks_bits(blocks, true).len()),
        }),
{
    lemma_blocks_stop(blocks, p, bit_len(input) + 1, input);
    law_blocks_decode(blocks, true, input, p, bit_len(input) + 1, out);
}

/// Nothing else is inflated: what is decoded stands in the input as a stream that
/// writes it.
pub proof fn law_inflated_stands(input: Seq<u8>, p: int, out: Seq<u8>) -> (blocks: Seq<Block>)
    requires
        0 <= p,
        inflate(input, p, out).end is Ok,
    ensures
        blocks.len() > 0,
        blocks_wf(blocks, p, out),
        stands(input, p, blocks_bits(blocks, true)),
        inflate(input, p, out) == (Decoded {
            out: blocks_written(blocks, out),
            end: Ok::<int, DeflateError>(p + blocks_bits(blocks, true).len()),
        }),
{
    let hint = bit_len(input) + 1;
    crate::deflate::format::lemma_until_advances(input, p, hint, out);
    law_until_stands(input, p, hint, out)
}

proof fn lemma_bit_moved(part: Seq<u8>, input: Seq<u8>, k: int, i: int)
    requires
        0 <= k,
        k + part.len() <= input.len(),
        input.subrange(k, k + part.len()) == part,
        0 <= i < 8 * part.len(),
    ensures
        is_set(part, i) == is_set(input, i + 8 * k),
{
    assert((i + 8 * k) / 8 == i / 8 + k && (i + 8 * k) % 8 == i % 8);
    assert(input.subrange(k, k + part.len())[i / 8] == input[i / 8 + k]);
}

/// Bits stand in a part of the input where they stand in the input.
pub proof fn lemma_stands_moved(part: Seq<u8>, input: Seq<u8>, k: int, p: int, bits: Seq<bool>)
    requires
        0 <= k,
        k + part.len() <= input.len(),
        input.subrange(k, k + part.len()) == part,
        0 <= p,
        p + bits.len() <= 8 * part.len(),
    ensures
        stands(part, p, bits) <==> stands(input, p + 8 * k, bits),
{
    if stands(part, p, bits) {
        assert forall|i: int| 0 <= i < bits.len() implies is_set(input, p + 8 * k + i) == #[trigger] bits[i] by {
            assert(is_set(part, p + i) == bits[i]);
            lemma_bit_moved(part, input, k, p + i);
        }
    }
    if stands(input, p + 8 * k, bits) {
        assert forall|i: int| 0 <= i < bits.len() implies is_set(part, p + i) == #[trigger] bits[i] by {
            assert(is_set(input, p + 8 * k + i) == bits[i]);
            lemma_bit_moved(part, input, k, p + i);
        }
    }
}

proof fn lemma_step_after(book: Book, step: Step, a: Seq<u8>, b: Seq<u8>)
    requires
        step.wf(book),
        step.reaches(b.len()),
    ensures
        step.written(a + b) == a + step.written(b),
        step.written(b).len() == b.len() + if step is Copy { step.length() as nat } else { 1 },
{
    if step is Copy {
        crate::deflate::writing::lemma_copy_bounds(step, book);
        let d = step.distance();
        let x = step.written(a + b);
        let y = a + step.written(b);
        assert forall|i: int| 0 <= i < x.len() implies x[i] == y[i] by {
            if i >= a.len() + b.len() {
                let j = i - a.len() - b.len();
                assert(0 <= j % d < d) by (nonlinear_arith)
                    requires
                        d >= 1,
                ;
            }
        }
        assert(x =~= y);
    } else {
        assert(step.written(a + b) =~= a + step.written(b));
    }
}

/// What steps write after some bytes, they write after others before these.
proof fn lemma_steps_after(book: Book, steps: Seq<Step>, a: Seq<u8>, b: Seq<u8>)
    requires
        steps_wf(book, steps, b.len()),
    ensures
        steps_wf(book, steps, (a + b).len()),
        steps_written(steps, a + b) == a + steps_written(steps, b),
    decreases steps.len(),
{
    if steps.len() > 0 {
        lemma_step_after(book, steps[0], a, b);
        lemma_steps_after(book, steps.skip(1), a, steps[0].written(b));
        lemma_step_after(book, steps[0], Seq::empty(), a + b);
        assert((a + steps[0].written(b)).len() == (a + b).len() + if steps[0] is Copy {
            steps[0].length() as nat
        } else {
            1
        });
    }
}

/// What blocks write at one byte after some bytes, they write at any other after
/// others before these.
pub proof fn lemma_blocks_moved(blocks: Seq<Block>, p: int, k: int, a: Seq<u8>, b: Seq<u8>)
    requires
        blocks_wf(blocks, p, b),
    ensures
        blocks_wf(blocks, p + 8 * k, a + b),
        blocks_written(blocks, a + b) == a + blocks_written(blocks, b),
    decreases blocks.len(),
{
    if blocks.len() > 0 {
        match blocks[0] {
            Block::Stored { pad, data } => {
                assert(a + b + data =~= a + (b + data));
                assert((p + 8 * k + 3 + pad.len()) % 8 == (p + 3 + pad.len()) % 8);
            },
            Block::Fixed(steps) => {
                lemma_steps_after(Book::Fixed, steps, a, b);
            },
            Block::Own(table, steps) => {
                lemma_steps_after(table.book(), steps, a, b);
            },
        }
        let n = blocks[0].bits(false).len();
        lemma_blocks_moved(blocks.skip(1), p + n, k, a, blocks[0].written(b));
        assert(p + n + 8 * k == p + 8 * k + n);
    }
}

} // verus!
