//! What decoding refuses, by the rule that the stream breaks, and where blocks are
//! looked for.
use vstd::prelude::*;
use vstd::arithmetic::power2::{pow2, lemma2_to64, lemma2_to64_rest};
use crate::deflate::DeflateError;
use crate::deflate::alphabets::{length_bits, law_lengths};
use crate::deflate::bits::{align_up, bits_at, bit_len};
use crate::deflate::block_finder::looks_like_block;
use crate::deflate::blocks::{
    Block, Table, blocks_bits, blocks_wf, law_stream_decodes, law_table_read, law_table_stands, lemma_kind_bits,
};
use crate::deflate::canonical::{lookup_at, symbol_of};
use crate::deflate::embed::law_until_embedded;
use crate::deflate::format::{Decoded, block, inflate, run, until, lemma_until_advances};
use crate::deflate::writing::{
    Book, Step, low_first, stands, law_copy_repeats, law_dist_lookup, law_lit_lookup, law_step_read,
    lemma_copy_bounds, lemma_fixed_fits, lemma_read_low, lemma_stands_append, lemma_used,
};

verus! {

/// A block of the fourth kind is refused.
pub proof fn law_reserved_kind(last: bool, input: Seq<u8>, p: int, out: Seq<u8>)
    requires
        stands(input, p, seq![last, true, true]),
    ensures
        block(input, p, out) == (Decoded {
            out,
            end: Err::<(int, bool), DeflateError>(DeflateError::Invalid("reserved block type")),
        }),
{
    lemma_kind_bits(input, p, last, true, true);
}

/// A stored block whose length is not told twice, once with every bit turned over,
/// is refused.
pub proof fn law_lengths_disagree(last: bool, pad: Seq<bool>, a: nat, b: nat, input: Seq<u8>, p: int, out: Seq<u8>)
    requires
        a <= 65535,
        b <= 65535,
        a + b != 65535,
        pad.len() < 8,
        (p + 3 + pad.len()) % 8 == 0,
        stands(input, p, seq![last, false, false] + (pad + (low_first(a, 16) + low_first(b, 16)))),
    ensures
        block(input, p, out) == (Decoded {
            out,
            end: Err::<(int, bool), DeflateError>(DeflateError::Invalid("stored block: LEN/NLEN mismatch")),
        }),
{
    lemma2_to64();
    lemma2_to64_rest();
    let kind = seq![last, false, false];
    let x = low_first(a, 16);
    let y = low_first(b, 16);
    lemma_stands_append(input, p, kind, pad + (x + y));
    lemma_kind_bits(input, p, last, false, false);
    let q = p + 3;
    let q1 = q + pad.len();
    lemma_stands_append(input, q, pad, x + y);
    lemma_stands_append(input, q1, x, y);
    lemma_read_low(input, q1, a, 16);
    lemma_read_low(input, q1 + 16, b, 16);
    assert(align_up(q) == q1);
}

/// The bits of steps without the end of a block.
pub open spec fn front_bits(book: Book, steps: Seq<Step>) -> Seq<bool>
    decreases steps.len(),
{
    if steps.len() == 0 {
        Seq::empty()
    } else {
        steps[0].bits(book) + front_bits(book, steps.skip(1))
    }
}

/// The steps can be written with the codes of `book`, and can follow the bytes `out`.
pub open spec fn front_wf(book: Book, steps: Seq<Step>, out: Seq<u8>) -> bool
    decreases steps.len(),
{
    steps.len() == 0 || {
        &&& steps[0].wf(book)
        &&& steps[0].reaches(out.len())
        &&& front_wf(book, steps.skip(1), steps[0].written(out))
    }
}

/// The bytes `out` with what the steps write.
pub open spec fn front_written(steps: Seq<Step>, out: Seq<u8>) -> Seq<u8>
    decreases steps.len(),
{
    if steps.len() == 0 {
        out
    } else {
        front_written(steps.skip(1), steps[0].written(out))
    }
}

/// Decoding a block goes on after its first steps.
pub proof fn law_front_decodes(book: Book, steps: Seq<Step>, input: Seq<u8>, p: int, out: Seq<u8>)
    requires
        book.wf(),
        0 <= p,
        front_wf(book, steps, out),
        stands(input, p, front_bits(book, steps)),
    ensures
        run(book.lit(), book.dist(), input, p, out) == run(
            book.lit(),
            book.dist(),
            input,
            p + front_bits(book, steps).len(),
            front_written(steps, out),
        ),
    decreases steps.len(),
{
    if steps.len() > 0 {
        reveal(run);
        let step = steps[0];
        let a = step.bits(book);
        let rest = steps.skip(1);
        lemma_stands_append(input, p, a, front_bits(book, rest));
        law_step_read(book, step, input, p);
        let next = step.written(out);
        if step is Copy {
            lemma_copy_bounds(step, book);
            law_copy_repeats(out, step.distance(), step.length());
        } else {
            assert(next =~= out.push(step->Literal_0));
        }
        law_front_decodes(book, rest, input, p + a.len(), next);
    }
}

/// A copy that reaches before the first byte is refused; what came before it stays.
pub proof fn law_too_far(book: Book, steps: Seq<Step>, step: Step, input: Seq<u8>, p: int, out: Seq<u8>)
    requires
        book.wf(),
        0 <= p,
        front_wf(book, steps, out),
        step is Copy,
        step.wf(book),
        step.distance() > front_written(steps, out).len(),
        stands(input, p, front_bits(book, steps) + step.bits(book)),
    ensures
        run(book.lit(), book.dist(), input, p, out) == (Decoded {
            out: front_written(steps, out),
            end: Err::<int, DeflateError>(DeflateError::Invalid("back-reference distance out of bounds")),
        }),
{
    let q = p + front_bits(book, steps).len();
    lemma_stands_append(input, p, front_bits(book, steps), step.bits(book));
    law_front_decodes(book, steps, input, p, out);
    law_step_read(book, step, input, q);
    reveal(run);
}

/// The two last symbols of literals and lengths are refused.
pub proof fn law_no_such_length(book: Book, steps: Seq<Step>, s: int, input: Seq<u8>, p: int, out: Seq<u8>)
    requires
        book.wf(),
        0 <= p,
        front_wf(book, steps, out),
        s > 285,
        book.has_lit(s),
        stands(input, p, front_bits(book, steps) + book.lit_word(s)),
    ensures
        run(book.lit(), book.dist(), input, p, out) == (Decoded {
            out: front_written(steps, out),
            end: Err::<int, DeflateError>(DeflateError::Invalid("literal/length symbol out of range")),
        }),
{
    let q = p + front_bits(book, steps).len();
    lemma_stands_append(input, p, front_bits(book, steps), book.lit_word(s));
    law_front_decodes(book, steps, input, p, out);
    law_lit_lookup(book, s, input, q);
    reveal(run);
}

/// The two last distance symbols are refused.
pub proof fn law_no_such_distance(
    book: Book,
    steps: Seq<Step>,
    length: (int, nat),
    d: int,
    input: Seq<u8>,
    p: int,
    out: Seq<u8>,
)
    requires
        book.wf(),
        0 <= p,
        front_wf(book, steps, out),
        0 <= length.0 < 29,
        length.1 < pow2(length_bits(length.0)),
        book.has_lit(257 + length.0),
        d >= 30,
        book.has_dist(d),
        stands(
            input,
            p,
            front_bits(book, steps) + (book.lit_word(257 + length.0) + (low_first(length.1, length_bits(length.0))
                + book.dist_word(d))),
        ),
    ensures
        run(book.lit(), book.dist(), input, p, out) == (Decoded {
            out: front_written(steps, out),
            end: Err::<int, DeflateError>(DeflateError::Invalid("distance symbol out of range")),
        }),
{
    let f = front_bits(book, steps);
    let a = book.lit_word(257 + length.0);
    let b = low_first(length.1, length_bits(length.0));
    let c = book.dist_word(d);
    let q = p + f.len();
    lemma_stands_append(input, p, f, a + (b + c));
    law_front_decodes(book, steps, input, p, out);
    lemma_stands_append(input, q, a, b + c);
    lemma_stands_append(input, q + a.len(), b, c);
    law_lit_lookup(book, 257 + length.0, input, q);
    law_lengths(length.0);
    lemma_read_low(input, q + a.len(), length.1, length_bits(length.0));
    law_dist_lookup(book, d, input, q + a.len() + b.len());
    reveal(run);
}

/// A stream that is cut off is refused as too short, wherever it is cut.
pub proof fn law_cut_off(blocks: Seq<Block>, input: Seq<u8>, p: int, out: Seq<u8>, n: int)
    requires
        0 <= p,
        blocks.len() > 0,
        blocks_wf(blocks, p, out),
        stands(input, p, blocks_bits(blocks, true)),
        0 <= n,
        8 * n < p + blocks_bits(blocks, true).len(),
    ensures
        inflate(input.take(n), p, out).end == Err::<int, DeflateError>(DeflateError::UnexpectedEof),
{
    law_stream_decodes(blocks, input, p, out);
    let part = input.take(n);
    assert(part =~= input.subrange(0, 0int + part.len()));
    let near = bit_len(part) + 1;
    let far = bit_len(input) + 1;
    lemma_until_advances(part, p, near, out);
    if until(part, p, near, out).end != Err::<(int, bool), DeflateError>(DeflateError::UnexpectedEof) {
        law_until_embedded(part, input, 0, p, near, out);
        crate::agreement::law_until_resumes(input, p, near, far, out);
    }
}

/// A header can be that of a block: there is a code for the end of the block, and
/// one for something else.
pub open spec fn can_end(table: Table) -> bool {
    &&& table.lit()[256] > 0
    &&& exists|i: int| 0 <= i < table.lit().len() && i != 256 && #[trigger] table.lit()[i] > 0
}

/// A block is looked for where a header with complete codes stands that can be
/// that of a block, after the bits of a block that is not the last.
pub proof fn law_blocks_found(table: Table, input: Seq<u8>, p: int)
    requires
        0 <= p,
        table.wf(),
        table.is_complete(),
        can_end(table),
        stands(input, p, seq![false, false, true] + table.bits()),
    ensures
        looks_like_block(input, p),
{
    let kind = seq![false, false, true];
    lemma_stands_append(input, p, kind, table.bits());
    lemma_kind_bits(input, p, false, false, true);
    lemma_one_bit(input, p);
    law_table_read(table, input, p + 3, true);
    let lit = table.lit();
    lemma_used(lit, lit.len() as int);
    let i = choose|i: int| 0 <= i < lit.len() && i != 256 && #[trigger] lit[i] > 0;
    if i < 256 {
        assert(0 <= i < 256 < lit.len() && lit[i] > 0 && lit[256] > 0);
    } else {
        assert(0 <= 256 < i < lit.len() && lit[256] > 0 && lit[i] > 0);
    }
}

proof fn lemma_one_bit(input: Seq<u8>, p: int)
    ensures
        bits_at(input, p, 1) <= 1,
{
    lemma2_to64();
    crate::deflate::bits::lemma_bits_bound(input, p, 1);
}

/// Nowhere else.
pub proof fn law_found_stands(input: Seq<u8>, p: int) -> (table: Table)
    requires
        0 <= p,
        looks_like_block(input, p),
    ensures
        table.wf(),
        table.is_complete(),
        can_end(table),
        stands(input, p, seq![false, false, true] + table.bits()),
{
    let table = law_table_stands(input, p + 3, true);
    let kind = seq![false, false, true];
    lemma_kind_bits(input, p, false, false, true);
    lemma_stands_append(input, p, kind, table.bits());
    let lit = table.lit();
    lemma_used(lit, lit.len() as int);
    let (i, j) = choose|i: int, j: int| 0 <= i < j < lit.len() && #[trigger] lit[i] > 0 && #[trigger] lit[j] > 0;
    assert(lit[i] > 0 && lit[j] > 0);
    table
}

/// Where no code of literals and lengths stands, that is told, unless the input ends
/// before the longest code would.
pub proof fn law_no_such_code(book: Book, input: Seq<u8>, p: int)
    requires
        book.wf(),
        0 <= p,
        forall|s: int| #[trigger] book.has_lit(s) ==> !stands(input, p, book.lit_word(s)),
    ensures
        bit_len(input) - p >= 15 ==> lookup_at(book.lit(), input, p) == Err::<int, DeflateError>(
            DeflateError::Invalid("no matching huffman code"),
        ),
        bit_len(input) - p < 15 ==> lookup_at(book.lit(), input, p) == Err::<int, DeflateError>(
            DeflateError::UnexpectedEof,
        ),
{
    if book is Fixed {
        lemma_fixed_fits();
    }
    if let Some(s) = symbol_of(book.lit(), input, p) {
        assert(book.lit()[s] <= 15);
        if p + book.lit()[s] <= bit_len(input) {
            assert(book.has_lit(s));
            law_lit_lookup(book, s, input, p);
        }
    }
}

/// The same of the codes of distances.
pub proof fn law_no_such_distance_code(book: Book, input: Seq<u8>, p: int)
    requires
        book.wf(),
        0 <= p,
        forall|s: int| #[trigger] book.has_dist(s) ==> !stands(input, p, book.dist_word(s)),
    ensures
        bit_len(input) - p >= 15 ==> lookup_at(book.dist(), input, p) == Err::<int, DeflateError>(
            DeflateError::Invalid("no matching huffman code"),
        ),
        bit_len(input) - p < 15 ==> lookup_at(book.dist(), input, p) == Err::<int, DeflateError>(
            DeflateError::UnexpectedEof,
        ),
{
    if book is Fixed {
        lemma_fixed_fits();
    }
    if let Some(s) = symbol_of(book.dist(), input, p) {
        assert(book.dist()[s] <= 15);
        if p + book.dist()[s] <= bit_len(input) {
            assert(book.has_dist(s));
            law_dist_lookup(book, s, input, p);
        }
    }
}

} // verus!
