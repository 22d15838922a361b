//! How much of some bytes decoding needs.
//!
//! Decoding up to some bit looks at nothing after it, so a part that goes on that
//! long decodes as the whole does.
use vstd::prelude::*;
use crate::deflate::DeflateError;
use crate::deflate::bits::{bits_at, bit_len, align_up, lemma_bits_bound};
use crate::deflate::canonical::{lookup_at, prefix_code, lemma_symbol_of};
use crate::deflate::cells::{
    Cell, run_cells, block_cells, until_cells, copy_cells, lemma_run_cells_advances, lemma_block_cells_advances,
    lemma_until_cells_advances,
};
use crate::deflate::embed::{
    embedded, moved_block, lemma_bits_embedded, lemma_code_bits_embedded, lemma_bits_embedded_if,
    lemma_body_at_embedded, lemma_body_codes, lemma_lookup_embedded, lemma_precode_embedded,
    lemma_block_cells_embedded, lemma_symbol_embedded, law_until_cells_embedded,
};
use crate::deflate::format::{
    Symbol, Body, body_at, code_lengths, dynamic_header, extra_at, precode_lengths, repeat_base, repeat_extra, repeated,
    symbol_at, lemma_code_lengths_advances, lemma_lookup_advances, lemma_symbol_advances,
};
use crate::deflate::huffman::lemma_tree_is_prefix_code;
use crate::deflate::tables::{LENGTH_EXTRA, lemma_alphabet_bounds};

verus! {

proof fn lemma_lookup_fits(lengths: Seq<u8>, part: Seq<u8>, whole: Seq<u8>, k: int, p: int)
    requires
        embedded(part, whole, k),
        0 <= p,
        prefix_code(lengths),
        match lookup_at(lengths, whole, p + 8 * k) {
            Ok(s) => p + lengths[s] <= bit_len(part),
            Err(_) => false,
        },
    ensures
        lookup_at(lengths, part, p) == lookup_at(lengths, whole, p + 8 * k),
{
    let s = lookup_at(lengths, whole, p + 8 * k)->Ok_0;
    lemma_lookup_advances(lengths, whole, p + 8 * k);
    lemma_code_bits_embedded(part, whole, k, p, lengths[s] as nat);
    lemma_symbol_of(lengths, s, part, p);
}

proof fn lemma_symbol_fits(lit: Seq<u8>, dist: Seq<u8>, part: Seq<u8>, whole: Seq<u8>, k: int, p: int)
    requires
        embedded(part, whole, k),
        0 <= p,
        prefix_code(lit),
        prefix_code(dist),
        match symbol_at(lit, dist, whole, p + 8 * k) {
            Ok((_, q)) => q - 8 * k <= bit_len(part),
            Err(_) => false,
        },
    ensures
        symbol_at(lit, dist, part, p) != Err::<(Symbol, int), DeflateError>(DeflateError::UnexpectedEof),
{
    let w = p + 8 * k;
    lemma_alphabet_bounds();
    lemma_lookup_advances(lit, whole, w);
    let s = lookup_at(lit, whole, w)->Ok_0;
    if 257 <= s <= 285 {
        let q = w + lit[s] + LENGTH_EXTRA[s - 257];
        lemma_lookup_advances(dist, whole, q);
        lemma_lookup_fits(dist, part, whole, k, q - 8 * k);
    }
    lemma_lookup_fits(lit, part, whole, k, p);
}

proof fn lemma_run_fits(
    lit: Seq<u8>,
    dist: Seq<u8>,
    part: Seq<u8>,
    whole: Seq<u8>,
    k: int,
    p: int,
    cells: Seq<Cell>,
)
    requires
        embedded(part, whole, k),
        0 <= p,
        prefix_code(lit),
        prefix_code(dist),
        match run_cells(lit, dist, whole, p + 8 * k, cells).end {
            Ok(q) => q - 8 * k <= bit_len(part),
            Err(_) => false,
        },
    ensures
        run_cells(lit, dist, part, p, cells).end != Err::<int, DeflateError>(DeflateError::UnexpectedEof),
    decreases bit_len(part) - p,
{
    reveal(run_cells);
    lemma_run_cells_advances(lit, dist, whole, p + 8 * k, cells);
    let w = symbol_at(lit, dist, whole, p + 8 * k);
    match w {
        Ok((Symbol::Literal(b), q)) => {
            lemma_run_cells_advances(lit, dist, whole, q, cells.push(Cell::Byte(b)));
        },
        Ok((Symbol::Match { length, distance }, q)) => {
            lemma_run_cells_advances(lit, dist, whole, q, copy_cells(cells, distance, length));
        },
        _ => {},
    }
    lemma_symbol_fits(lit, dist, part, whole, k, p);
    lemma_symbol_advances(lit, dist, part, p);
    lemma_symbol_embedded(lit, dist, part, whole, k, p);
    match symbol_at(lit, dist, part, p) {
        Ok((Symbol::Literal(b), q)) => {
            lemma_run_fits(lit, dist, part, whole, k, q, cells.push(Cell::Byte(b)));
        },
        Ok((Symbol::Match { length, distance }, q)) => {
            lemma_run_fits(lit, dist, part, whole, k, q, copy_cells(cells, distance, length));
        },
        _ => {},
    }
}

proof fn lemma_code_lengths_fit(
    pre: Seq<u8>,
    part: Seq<u8>,
    whole: Seq<u8>,
    k: int,
    p: int,
    acc: Seq<u8>,
    total: int,
)
    requires
        embedded(part, whole, k),
        0 <= p,
        prefix_code(pre),
        acc.len() <= total,
        match code_lengths(pre, whole, p + 8 * k, acc, total) {
            Ok((_, q)) => q - 8 * k <= bit_len(part),
            Err(_) => false,
        },
    ensures
        code_lengths(pre, part, p, acc, total) != Err::<(Seq<u8>, int), DeflateError>(DeflateError::UnexpectedEof),
    decreases bit_len(part) - p,
{
    reveal(code_lengths);
    lemma_code_lengths_advances(pre, whole, p + 8 * k, acc, total);
    if acc.len() < total {
        lemma_lookup_advances(pre, whole, p + 8 * k);
        if let Ok(s) = lookup_at(pre, whole, p + 8 * k) {
            let q = p + 8 * k + pre[s];
            if s < 16 {
                lemma_code_lengths_advances(pre, whole, q, acc.push(s as u8), total);
            } else if let Ok((extra, r)) = extra_at(whole, q, repeat_extra(s)) {
                let n = repeat_base(s) + extra;
                if acc.len() + n <= total {
                    lemma_code_lengths_advances(pre, whole, r, acc + repeated(acc, s, n), total);
                }
            }
        }
        lemma_lookup_fits(pre, part, whole, k, p);
        lemma_lookup_advances(pre, part, p);
        lemma_lookup_embedded(pre, part, whole, k, p);
        if let Ok(s) = lookup_at(pre, part, p) {
            let q = p + pre[s];
            if s < 16 {
                lemma_code_lengths_fit(pre, part, whole, k, q, acc.push(s as u8), total);
            } else if !(s == 16 && acc.len() == 0) {
                lemma_bits_embedded_if(part, whole, k, q, repeat_extra(s) as nat);
                if let Ok((extra, r)) = extra_at(part, q, repeat_extra(s)) {
                    let n = repeat_base(s) + extra;
                    if acc.len() + n <= total {
                        lemma_code_lengths_fit(pre, part, whole, k, r, acc + repeated(acc, s, n), total);
                    }
                }
            }
        }
    }
}

proof fn lemma_header_fits(part: Seq<u8>, whole: Seq<u8>, k: int, p: int)
    requires
        embedded(part, whole, k),
        0 <= p,
        match dynamic_header(whole, p + 8 * k, false) {
            Ok(c) => c.at - 8 * k <= bit_len(part),
            Err(_) => false,
        },
    ensures
        !(dynamic_header(part, p, false) is Err && dynamic_header(part, p, false)->Err_0 == DeflateError::UnexpectedEof),
{
    reveal(dynamic_header);
    let w = p + 8 * k;
    let hlit = bits_at(whole, w, 5) + 257;
    let hdist = bits_at(whole, w + 5, 5) + 1;
    let hclen = bits_at(whole, w + 10, 4) + 4;
    let pre = precode_lengths(whole, w + 14, hclen as int);
    let total = (hlit + hdist) as int;
    lemma_bits_bound(whole, w + 10, 4);
    vstd::arithmetic::power2::lemma2_to64();
    lemma_code_lengths_advances(pre, whole, w + 14 + 3 * hclen, Seq::empty(), total);
    lemma_bits_embedded(part, whole, k, p, 5);
    lemma_bits_embedded(part, whole, k, p + 5, 5);
    lemma_bits_embedded(part, whole, k, p + 10, 4);
    assert(p + 5 + 8 * k == w + 5);
    assert(p + 10 + 8 * k == w + 10);
    lemma_precode_embedded(part, whole, k, p + 14, hclen as int);
    assert(p + 14 + 8 * k == w + 14);
    lemma_tree_is_prefix_code(pre, false);
    assert(p + 14 + 3 * hclen + 8 * k == w + 14 + 3 * hclen);
    lemma_code_lengths_fit(pre, part, whole, k, p + 14 + 3 * hclen, Seq::empty(), total);
}

proof fn lemma_block_fits(part: Seq<u8>, whole: Seq<u8>, k: int, p: int, cells: Seq<Cell>)
    requires
        embedded(part, whole, k),
        0 <= p,
        match block_cells(whole, p + 8 * k, cells).end {
            Ok((q, _)) => q - 8 * k <= bit_len(part),
            Err(_) => false,
        },
    ensures
        block_cells(part, p, cells).end != Err::<(int, bool), DeflateError>(DeflateError::UnexpectedEof),
{
    let w = p + 8 * k;
    lemma_block_cells_advances(whole, w, cells);
    let btype = bits_at(whole, w + 1, 2);
    lemma_body_codes(whole, w + 3, btype);
    if let Ok(Body::Compressed(c)) = body_at(whole, w + 3, btype) {
        lemma_run_cells_advances(c.lit, c.dist, whole, c.at, cells);
    }
    assert(p + 3 <= bit_len(part));
    lemma_bits_embedded(part, whole, k, p, 1);
    lemma_bits_embedded(part, whole, k, p + 1, 2);
    assert(p + 1 + 8 * k == w + 1);
    assert(p + 3 + 8 * k == w + 3);
    match body_at(whole, w + 3, btype) {
        Ok(Body::Stored { from, len }) => {
            let q = align_up(p + 3);
            assert(align_up(w + 3) == q + 8 * k);
            assert(8 * from == q + 8 * k + 32);
            lemma_body_at_embedded(part, whole, k, p + 3, btype);
        },
        Ok(Body::Compressed(c)) => {
            if btype == 2 {
                lemma_header_fits(part, whole, k, p + 3);
            }
            lemma_body_at_embedded(part, whole, k, p + 3, btype);
            lemma_run_fits(c.lit, c.dist, part, whole, k, c.at - 8 * k, cells);
        },
        _ => {},
    }
}

proof fn lemma_until_fits(part: Seq<u8>, whole: Seq<u8>, k: int, p: int, hint: int, cells: Seq<Cell>)
    requires
        embedded(part, whole, k),
        0 <= p,
        match until_cells(whole, p + 8 * k, hint + 8 * k, cells).end {
            Ok((q, _)) => q - 8 * k <= bit_len(part),
            Err(_) => false,
        },
    ensures
        until_cells(part, p, hint, cells).end != Err::<(int, bool), DeflateError>(DeflateError::UnexpectedEof),
    decreases bit_len(whole) - p,
{
    reveal(until_cells);
    let w = p + 8 * k;
    lemma_until_cells_advances(whole, w, hint + 8 * k, cells);
    lemma_block_cells_advances(whole, w, cells);
    let b = block_cells(whole, w, cells);
    if let Ok((q, last)) = b.end {
        if !(last || q >= hint + 8 * k) {
            lemma_until_cells_advances(whole, q, hint + 8 * k, b.out);
            lemma_until_fits(part, whole, k, q - 8 * k, hint, b.out);
        }
        lemma_block_fits(part, whole, k, p, cells);
        lemma_block_cells_embedded(part, whole, k, p, cells);
    }
}

/// Blocks of some bytes decode alike in a part that holds them.
pub proof fn law_part_suffices(part: Seq<u8>, whole: Seq<u8>, k: int, p: int, hint: int, cells: Seq<Cell>)
    requires
        embedded(part, whole, k),
        0 <= p,
        match until_cells(whole, p + 8 * k, hint + 8 * k, cells).end {
            Ok((q, _)) => q - 8 * k <= bit_len(part),
            Err(_) => false,
        },
    ensures
        until_cells(part, p, hint, cells).out == until_cells(whole, p + 8 * k, hint + 8 * k, cells).out,
        until_cells(whole, p + 8 * k, hint + 8 * k, cells).end == moved_block(
            until_cells(part, p, hint, cells).end,
            8 * k,
        ),
{
    lemma_until_fits(part, whole, k, p, hint, cells);
    law_until_cells_embedded(part, whole, k, p, hint, cells);
}

} // verus!
