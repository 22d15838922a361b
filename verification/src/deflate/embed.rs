//! How decoding depends on where its input stands.
//!
//! Decoding a part of some bytes gives what decoding the whole gives at the
//! same place, unless the part ends too early. Running out of input is the
//! only outcome that more input can change.
use vstd::prelude::*;
use crate::deflate::DeflateError;
use crate::deflate::bits::{bit_at, bits_at, bit_len, align_up, lemma_bits_bound};
use crate::deflate::canonical::{
    code_bits, code_matches, symbol_of, lookup_at, prefix_code, tree_error, lemma_symbol_of, lemma_fixed_codes,
    MAX_CODE_LEN,
};
use crate::deflate::cells::{Cell, run_cells, block_cells, until_cells, copy_cells, lemma_block_cells_advances};
use crate::deflate::format::{
    Symbol, Codes, Body, extra_at, match_at, symbol_at, run, copy_back, stored_bytes, precode_lengths, code_lengths,
    repeat_base, repeat_extra, repeated, dynamic_header, body_at, block, until, lemma_lookup_advances,
    lemma_symbol_advances, lemma_dynamic_header_advances, lemma_block_advances,
};
use crate::deflate::huffman::lemma_tree_is_prefix_code;
use crate::deflate::tables::{PRECODE_ORDER, LENGTH_EXTRA, DISTANCE_EXTRA, fixed_literals, fixed_distances};

verus! {

/// `part` stands in `whole`, from byte `k` on.
pub open spec fn embedded(part: Seq<u8>, whole: Seq<u8>, k: int) -> bool {
    &&& 0 <= k
    &&& k + part.len() <= whole.len()
    &&& part == whole.subrange(k, k + part.len())
}

/// An outcome that more input cannot change, given that `part` stands in
/// `whole` from byte `k` on.
pub open spec fn settled<E>(part: Seq<u8>, whole: Seq<u8>, k: int, end: Result<E, DeflateError>) -> bool {
    end != Err::<E, DeflateError>(DeflateError::UnexpectedEof) || k + part.len() == whole.len()
}

/// A position moved up by `d` bits.
pub open spec fn moved(end: Result<int, DeflateError>, d: int) -> Result<int, DeflateError> {
    match end {
        Ok(q) => Ok(q + d),
        Err(e) => Err(e),
    }
}

/// The end of a block moved up by `d` bits.
pub open spec fn moved_block(end: Result<(int, bool), DeflateError>, d: int) -> Result<(int, bool), DeflateError> {
    match end {
        Ok((q, last)) => Ok((q + d, last)),
        Err(e) => Err(e),
    }
}

pub proof fn lemma_bit_embedded(part: Seq<u8>, whole: Seq<u8>, k: int, i: int)
    requires
        embedded(part, whole, k),
        0 <= i,
        i < bit_len(part) || k + part.len() == whole.len(),
    ensures
        bit_at(part, i) == bit_at(whole, i + 8 * k),
{
    assert((i + 8 * k) / 8 == i / 8 + k);
    assert((i + 8 * k) % 8 == i % 8);
}

pub proof fn lemma_bits_embedded(part: Seq<u8>, whole: Seq<u8>, k: int, p: int, n: nat)
    requires
        embedded(part, whole, k),
        0 <= p,
        p + n <= bit_len(part) || k + part.len() == whole.len(),
    ensures
        bits_at(part, p, n) == bits_at(whole, p + 8 * k, n),
    decreases n,
{
    if n > 0 {
        lemma_bit_embedded(part, whole, k, p);
        lemma_bits_embedded(part, whole, k, p + 1, (n - 1) as nat);
    }
}

pub proof fn lemma_code_bits_embedded(part: Seq<u8>, whole: Seq<u8>, k: int, p: int, n: nat)
    requires
        embedded(part, whole, k),
        0 <= p,
        p + n <= bit_len(part) || k + part.len() == whole.len(),
    ensures
        code_bits(part, p, n) == code_bits(whole, p + 8 * k, n),
    decreases n,
{
    if n > 0 {
        lemma_bit_embedded(part, whole, k, p + n - 1);
        lemma_code_bits_embedded(part, whole, k, p, (n - 1) as nat);
    }
}

pub proof fn lemma_lookup_embedded(lengths: Seq<u8>, part: Seq<u8>, whole: Seq<u8>, k: int, p: int)
    requires
        embedded(part, whole, k),
        0 <= p,
        prefix_code(lengths),
        settled(part, whole, k, lookup_at(lengths, part, p)),
    ensures
        lookup_at(lengths, whole, p + 8 * k) == lookup_at(lengths, part, p),
{
    let q = p + 8 * k;
    assert forall|s: int|
        0 <= s < lengths.len() && (p + #[trigger] lengths[s] <= bit_len(part) || k + part.len()
            == whole.len()) implies code_matches(lengths, s, part, p) == code_matches(lengths, s, whole, q) by {
        lemma_code_bits_embedded(part, whole, k, p, lengths[s] as nat);
    }
    match symbol_of(lengths, part, p) {
        Some(s) => {
            assert(code_matches(lengths, s, part, p));
            if p + lengths[s] <= bit_len(part) || k + part.len() == whole.len() {
                assert(code_matches(lengths, s, whole, q));
                lemma_symbol_of(lengths, s, whole, q);
            }
        },
        None => {
            if let Some(s) = symbol_of(lengths, whole, q) {
                assert(code_matches(lengths, s, whole, q));
                if bit_len(part) - p >= MAX_CODE_LEN || k + part.len() == whole.len() {
                    assert(code_matches(lengths, s, part, p));
                }
            }
        },
    }
}

proof fn lemma_match_embedded(dist: Seq<u8>, part: Seq<u8>, whole: Seq<u8>, k: int, p: int, li: int)
    requires
        embedded(part, whole, k),
        0 <= p,
        0 <= li < 29,
        prefix_code(dist),
        settled(part, whole, k, match_at(dist, part, p, li)),
    ensures
        match match_at(dist, part, p, li) {
            Ok((sym, q)) => match_at(dist, whole, p + 8 * k, li) == Ok::<(Symbol, int), DeflateError>((sym, q + 8 * k)),
            Err(e) => match_at(dist, whole, p + 8 * k, li) == Err::<(Symbol, int), DeflateError>(e),
        },
{
    lemma_bits_embedded_if(part, whole, k, p, LENGTH_EXTRA[li] as nat);
    if let Ok((_, q)) = extra_at(part, p, LENGTH_EXTRA[li]) {
        lemma_lookup_advances(dist, part, q);
        lemma_lookup_embedded(dist, part, whole, k, q);
        if let Ok(d) = lookup_at(dist, part, q) {
            if d < 30 {
                lemma_bits_embedded_if(part, whole, k, q + dist[d], DISTANCE_EXTRA[d] as nat);
            }
        }
    }
}

pub proof fn lemma_bits_embedded_if(part: Seq<u8>, whole: Seq<u8>, k: int, p: int, n: nat)
    requires
        embedded(part, whole, k),
        0 <= p,
    ensures
        p + n <= bit_len(part) ==> bits_at(part, p, n) == bits_at(whole, p + 8 * k, n),
{
    if p + n <= bit_len(part) {
        lemma_bits_embedded(part, whole, k, p, n);
    }
}

pub proof fn lemma_symbol_embedded(
    lit: Seq<u8>,
    dist: Seq<u8>,
    part: Seq<u8>,
    whole: Seq<u8>,
    k: int,
    p: int,
)
    requires
        embedded(part, whole, k),
        0 <= p,
        prefix_code(lit),
        prefix_code(dist),
        settled(part, whole, k, symbol_at(lit, dist, part, p)),
    ensures
        match symbol_at(lit, dist, part, p) {
            Ok((sym, q)) => symbol_at(lit, dist, whole, p + 8 * k) == Ok::<(Symbol, int), DeflateError>(
                (sym, q + 8 * k),
            ),
            Err(e) => symbol_at(lit, dist, whole, p + 8 * k) == Err::<(Symbol, int), DeflateError>(e),
        },
{
    lemma_lookup_advances(lit, part, p);
    lemma_lookup_embedded(lit, part, whole, k, p);
    if let Ok(s) = lookup_at(lit, part, p) {
        if 257 <= s <= 285 {
            lemma_match_embedded(dist, part, whole, k, p + lit[s], s - 257);
        }
    }
}

pub proof fn lemma_run_embedded(
    lit: Seq<u8>,
    dist: Seq<u8>,
    part: Seq<u8>,
    whole: Seq<u8>,
    k: int,
    p: int,
    out: Seq<u8>,
)
    requires
        embedded(part, whole, k),
        0 <= p,
        prefix_code(lit),
        prefix_code(dist),
        settled(part, whole, k, run(lit, dist, part, p, out).end),
    ensures
        run(lit, dist, whole, p + 8 * k, out).out == run(lit, dist, part, p, out).out,
        run(lit, dist, whole, p + 8 * k, out).end == moved(run(lit, dist, part, p, out).end, 8 * k),
    decreases bit_len(part) - p,
{
    reveal(run);
    lemma_symbol_advances(lit, dist, part, p);
    lemma_symbol_embedded(lit, dist, part, whole, k, p);
    match symbol_at(lit, dist, part, p) {
        Ok((Symbol::Literal(b), q)) => {
            lemma_run_embedded(lit, dist, part, whole, k, q, out.push(b));
        },
        Ok((Symbol::Match { length, distance }, q)) => {
            if distance <= out.len() {
                lemma_run_embedded(lit, dist, part, whole, k, q, copy_back(out, distance, length));
            }
        },
        _ => {},
    }
}

pub proof fn lemma_run_cells_embedded(
    lit: Seq<u8>,
    dist: Seq<u8>,
    part: Seq<u8>,
    whole: Seq<u8>,
    k: int,
    p: int,
    cells: Seq<Cell>,
)
    requires
        embedded(part, whole, k),
        0 <= p,
        prefix_code(lit),
        prefix_code(dist),
        settled(part, whole, k, run_cells(lit, dist, part, p, cells).end),
    ensures
        run_cells(lit, dist, whole, p + 8 * k, cells).out == run_cells(lit, dist, part, p, cells).out,
        run_cells(lit, dist, whole, p + 8 * k, cells).end == moved(
            run_cells(lit, dist, part, p, cells).end,
            8 * k,
        ),
    decreases bit_len(part) - p,
{
    reveal(run_cells);
    lemma_symbol_advances(lit, dist, part, p);
    lemma_symbol_embedded(lit, dist, part, whole, k, p);
    match symbol_at(lit, dist, part, p) {
        Ok((Symbol::Literal(b), q)) => {
            lemma_run_cells_embedded(lit, dist, part, whole, k, q, cells.push(Cell::Byte(b)));
        },
        Ok((Symbol::Match { length, distance }, q)) => {
            lemma_run_cells_embedded(lit, dist, part, whole, k, q, copy_cells(cells, distance, length));
        },
        _ => {},
    }
}

proof fn lemma_code_lengths_embedded(
    pre: Seq<u8>,
    part: Seq<u8>,
    whole: Seq<u8>,
    k: int,
    p: int,
    acc: Seq<u8>,
    total: int,
)
    requires
        embedded(part, whole, k),
        0 <= p,
        prefix_code(pre),
        settled(part, whole, k, code_lengths(pre, part, p, acc, total)),
    ensures
        match code_lengths(pre, part, p, acc, total) {
            Ok((all, q)) => code_lengths(pre, whole, p + 8 * k, acc, total) == Ok::<(Seq<u8>, int), DeflateError>(
                (all, q + 8 * k),
            ),
            Err(e) => code_lengths(pre, whole, p + 8 * k, acc, total) == Err::<(Seq<u8>, int), DeflateError>(e),
        },
    decreases bit_len(part) - p,
{
    reveal(code_lengths);
    lemma_lookup_advances(pre, part, p);
    if acc.len() < total {
        lemma_lookup_embedded(pre, part, whole, k, p);
        if let Ok(s) = lookup_at(pre, part, p) {
            let q = p + pre[s];
            if s < 16 {
                lemma_code_lengths_embedded(pre, part, whole, k, q, acc.push(s as u8), total);
            } else if !(s == 16 && acc.len() == 0) {
                lemma_bits_embedded_if(part, whole, k, q, repeat_extra(s) as nat);
                if let Ok((extra, r)) = extra_at(part, q, repeat_extra(s)) {
                    let n = repeat_base(s) + extra;
                    if acc.len() + n <= total {
                        lemma_code_lengths_embedded(pre, part, whole, k, r, acc + repeated(acc, s, n), total);
                    }
                }
            }
        }
    }
}

pub proof fn lemma_precode_embedded(part: Seq<u8>, whole: Seq<u8>, k: int, p: int, n: int)
    requires
        embedded(part, whole, k),
        0 <= p,
        0 <= n <= 19,
        p + 3 * n <= bit_len(part),
    ensures
        precode_lengths(part, p, n) == precode_lengths(whole, p + 8 * k, n),
        precode_lengths(part, p, n).len() == 19,
    decreases n,
{
    if n > 0 {
        lemma_precode_embedded(part, whole, k, p, n - 1);
        lemma_bits_embedded(part, whole, k, p + 3 * (n - 1), 3);
        assert(p + 3 * (n - 1) + 8 * k == p + 8 * k + 3 * (n - 1));
        assert(forall|j: int| 0 <= j < 19 ==> #[trigger] PRECODE_ORDER[j] < 19);
    }
}

proof fn lemma_header_embedded(part: Seq<u8>, whole: Seq<u8>, k: int, p: int)
    requires
        embedded(part, whole, k),
        0 <= p,
        settled(part, whole, k, dynamic_header(part, p, false)),
    ensures
        match dynamic_header(part, p, false) {
            Ok(c) => dynamic_header(whole, p + 8 * k, false) == Ok::<Codes, DeflateError>(
                Codes { lit: c.lit, dist: c.dist, at: c.at + 8 * k },
            ),
            Err(e) => dynamic_header(whole, p + 8 * k, false) == Err::<Codes, DeflateError>(e),
        },
{
    reveal(dynamic_header);
    if bit_len(part) - p >= 14 {
        lemma_bits_embedded(part, whole, k, p, 5);
        lemma_bits_embedded(part, whole, k, p + 5, 5);
        lemma_bits_embedded(part, whole, k, p + 10, 4);
        assert(p + 5 + 8 * k == p + 8 * k + 5);
        assert(p + 10 + 8 * k == p + 8 * k + 10);
        let hlit = bits_at(part, p, 5) + 257;
        let hdist = bits_at(part, p + 5, 5) + 1;
        let hclen = bits_at(part, p + 10, 4) + 4;
        lemma_bits_bound(part, p + 10, 4);
        vstd::arithmetic::power2::lemma2_to64();
        if hlit <= 286 && bit_len(part) - p >= 14 + 3 * hclen {
            lemma_precode_embedded(part, whole, k, p + 14, hclen as int);
            assert(p + 14 + 8 * k == p + 8 * k + 14);
            let pre = precode_lengths(part, p + 14, hclen as int);
            if tree_error(pre, false) is None {
                lemma_tree_is_prefix_code(pre, false);
                let q = p + 14 + 3 * hclen;
                lemma_code_lengths_embedded(pre, part, whole, k, q, Seq::empty(), (hlit + hdist) as int);
                assert(q + 8 * k == p + 8 * k + 14 + 3 * hclen);
            }
        }
    }
}

/// The codes of a block are prefix codes.
pub proof fn lemma_body_codes(input: Seq<u8>, p: int, btype: nat)
    ensures
        match body_at(input, p, btype) {
            Ok(Body::Compressed(c)) => prefix_code(c.lit) && prefix_code(c.dist) && p <= c.at,
            _ => true,
        },
{
    reveal(dynamic_header);
    if btype == 1 {
        lemma_fixed_codes();
        lemma_tree_is_prefix_code(fixed_literals(), false);
        lemma_tree_is_prefix_code(fixed_distances(), false);
    } else if btype == 2 {
        lemma_dynamic_header_advances(input, p, false);
        if let Ok(c) = dynamic_header(input, p, false) {
            lemma_tree_is_prefix_code(c.lit, false);
            lemma_tree_is_prefix_code(c.dist, false);
        }
    }
}

pub proof fn lemma_body_at_embedded(part: Seq<u8>, whole: Seq<u8>, k: int, p: int, btype: nat)
    requires
        embedded(part, whole, k),
        0 <= p,
        settled(part, whole, k, body_at(part, p, btype)),
    ensures
        match body_at(part, p, btype) {
            Ok(Body::Stored { from, len }) => body_at(whole, p + 8 * k, btype) == Ok::<Body, DeflateError>(
                Body::Stored { from: from + k, len },
            ),
            Ok(Body::Compressed(c)) => body_at(whole, p + 8 * k, btype) == Ok::<Body, DeflateError>(
                Body::Compressed(Codes { lit: c.lit, dist: c.dist, at: c.at + 8 * k }),
            ),
            Err(e) => body_at(whole, p + 8 * k, btype) == Err::<Body, DeflateError>(e),
        },
{
    if btype == 0 {
        let q = align_up(p);
        assert(align_up(p + 8 * k) == q + 8 * k);
        if bit_len(part) - q >= 32 {
            lemma_bits_embedded(part, whole, k, q, 16);
            lemma_bits_embedded(part, whole, k, q + 16, 16);
            assert(q + 16 + 8 * k == q + 8 * k + 16);
            assert((q + 8 * k) / 8 == q / 8 + k);
        }
    } else if btype == 2 {
        lemma_header_embedded(part, whole, k, p);
    }
}

pub proof fn lemma_block_embedded(part: Seq<u8>, whole: Seq<u8>, k: int, p: int, out: Seq<u8>)
    requires
        embedded(part, whole, k),
        0 <= p,
        settled(part, whole, k, block(part, p, out).end),
    ensures
        block(whole, p + 8 * k, out).out == block(part, p, out).out,
        block(whole, p + 8 * k, out).end == moved_block(block(part, p, out).end, 8 * k),
{
    if bit_len(part) - p >= 3 {
        lemma_bits_embedded(part, whole, k, p, 1);
        lemma_bits_embedded(part, whole, k, p + 1, 2);
        assert(p + 1 + 8 * k == p + 8 * k + 1);
        assert(p + 3 + 8 * k == p + 8 * k + 3);
        let btype = bits_at(part, p + 1, 2);
        lemma_body_at_embedded(part, whole, k, p + 3, btype);
        lemma_body_codes(part, p + 3, btype);
        match body_at(part, p + 3, btype) {
            Ok(Body::Stored { from, len }) => {
                if from + len <= part.len() {
                    assert(stored_bytes(part, from, len) =~= stored_bytes(whole, from + k, len));
                } else if k + part.len() == whole.len() {
                    assert(stored_bytes(part, from, len) =~= stored_bytes(whole, from + k, len));
                }
            },
            Ok(Body::Compressed(c)) => {
                lemma_run_embedded(c.lit, c.dist, part, whole, k, c.at, out);
            },
            _ => {},
        }
    }
}

pub proof fn lemma_block_cells_embedded(part: Seq<u8>, whole: Seq<u8>, k: int, p: int, cells: Seq<Cell>)
    requires
        embedded(part, whole, k),
        0 <= p,
        settled(part, whole, k, block_cells(part, p, cells).end),
    ensures
        block_cells(whole, p + 8 * k, cells).out == block_cells(part, p, cells).out,
        block_cells(whole, p + 8 * k, cells).end == moved_block(block_cells(part, p, cells).end, 8 * k),
{
    if bit_len(part) - p >= 3 {
        lemma_bits_embedded(part, whole, k, p, 1);
        lemma_bits_embedded(part, whole, k, p + 1, 2);
        assert(p + 1 + 8 * k == p + 8 * k + 1);
        assert(p + 3 + 8 * k == p + 8 * k + 3);
        let btype = bits_at(part, p + 1, 2);
        lemma_body_at_embedded(part, whole, k, p + 3, btype);
        lemma_body_codes(part, p + 3, btype);
        match body_at(part, p + 3, btype) {
            Ok(Body::Stored { from, len }) => {
                if from + len <= part.len() {
                    assert(stored_bytes(part, from, len) =~= stored_bytes(whole, from + k, len));
                } else if k + part.len() == whole.len() {
                    assert(stored_bytes(part, from, len) =~= stored_bytes(whole, from + k, len));
                }
            },
            Ok(Body::Compressed(c)) => {
                lemma_run_cells_embedded(c.lit, c.dist, part, whole, k, c.at, cells);
            },
            _ => {},
        }
    }
}

/// Decoding blocks in a part of some bytes gives what decoding them in the
/// whole gives, unless the part ends too early.
pub proof fn law_until_embedded(
    part: Seq<u8>,
    whole: Seq<u8>,
    k: int,
    p: int,
    hint: int,
    out: Seq<u8>,
)
    requires
        embedded(part, whole, k),
        0 <= p,
        settled(part, whole, k, until(part, p, hint, out).end),
    ensures
        until(whole, p + 8 * k, hint + 8 * k, out).out == until(part, p, hint, out).out,
        until(whole, p + 8 * k, hint + 8 * k, out).end == moved_block(
            until(part, p, hint, out).end,
            8 * k,
        ),
    decreases bit_len(part) - p,
{
    reveal(until);
    lemma_block_advances(part, p, out);
    lemma_block_embedded(part, whole, k, p, out);
    let b = block(part, p, out);
    if let Ok((q, last)) = b.end {
        if !(last || q >= hint) {
            law_until_embedded(part, whole, k, q, hint, b.out);
        }
    }
}

/// The same for decoding without the preceding window.
pub proof fn law_until_cells_embedded(
    part: Seq<u8>,
    whole: Seq<u8>,
    k: int,
    p: int,
    hint: int,
    cells: Seq<Cell>,
)
    requires
        embedded(part, whole, k),
        0 <= p,
        settled(part, whole, k, until_cells(part, p, hint, cells).end),
    ensures
        until_cells(whole, p + 8 * k, hint + 8 * k, cells).out == until_cells(part, p, hint, cells).out,
        until_cells(whole, p + 8 * k, hint + 8 * k, cells).end == moved_block(
            until_cells(part, p, hint, cells).end,
            8 * k,
        ),
    decreases bit_len(part) - p,
{
    reveal(until_cells);
    lemma_block_cells_advances(part, p, cells);
    lemma_block_cells_embedded(part, whole, k, p, cells);
    let b = block_cells(part, p, cells);
    if let Ok((q, last)) = b.end {
        if !(last || q >= hint) {
            law_until_cells_embedded(part, whole, k, q, hint, b.out);
        }
    }
}

} // verus!
