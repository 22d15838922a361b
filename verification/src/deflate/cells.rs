//! Decoding without the preceding window, as spec functions.
//!
//! A worker that starts in the middle of a stream does not know the bytes
//! before its start. Its output is a sequence of cells: a cell is a byte, or
//! stands for a byte of the unknown prefix.
use vstd::prelude::*;
use crate::deflate::DeflateError;
use crate::deflate::bits::{bits_at, bit_len};
use crate::deflate::format::{
    Symbol, Decoded, Body, symbol_at, body_at, stored_bytes, stored_end, run, block, until, copy_back, extends,
    lemma_extends_trans, lemma_extends_append, lemma_symbol_advances, lemma_dynamic_header_advances,
    lemma_block_advances,
};
use crate::deflate::symbols::lemma_symbol_bounds;

verus! {

/// One byte of output whose prefix is unknown.
pub enum Cell {
    /// A known byte.
    Byte(u8),
    /// The byte that stands `n` bytes before the last byte of the prefix.
    Before(nat),
}

/// The cells of known bytes.
pub open spec fn known(bytes: Seq<u8>) -> Seq<Cell> {
    Seq::new(bytes.len(), |i: int| Cell::Byte(bytes[i]))
}

/// The cell that stands `distance` before the end of `cells`.
pub open spec fn cell_back(cells: Seq<Cell>, distance: int) -> Cell {
    if distance <= cells.len() {
        cells[cells.len() - distance]
    } else {
        Cell::Before((distance - cells.len() - 1) as nat)
    }
}

/// Appends `n` cells, each a copy of the one `distance` before it.
pub open spec fn copy_cells(cells: Seq<Cell>, distance: int, n: int) -> Seq<Cell>
    decreases n,
{
    if n <= 0 {
        cells
    } else {
        copy_cells(cells.push(cell_back(cells, distance)), distance, n - 1)
    }
}

/// Decodes symbols from `p` on, up to the end of the block.
#[verifier::opaque]
pub open spec fn run_cells(lit: Seq<u8>, dist: Seq<u8>, input: Seq<u8>, p: int, cells: Seq<Cell>) -> Decoded<
    Cell,
    int,
>
    decreases bit_len(input) - p,
{
    proof {
        lemma_symbol_advances(lit, dist, input, p);
    }
    match symbol_at(lit, dist, input, p) {
        Err(e) => Decoded { out: cells, end: Err(e) },
        Ok((Symbol::EndOfBlock, q)) => Decoded { out: cells, end: Ok(q) },
        Ok((Symbol::Literal(b), q)) => run_cells(lit, dist, input, q, cells.push(Cell::Byte(b))),
        Ok((Symbol::Match { length, distance }, q)) => run_cells(
            lit,
            dist,
            input,
            q,
            copy_cells(cells, distance, length),
        ),
    }
}

/// Decodes the body of a block.
pub open spec fn body_cells(input: Seq<u8>, p: int, btype: nat, cells: Seq<Cell>) -> Decoded<Cell, int> {
    match body_at(input, p, btype) {
        Err(e) => Decoded { out: cells, end: Err(e) },
        Ok(Body::Stored { from, len }) => Decoded {
            out: cells + known(stored_bytes(input, from, len)),
            end: stored_end(input, from, len),
        },
        Ok(Body::Compressed(c)) => run_cells(c.lit, c.dist, input, c.at, cells),
    }
}

/// Decodes the block at `p`. On success: the position after it, and whether it is the last.
pub open spec fn block_cells(input: Seq<u8>, p: int, cells: Seq<Cell>) -> Decoded<Cell, (int, bool)> {
    if bit_len(input) - p < 3 {
        Decoded { out: cells, end: Err(DeflateError::UnexpectedEof) }
    } else {
        let d = body_cells(input, p + 3, bits_at(input, p + 1, 2), cells);
        Decoded {
            out: d.out,
            end: match d.end {
                Err(e) => Err(e),
                Ok(q) => Ok((q, bits_at(input, p, 1) == 1)),
            },
        }
    }
}

/// Decodes blocks from `p` on, up to the last one or to the first that ends at
/// or after bit `hint`.
#[verifier::opaque]
pub open spec fn until_cells(input: Seq<u8>, p: int, hint: int, cells: Seq<Cell>) -> Decoded<
    Cell,
    (int, bool),
>
    decreases bit_len(input) - p,
{
    proof {
        lemma_block_cells_advances(input, p, cells);
    }
    let b = block_cells(input, p, cells);
    match b.end {
        Err(e) => b,
        Ok((q, last)) => if last || q >= hint {
            b
        } else {
            until_cells(input, q, hint, b.out)
        },
    }
}

pub proof fn lemma_run_cells_advances(
    lit: Seq<u8>,
    dist: Seq<u8>,
    input: Seq<u8>,
    p: int,
    cells: Seq<Cell>,
)
    ensures
        match run_cells(lit, dist, input, p, cells).end {
            Ok(q) => p < q <= bit_len(input),
            Err(_) => true,
        },
    decreases bit_len(input) - p,
{
    reveal(run_cells);
    lemma_symbol_advances(lit, dist, input, p);
    match symbol_at(lit, dist, input, p) {
        Ok((Symbol::Literal(b), q)) => {
            lemma_run_cells_advances(lit, dist, input, q, cells.push(Cell::Byte(b)));
        },
        Ok((Symbol::Match { length, distance }, q)) => {
            lemma_run_cells_advances(lit, dist, input, q, copy_cells(cells, distance, length));
        },
        _ => {},
    }
}

pub proof fn lemma_block_cells_advances(input: Seq<u8>, p: int, cells: Seq<Cell>)
    ensures
        match block_cells(input, p, cells).end {
            Ok((q, _)) => p < q <= bit_len(input),
            Err(_) => true,
        },
{
    if bit_len(input) - p >= 3 {
        lemma_dynamic_header_advances(input, p + 3, false);
        match body_at(input, p + 3, bits_at(input, p + 1, 2)) {
            Ok(Body::Compressed(c)) => {
                lemma_run_cells_advances(c.lit, c.dist, input, c.at, cells);
            },
            _ => {},
        }
    }
}

pub proof fn lemma_until_cells_advances(input: Seq<u8>, p: int, hint: int, cells: Seq<Cell>)
    ensures
        match until_cells(input, p, hint, cells).end {
            Ok((q, last)) => p < q <= bit_len(input) && (last || q >= hint),
            Err(_) => true,
        },
    decreases bit_len(input) - p,
{
    reveal(until_cells);
    lemma_block_cells_advances(input, p, cells);
    let b = block_cells(input, p, cells);
    if let Ok((q, last)) = b.end {
        if !(last || q >= hint) {
            lemma_until_cells_advances(input, q, hint, b.out);
        }
    }
}

/// Every cell that refers to the prefix can be found in a prefix of `n` bytes.
pub open spec fn within(cells: Seq<Cell>, n: nat) -> bool {
    forall|i: int|
        0 <= i < cells.len() ==> match #[trigger] cells[i] {
            Cell::Byte(_) => true,
            Cell::Before(k) => k < n,
        }
}

/// The byte that a cell stands for once the prefix is known.
pub open spec fn fill(cell: Cell, prefix: Seq<u8>) -> u8 {
    match cell {
        Cell::Byte(b) => b,
        Cell::Before(k) => prefix[prefix.len() - 1 - k],
    }
}

/// The bytes that cells stand for once the prefix is known.
pub open spec fn filled(cells: Seq<Cell>, prefix: Seq<u8>) -> Seq<u8> {
    Seq::new(cells.len(), |i: int| fill(cells[i], prefix))
}

/// Decoding only appends.
pub proof fn lemma_copy_cells_extends(cells: Seq<Cell>, distance: int, n: int)
    requires
        1 <= distance,
    ensures
        copy_cells(cells, distance, n).len() == cells.len() + if n > 0 { n } else { 0 },
        copy_cells(cells, distance, n).take(cells.len() as int) == cells,
    decreases n,
{
    if n > 0 {
        let c1 = cells.push(cell_back(cells, distance));
        lemma_copy_cells_extends(c1, distance, n - 1);
        assert(copy_cells(cells, distance, n).take(cells.len() as int) =~= copy_cells(cells, distance, n).take(
            c1.len() as int,
        ).take(cells.len() as int));
        assert(c1.take(cells.len() as int) =~= cells);
    }
    assert(cells.take(cells.len() as int) =~= cells);
}

/// Copying cells and then filling them in is filling them in and then copying,
/// as long as the prefix is long enough.
pub proof fn lemma_copy_filled(cells: Seq<Cell>, prefix: Seq<u8>, distance: int, n: int)
    requires
        1 <= distance,
        within(cells, prefix.len()),
    ensures
        distance <= prefix.len() + cells.len() ==> within(copy_cells(cells, distance, n), prefix.len()) && copy_back(
            prefix + filled(cells, prefix),
            distance,
            n,
        ) == prefix + filled(copy_cells(cells, distance, n), prefix),
        distance > prefix.len() + cells.len() && n >= 1 ==> !within(copy_cells(cells, distance, n), prefix.len()),
    decreases n,
{
    if n > 0 {
        let c = cell_back(cells, distance);
        let c1 = cells.push(c);
        if distance <= prefix.len() + cells.len() {
            let h = prefix + filled(cells, prefix);
            assert(within(c1, prefix.len()));
            assert(h[h.len() - distance] == fill(c, prefix));
            assert(h.push(h[h.len() - distance]) =~= prefix + filled(c1, prefix));
            lemma_copy_filled(c1, prefix, distance, n - 1);
        } else {
            lemma_copy_cells_extends(c1, distance, n - 1);
            let full = copy_cells(cells, distance, n);
            assert(full.take(c1.len() as int)[cells.len() as int] == c);
            assert(full[cells.len() as int] == c);
        }
    }
}

pub proof fn lemma_within_prefix(a: Seq<Cell>, b: Seq<Cell>, n: nat)
    requires
        extends(a, b),
        within(a, n),
    ensures
        within(b, n),
{
    assert forall|i: int| 0 <= i < b.len() implies match #[trigger] b[i] {
        Cell::Byte(_) => true,
        Cell::Before(k) => k < n,
    } by {
        assert(a.take(b.len() as int)[i] == a[i]);
    }
}

pub proof fn lemma_run_cells_extends(
    lit: Seq<u8>,
    dist: Seq<u8>,
    input: Seq<u8>,
    p: int,
    cells: Seq<Cell>,
)
    ensures
        extends(run_cells(lit, dist, input, p, cells).out, cells),
    decreases bit_len(input) - p,
{
    reveal(run_cells);
    lemma_symbol_advances(lit, dist, input, p);
    lemma_symbol_bounds(lit, dist, input, p);
    let r = run_cells(lit, dist, input, p, cells).out;
    lemma_extends_append(cells, Seq::empty());
    match symbol_at(lit, dist, input, p) {
        Ok((Symbol::Literal(b), q)) => {
            let c1 = cells.push(Cell::Byte(b));
            lemma_run_cells_extends(lit, dist, input, q, c1);
            assert(c1.take(cells.len() as int) =~= cells);
            lemma_extends_trans(r, c1, cells);
        },
        Ok((Symbol::Match { length, distance }, q)) => {
            let c1 = copy_cells(cells, distance, length);
            lemma_run_cells_extends(lit, dist, input, q, c1);
            lemma_copy_cells_extends(cells, distance, length);
            lemma_extends_trans(r, c1, cells);
        },
        _ => {},
    }
}

pub proof fn lemma_block_cells_extends(input: Seq<u8>, p: int, cells: Seq<Cell>)
    ensures
        extends(block_cells(input, p, cells).out, cells),
{
    lemma_extends_append(cells, Seq::empty());
    if bit_len(input) - p >= 3 {
        match body_at(input, p + 3, bits_at(input, p + 1, 2)) {
            Ok(Body::Stored { from, len }) => {
                lemma_extends_append(cells, known(stored_bytes(input, from, len)));
            },
            Ok(Body::Compressed(c)) => {
                lemma_run_cells_extends(c.lit, c.dist, input, c.at, cells);
            },
            _ => {},
        }
    }
}

pub proof fn lemma_until_cells_extends(input: Seq<u8>, p: int, hint: int, cells: Seq<Cell>)
    ensures
        extends(until_cells(input, p, hint, cells).out, cells),
    decreases bit_len(input) - p,
{
    reveal(until_cells);
    lemma_block_cells_advances(input, p, cells);
    lemma_block_cells_extends(input, p, cells);
    let b = block_cells(input, p, cells);
    if let Ok((q, last)) = b.end {
        if !(last || q >= hint) {
            lemma_until_cells_extends(input, q, hint, b.out);
            lemma_extends_trans(until_cells(input, p, hint, cells).out, b.out, cells);
        }
    }
}

/// The error of a match that reaches before the first byte.
pub open spec fn too_far() -> DeflateError {
    DeflateError::Invalid("back-reference distance out of bounds")
}

/// What decoding with a known prefix yields, said by decoding without it: the
/// same bytes and the same end, or, if some cell lies before the prefix, the
/// error of a match that reaches too far.
pub open spec fn agrees<E>(bytes: Decoded<u8, E>, cells: Decoded<Cell, E>, prefix: Seq<u8>) -> bool {
    if within(cells.out, prefix.len()) {
        bytes.out == prefix + filled(cells.out, prefix) && bytes.end == cells.end
    } else {
        bytes.end == Err::<E, DeflateError>(too_far())
    }
}

/// Decoding the symbols of a block commutes with filling in the prefix.
pub proof fn lemma_run_agrees(
    lit: Seq<u8>,
    dist: Seq<u8>,
    input: Seq<u8>,
    p: int,
    cells: Seq<Cell>,
    prefix: Seq<u8>,
)
    requires
        within(cells, prefix.len()),
    ensures
        agrees(
            run(lit, dist, input, p, prefix + filled(cells, prefix)),
            run_cells(lit, dist, input, p, cells),
            prefix,
        ),
    decreases bit_len(input) - p,
{
    reveal(run_cells);
    reveal(run);
    lemma_symbol_advances(lit, dist, input, p);
    lemma_symbol_bounds(lit, dist, input, p);
    let h = prefix + filled(cells, prefix);
    match symbol_at(lit, dist, input, p) {
        Ok((Symbol::Literal(b), q)) => {
            let c1 = cells.push(Cell::Byte(b));
            assert(within(c1, prefix.len()));
            assert(h.push(b) =~= prefix + filled(c1, prefix));
            lemma_run_agrees(lit, dist, input, q, c1, prefix);
        },
        Ok((Symbol::Match { length, distance }, q)) => {
            let c1 = copy_cells(cells, distance, length);
            lemma_copy_filled(cells, prefix, distance, length);
            if distance <= h.len() {
                lemma_run_agrees(lit, dist, input, q, c1, prefix);
            } else {
                let r = run_cells(lit, dist, input, q, c1).out;
                lemma_run_cells_extends(lit, dist, input, q, c1);
                if within(r, prefix.len()) {
                    lemma_within_prefix(r, c1, prefix.len());
                }
            }
        },
        _ => {},
    }
}

/// Decoding a block commutes with filling in the prefix.
pub proof fn lemma_block_agrees(input: Seq<u8>, p: int, cells: Seq<Cell>, prefix: Seq<u8>)
    requires
        within(cells, prefix.len()),
    ensures
        agrees(
            block(input, p, prefix + filled(cells, prefix)),
            block_cells(input, p, cells),
            prefix,
        ),
{
    let h = prefix + filled(cells, prefix);
    if bit_len(input) - p >= 3 {
        match body_at(input, p + 3, bits_at(input, p + 1, 2)) {
            Ok(Body::Stored { from, len }) => {
                let s = stored_bytes(input, from, len);
                assert(within(cells + known(s), prefix.len()));
                assert(h + s =~= prefix + filled(cells + known(s), prefix));
            },
            Ok(Body::Compressed(c)) => {
                lemma_run_agrees(c.lit, c.dist, input, c.at, cells, prefix);
            },
            _ => {},
        }
    }
}

/// Decoding blocks without the preceding bytes and filling these in afterwards
/// gives exactly what decoding with them gives.
pub proof fn lemma_until_agrees(input: Seq<u8>, p: int, hint: int, cells: Seq<Cell>, prefix: Seq<u8>)
    requires
        within(cells, prefix.len()),
    ensures
        agrees(
            until(input, p, hint, prefix + filled(cells, prefix)),
            until_cells(input, p, hint, cells),
            prefix,
        ),
    decreases bit_len(input) - p,
{
    reveal(until_cells);
    reveal(until);
    lemma_block_cells_advances(input, p, cells);
    lemma_block_agrees(input, p, cells, prefix);
    let h = prefix + filled(cells, prefix);
    let b = block_cells(input, p, cells);
    if let Ok((q, last)) = b.end {
        if !(last || q >= hint) {
            if within(b.out, prefix.len()) {
                lemma_until_agrees(input, q, hint, b.out, prefix);
            } else {
                let r = until_cells(input, q, hint, b.out).out;
                lemma_until_cells_extends(input, q, hint, b.out);
                if within(r, prefix.len()) {
                    lemma_within_prefix(r, b.out, prefix.len());
                }
            }
        } else {
            if within(b.out, prefix.len()) {
            }
        }
    }
}

/// A chunk decoded with no prefix, then filled in, is the chunk decoded with
/// that prefix as its history.
pub proof fn law_speculative_is_serial(input: Seq<u8>, p: int, hint: int, prefix: Seq<u8>)
    ensures
        agrees(until(input, p, hint, prefix), until_cells(input, p, hint, Seq::empty()), prefix),
{
    assert(prefix + filled(Seq::empty(), prefix) =~= prefix);
    lemma_until_agrees(input, p, hint, Seq::empty(), prefix);
}

/// Copying from a tail of known bytes that is long enough for every match.
pub proof fn lemma_copy_tail(pre: Seq<Cell>, w: Seq<u8>, distance: int, n: int)
    requires
        1 <= distance <= w.len(),
    ensures
        copy_cells(pre + known(w), distance, n) == pre + known(copy_back(w, distance, n)),
        copy_back(w, distance, n).len() >= w.len(),
    decreases n,
{
    if n > 0 {
        let c = pre + known(w);
        let b = w[w.len() - distance];
        assert(cell_back(c, distance) == Cell::Byte(b));
        assert(c.push(Cell::Byte(b)) =~= pre + known(w.push(b)));
        lemma_copy_tail(pre, w.push(b), distance, n - 1);
    }
}

/// What decoding cells yields, said by decoding bytes after the cells `pre`.
pub open spec fn tail_agrees<E>(cells: Decoded<Cell, E>, bytes: Decoded<u8, E>, pre: Seq<Cell>, w: Seq<u8>) -> bool {
    &&& cells.out == pre + known(bytes.out)
    &&& cells.end == bytes.end
    &&& bytes.out.len() >= w.len()
}

pub proof fn lemma_run_tail(
    lit: Seq<u8>,
    dist: Seq<u8>,
    input: Seq<u8>,
    p: int,
    pre: Seq<Cell>,
    w: Seq<u8>,
)
    requires
        w.len() >= 32768,
    ensures
        tail_agrees(
            run_cells(lit, dist, input, p, pre + known(w)),
            run(lit, dist, input, p, w),
            pre,
            w,
        ),
    decreases bit_len(input) - p,
{
    reveal(run_cells);
    reveal(run);
    lemma_symbol_advances(lit, dist, input, p);
    lemma_symbol_bounds(lit, dist, input, p);
    match symbol_at(lit, dist, input, p) {
        Ok((Symbol::Literal(b), q)) => {
            assert((pre + known(w)).push(Cell::Byte(b)) =~= pre + known(w.push(b)));
            lemma_run_tail(lit, dist, input, q, pre, w.push(b));
        },
        Ok((Symbol::Match { length, distance }, q)) => {
            lemma_copy_tail(pre, w, distance, length);
            lemma_run_tail(lit, dist, input, q, pre, copy_back(w, distance, length));
        },
        _ => {},
    }
}

pub proof fn lemma_block_tail(input: Seq<u8>, p: int, pre: Seq<Cell>, w: Seq<u8>)
    requires
        w.len() >= 32768,
    ensures
        tail_agrees(block_cells(input, p, pre + known(w)), block(input, p, w), pre, w),
{
    if bit_len(input) - p >= 3 {
        match body_at(input, p + 3, bits_at(input, p + 1, 2)) {
            Ok(Body::Stored { from, len }) => {
                let s = stored_bytes(input, from, len);
                assert(pre + known(w) + known(s) =~= pre + known(w + s));
            },
            Ok(Body::Compressed(c)) => {
                lemma_run_tail(c.lit, c.dist, input, c.at, pre, w);
            },
            _ => {},
        }
    }
}

/// Once the last 32 KiB are known bytes, the rest decodes to known bytes, and
/// these depend on nothing earlier.
pub proof fn lemma_until_tail(input: Seq<u8>, p: int, hint: int, pre: Seq<Cell>, w: Seq<u8>)
    requires
        w.len() >= 32768,
    ensures
        tail_agrees(until_cells(input, p, hint, pre + known(w)), until(input, p, hint, w), pre, w),
    decreases bit_len(input) - p,
{
    reveal(until_cells);
    reveal(until);
    lemma_block_tail(input, p, pre, w);
    lemma_block_advances(input, p, w);
    let b = block(input, p, w);
    if let Ok((q, last)) = b.end {
        if !(last || q >= hint) {
            lemma_until_tail(input, q, hint, pre, b.out);
        }
    }
}

/// Bytes farther back than the window do not matter to what follows.
pub proof fn law_window_suffices(input: Seq<u8>, p: int, hint: int, h: Seq<u8>, w: Seq<u8>)
    requires
        w.len() >= 32768,
    ensures
        until(input, p, hint, h + w).out == h + until(input, p, hint, w).out,
        until(input, p, hint, h + w).end == until(input, p, hint, w).end,
{
    let u = until(input, p, hint, w);
    assert(Seq::<Cell>::empty() + known(w) =~= known(w));
    lemma_until_tail(input, p, hint, Seq::empty(), w);
    assert(Seq::<Cell>::empty() + known(u.out) =~= known(u.out));
    assert(h + filled(known(w), h) =~= h + w);
    lemma_until_agrees(input, p, hint, known(w), h);
    assert(filled(known(u.out), h) =~= u.out);
}

/// The same for a single block.
pub proof fn lemma_block_window(input: Seq<u8>, p: int, h: Seq<u8>, w: Seq<u8>)
    requires
        w.len() >= 32768,
    ensures
        block(input, p, h + w).out == h + block(input, p, w).out,
        block(input, p, h + w).end == block(input, p, w).end,
{
    let u = block(input, p, w);
    assert(Seq::<Cell>::empty() + known(w) =~= known(w));
    lemma_block_tail(input, p, Seq::empty(), w);
    assert(Seq::<Cell>::empty() + known(u.out) =~= known(u.out));
    assert(h + filled(known(w), h) =~= h + w);
    lemma_block_agrees(input, p, known(w), h);
    assert(filled(known(u.out), h) =~= u.out);
}

pub proof fn lemma_copy_cells_window(cells: Seq<Cell>, distance: int, n: int)
    requires
        1 <= distance <= 32768,
        within(cells, 32768),
    ensures
        within(copy_cells(cells, distance, n), 32768),
    decreases n,
{
    if n > 0 {
        let c1 = cells.push(cell_back(cells, distance));
        assert(within(c1, 32768));
        lemma_copy_cells_window(c1, distance, n - 1);
    }
}

pub proof fn lemma_run_cells_window(
    lit: Seq<u8>,
    dist: Seq<u8>,
    input: Seq<u8>,
    p: int,
    cells: Seq<Cell>,
)
    requires
        within(cells, 32768),
    ensures
        within(run_cells(lit, dist, input, p, cells).out, 32768),
    decreases bit_len(input) - p,
{
    reveal(run_cells);
    lemma_symbol_advances(lit, dist, input, p);
    lemma_symbol_bounds(lit, dist, input, p);
    match symbol_at(lit, dist, input, p) {
        Ok((Symbol::Literal(b), q)) => {
            lemma_run_cells_window(lit, dist, input, q, cells.push(Cell::Byte(b)));
        },
        Ok((Symbol::Match { length, distance }, q)) => {
            lemma_copy_cells_window(cells, distance, length);
            lemma_run_cells_window(lit, dist, input, q, copy_cells(cells, distance, length));
        },
        _ => {},
    }
}

pub proof fn lemma_block_cells_window(input: Seq<u8>, p: int, cells: Seq<Cell>)
    requires
        within(cells, 32768),
    ensures
        within(block_cells(input, p, cells).out, 32768),
{
    if bit_len(input) - p >= 3 {
        match body_at(input, p + 3, bits_at(input, p + 1, 2)) {
            Ok(Body::Compressed(c)) => {
                lemma_run_cells_window(c.lit, c.dist, input, c.at, cells);
            },
            _ => {},
        }
    }
}

/// No cell lies farther back than the window reaches.
pub proof fn lemma_until_cells_window(input: Seq<u8>, p: int, hint: int, cells: Seq<Cell>)
    requires
        within(cells, 32768),
    ensures
        within(until_cells(input, p, hint, cells).out, 32768),
    decreases bit_len(input) - p,
{
    reveal(until_cells);
    lemma_block_cells_advances(input, p, cells);
    lemma_block_cells_window(input, p, cells);
    let b = block_cells(input, p, cells);
    if let Ok((q, last)) = b.end {
        if !(last || q >= hint) {
            lemma_until_cells_window(input, q, hint, b.out);
        }
    }
}

} // verus!
