//! Decoding without the preceding window through a window of wide cells.
//!
//! A cell of 16 bits carries its own state: with the high bit set it stands
//! for a byte of the unknown prefix, otherwise it is a byte. Copying a match
//! copies cells, so that it needs no bookkeeping. The window is bounded: it
//! keeps the last `U16_WINDOW` cells and passes older ones on. Once the kept
//! cells are all bytes, no later match can reach the prefix, and the rest is
//! decoded as bytes.
use vstd::prelude::*;
use crate::deflate::DeflateError;
use crate::deflate::bit_reader::{BitReader, addressable};
use crate::deflate::bits::{bits_at, bit_len, lemma_bits_byte};
use crate::deflate::cells::{
    Cell, known, cell_back, copy_cells, run_cells, body_cells, block_cells, until_cells, lemma_block_cells_advances,
    lemma_block_cells_extends, lemma_until_cells_advances, lemma_until_tail, law_window_suffices,
};
use crate::deflate::fast_inflate::{decode_blocks_preload, stop_at};
use crate::deflate::format::{Body, Symbol, body_at, stored_at, symbol_at, until, lemma_symbol_advances};
use crate::deflate::huffman::{HuffmanDecoder, Encoding};
use crate::deflate::inflate::{read_block_bits, read_dynamic_header, read_stored_header, fixed_decoders};
use crate::deflate::speculative::{
    SpeculativeChunk, Marker, bytes_of, markers_of, cell_of, cells_of, lemma_markers_append,
    lemma_known_markers,
};
use crate::deflate::symbols::{Token, read_symbol, lemma_symbol_bounds};

verus! {

/// Cells that are kept for matches: the farthest that one reaches back.
pub const U16_WINDOW: usize = 32768;

/// The window is flushed when it has grown to this many cells.
pub const U16_FLUSH_AT: usize = 262144;

/// Decoding may go on in bytes once this many cells have been produced.
pub const U16_HANDOFF_AT: usize = 65536;

/// The window `scratch` and the chunk hold `cells` between them: the first
/// `window_base` stand in the chunk, after what it held before.
spec fn windowed(
    scratch: Seq<u16>,
    chunk: SpeculativeChunk,
    window_base: int,
    bytes0: Seq<u8>,
    markers0: Seq<Marker>,
    cells: Seq<Cell>,
) -> bool {
    &&& 0 <= window_base
    &&& cells.len() == window_base + scratch.len()
    &&& cells.skip(window_base) == cells_of(scratch)
    &&& chunk.bytes@ == bytes0 + bytes_of(cells.take(window_base))
    &&& chunk.markers@ == markers0 + markers_of(cells.take(window_base), bytes0.len() as int)
    &&& window_base > 0 ==> scratch.len() >= U16_WINDOW
    &&& scratch.len() < U16_FLUSH_AT + 258
    &&& narrow(scratch)
}

/// How many of `len` cells have been passed on to the chunk after the window was
/// looked at, if `base` had been before: all but the kept ones if it has grown.
pub open spec fn flushed(base: int, len: int) -> int {
    if len - base >= U16_FLUSH_AT {
        len - U16_WINDOW
    } else {
        base
    }
}

/// How many cells have been passed on when the symbols of a block have been
/// decoded from `p` on: the window is looked at before each symbol.
#[verifier::opaque]
pub open spec fn run_base(lit: Seq<u8>, dist: Seq<u8>, input: Seq<u8>, p: int, cells: Seq<Cell>, base: int) -> int
    decreases bit_len(input) - p,
{
    proof {
        lemma_symbol_advances(lit, dist, input, p);
    }
    let b = flushed(base, cells.len() as int);
    match symbol_at(lit, dist, input, p) {
        Ok((Symbol::Literal(v), q)) => run_base(lit, dist, input, q, cells.push(Cell::Byte(v)), b),
        Ok((Symbol::Match { length, distance }, q)) => run_base(
            lit,
            dist,
            input,
            q,
            copy_cells(cells, distance, length),
            b,
        ),
        _ => b,
    }
}

/// How many cells have been passed on when the window has been looked at before
/// each of `n` bytes, after `len` cells.
pub open spec fn stored_base(base: int, len: int, n: int) -> int
    decreases n,
{
    if n <= 0 {
        base
    } else {
        flushed(stored_base(base, len, n - 1), len + n - 1)
    }
}

/// How many cells have been passed on when the body of a block has been decoded,
/// as far as it can be.
pub open spec fn body_base(input: Seq<u8>, p: int, btype: nat, cells: Seq<Cell>, base: int) -> int {
    match body_at(input, p, btype) {
        Err(_) => base,
        Ok(Body::Stored { from, len }) => stored_base(
            base,
            cells.len() as int,
            if from + len <= input.len() {
                len
            } else {
                input.len() - from + 1
            },
        ),
        Ok(Body::Compressed(c)) => run_base(c.lit, c.dist, input, c.at, cells, base),
    }
}

/// How many cells have been passed on when the block at `p` has been decoded, as
/// far as it can be.
pub open spec fn block_base(input: Seq<u8>, p: int, cells: Seq<Cell>, base: int) -> int {
    if bit_len(input) - p < 3 {
        base
    } else {
        body_base(input, p + 3, bits_at(input, p + 1, 2), cells, base)
    }
}

/// Decoding may go on in bytes: the window is long enough, and the last
/// `U16_WINDOW` cells are bytes.
pub open spec fn hands_off(cells: Seq<Cell>, base: int) -> bool {
    &&& cells.len() - base >= U16_HANDOFF_AT
    &&& forall|i: int| cells.len() - U16_WINDOW <= i < cells.len() ==> (#[trigger] cells[i]) is Byte
}

/// How many cells a decode that fails has passed on to the chunk: all but those
/// in the window, or all once it goes on in bytes.
#[verifier::opaque]
pub open spec fn passed_on(input: Seq<u8>, p: int, hint: int, cells: Seq<Cell>, base: int) -> int
    decreases bit_len(input) - p,
{
    proof {
        lemma_block_cells_advances(input, p, cells);
    }
    let b = block_cells(input, p, cells);
    let n = block_base(input, p, cells, base);
    match b.end {
        Err(_) => n,
        Ok((q, last)) => if last || q >= hint || hands_off(b.out, n) {
            until_cells(input, p, hint, cells).out.len() as int
        } else {
            passed_on(input, q, hint, b.out, n)
        },
    }
}

/// A wide cell that is a byte has nothing in its upper half.
pub open spec fn narrow(scratch: Seq<u16>) -> bool {
    forall|i: int| 0 <= i < scratch.len() && (#[trigger] scratch[i]) & SpeculativeChunk::MARKER16 == 0 ==> scratch[i] <= 255
}

proof fn lemma_wide_byte(b: u16)
    requires
        b <= 255,
    ensures
        cell_of(b) == Cell::Byte(b as u8),
{
    assert(b & 0x8000u16 == 0) by (bit_vector)
        requires
            b <= 255,
    ;
}

proof fn lemma_wide_marker(k: u16)
    requires
        k < 32768,
    ensures
        cell_of(SpeculativeChunk::MARKER16 | k) == Cell::Before(k as nat),
        (SpeculativeChunk::MARKER16 | k) & SpeculativeChunk::MARKER16 != 0,
{
    assert((0x8000u16 | k) & 0x8000u16 != 0 && (0x8000u16 | k) & 0x7fffu16 == k) by (bit_vector)
        requires
            k < 32768,
    ;
}

/// Appends one cell to the window.
fn push_cell(
    scratch: &mut Vec<u16>,
    c: u16,
    chunk: &SpeculativeChunk,
    Ghost(window_base): Ghost<int>,
    Ghost(bytes0): Ghost<Seq<u8>>,
    Ghost(markers0): Ghost<Seq<Marker>>,
    Ghost(cells): Ghost<Seq<Cell>>,
)
    requires
        windowed(old(scratch)@, *chunk, window_base, bytes0, markers0, cells),
        old(scratch)@.len() < U16_FLUSH_AT + 257,
        c & SpeculativeChunk::MARKER16 == 0 ==> c <= 255,
    ensures
        windowed(final(scratch)@, *chunk, window_base, bytes0, markers0, cells.push(cell_of(c))),
        final(scratch)@.len() == old(scratch)@.len() + 1,
{
    scratch.push(c);
    proof {
        let c1 = cells.push(cell_of(c));
        assert(c1.take(window_base) =~= cells.take(window_base));
        assert(cells_of(scratch@) =~= cells_of(old(scratch)@).push(cell_of(c)));
        assert(c1.skip(window_base) =~= cells.skip(window_base).push(cell_of(c)));
    }
}

/// Passes everything older than the kept window on to the chunk.
fn flush_u16(
    scratch: &mut Vec<u16>,
    chunk: &mut SpeculativeChunk,
    window_base: &mut usize,
    Ghost(bytes0): Ghost<Seq<u8>>,
    Ghost(markers0): Ghost<Seq<Marker>>,
    Ghost(cells): Ghost<Seq<Cell>>,
)
    requires
        windowed(old(scratch)@, *old(chunk), *old(window_base) as int, bytes0, markers0, cells),
        old(scratch)@.len() > U16_WINDOW,
    ensures
        windowed(final(scratch)@, *final(chunk), *final(window_base) as int, bytes0, markers0, cells),
        final(scratch)@.len() == U16_WINDOW,
        *final(window_base) == *old(window_base) + old(scratch)@.len() - U16_WINDOW,
{
    let ghost s0 = scratch@;
    let ghost wb = *window_base as int;
    let flush_count: usize = scratch.len() - U16_WINDOW;
    let total: usize = chunk.bytes.len();
    chunk.extract_from_u16(vstd::slice::slice_subrange(scratch.as_slice(), 0, flush_count));
    let total2: usize = chunk.bytes.len();
    let mut kept: Vec<u16> = Vec::with_capacity(U16_FLUSH_AT);
    let mut i: usize = flush_count;
    while i < scratch.len()
        invariant
            flush_count <= i <= scratch@.len(),
            kept@ =~= scratch@.subrange(flush_count as int, i as int),
        decreases scratch@.len() - i,
    {
        kept.push(scratch[i]);
        i = i + 1;
    }
    proof {
        let fl = s0.subrange(0, flush_count as int);
        assert(cells.take(wb + flush_count) =~= cells.take(wb) + cells_of(fl)) by {
            assert forall|j: int| 0 <= j < flush_count implies cells[wb + j] == cells_of(fl)[j] by {
                assert(cells.skip(wb)[j] == cells[wb + j]);
            }
        }
        lemma_markers_append(cells.take(wb), cells_of(fl), bytes0.len() as int);
        assert(chunk.bytes@ =~= bytes0 + bytes_of(cells.take(wb + flush_count)));
        assert(chunk.markers@ =~= markers0 + markers_of(cells.take(wb + flush_count), bytes0.len() as int));
        assert(cells.skip(wb + flush_count) =~= cells_of(kept@)) by {
            assert forall|j: int| 0 <= j < kept@.len() implies cells.skip(wb + flush_count)[j] == cells_of(kept@)[j] by {
                assert(cells.skip(wb)[flush_count + j] == cells_of(s0)[flush_count + j]);
            }
        }
    }
    *scratch = kept;
    *window_base = *window_base + flush_count;
}

/// Appends a match to the window.
fn copy_back_u16(
    scratch: &mut Vec<u16>,
    distance: usize,
    length: usize,
    chunk: &SpeculativeChunk,
    Ghost(window_base): Ghost<int>,
    Ghost(bytes0): Ghost<Seq<u8>>,
    Ghost(markers0): Ghost<Seq<Marker>>,
    Ghost(cells): Ghost<Seq<Cell>>,
)
    requires
        windowed(old(scratch)@, *chunk, window_base, bytes0, markers0, cells),
        old(scratch)@.len() < U16_FLUSH_AT,
        1 <= distance <= 32768,
        length <= 258,
    ensures
        windowed(
            final(scratch)@,
            *chunk,
            window_base,
            bytes0,
            markers0,
            copy_cells(cells, distance as int, length as int),
        ),
{
    let ghost mut c = cells;
    let ghost n0 = scratch@.len();
    let mut k: usize = 0;
    while k < length
        invariant
            k <= length <= 258,
            n0 < U16_FLUSH_AT,
            scratch@.len() == n0 + k,
            1 <= distance <= 32768,
            windowed(scratch@, *chunk, window_base, bytes0, markers0, c),
            copy_cells(c, distance as int, length - k) == copy_cells(cells, distance as int, length as int),
        decreases length - k,
    {
        let n: usize = scratch.len();
        let cell: u16 = if distance <= n {
            scratch[n - distance]
        } else {
            SpeculativeChunk::MARKER16 | (distance - n - 1) as u16
        };
        proof {
            if distance <= n {
                assert(c.skip(window_base)[n - distance] == c[c.len() - distance]);
                assert(cells_of(scratch@)[n - distance] == cell_of(cell));
            } else {
                lemma_wide_marker((distance - n - 1) as u16);
                assert(window_base == 0);
                assert(c.skip(0) =~= c);
            }
            assert(cell_of(cell) == cell_back(c, distance as int));
        }
        push_cell(scratch, cell, chunk, Ghost(window_base), Ghost(bytes0), Ghost(markers0), Ghost(c));
        proof {
            c = c.push(cell_of(cell));
        }
        k = k + 1;
    }
}

/// Decodes the symbols of a block through the window.
fn decode_compressed_u16(
    br: &mut BitReader<'_>,
    scratch: &mut Vec<u16>,
    chunk: &mut SpeculativeChunk,
    lit: &HuffmanDecoder,
    dist: &HuffmanDecoder,
    window_base: &mut usize,
    Ghost(bytes0): Ghost<Seq<u8>>,
    Ghost(markers0): Ghost<Seq<Marker>>,
    Ghost(cells): Ghost<Seq<Cell>>,
) -> (r: Result<(), DeflateError>)
    requires
        old(br).wf(),
        lit.wf(),
        lit.encoding() == Encoding::LitLen,
        dist.wf(),
        dist.encoding() == Encoding::Dist,
        windowed(old(scratch)@, *old(chunk), *old(window_base) as int, bytes0, markers0, cells),
    ensures
        final(br).wf(),
        final(br).stream() == old(br).stream(),
        windowed(
            final(scratch)@,
            *final(chunk),
            *final(window_base) as int,
            bytes0,
            markers0,
            run_cells(
                lit.lengths(),
                dist.lengths(),
                old(br).stream(),
                old(br).pos(),
                cells,
            ).out,
        ),
        *final(window_base) == run_base(
            lit.lengths(),
            dist.lengths(),
            old(br).stream(),
            old(br).pos(),
            cells,
            *old(window_base) as int,
        ),
        match run_cells(
            lit.lengths(),
            dist.lengths(),
            old(br).stream(),
            old(br).pos(),
            cells,
        ).end {
            Ok(q) => r is Ok && final(br).pos() == q,
            Err(e) => r == Err::<(), DeflateError>(e),
        },
{
    let ghost mut c = cells;
    loop
        invariant
            br.wf(),
            br.stream() == old(br).stream(),
            lit.wf(),
            lit.encoding() == Encoding::LitLen,
            dist.wf(),
            dist.encoding() == Encoding::Dist,
            windowed(scratch@, *chunk, *window_base as int, bytes0, markers0, c),
            run_cells(lit.lengths(), dist.lengths(), br.stream(), br.pos(), c) == run_cells(
                lit.lengths(),
                dist.lengths(),
                old(br).stream(),
                old(br).pos(),
                cells,
            ),
            run_base(lit.lengths(), dist.lengths(), br.stream(), br.pos(), c, *window_base as int) == run_base(
                lit.lengths(),
                dist.lengths(),
                old(br).stream(),
                old(br).pos(),
                cells,
                *old(window_base) as int,
            ),
        decreases bit_len(br.stream()) - br.pos(),
    {
        if scratch.len() >= U16_FLUSH_AT {
            flush_u16(scratch, chunk, window_base, Ghost(bytes0), Ghost(markers0), Ghost(c));
        }
        proof {
            reveal(run_base);
            reveal(run_cells);
            lemma_symbol_advances(lit.lengths(), dist.lengths(), br.stream(), br.pos());
            lemma_symbol_bounds(lit.lengths(), dist.lengths(), br.stream(), br.pos());
        }
        match read_symbol(br, lit, dist) {
            Ok(Token::Literal(b)) => {
                proof {
                    lemma_wide_byte(b as u16);
                }
                push_cell(
                    scratch,
                    b as u16,
                    chunk,
                    Ghost(*window_base as int),
                    Ghost(bytes0),
                    Ghost(markers0),
                    Ghost(c),
                );
                proof {
                    c = c.push(Cell::Byte(b));
                }
            },
            Ok(Token::EndOfBlock) => {
                return Ok(());
            },
            Ok(Token::Match { length, distance }) => {
                copy_back_u16(
                    scratch,
                    distance,
                    length,
                    chunk,
                    Ghost(*window_base as int),
                    Ghost(bytes0),
                    Ghost(markers0),
                    Ghost(c),
                );
                proof {
                    c = copy_cells(c, distance as int, length as int);
                }
            },
            Err(e) => {
                return Err(e);
            },
        }
    }
}

/// Reads a stored block through the window.
fn decode_stored_u16(
    br: &mut BitReader<'_>,
    scratch: &mut Vec<u16>,
    chunk: &mut SpeculativeChunk,
    window_base: &mut usize,
    Ghost(bytes0): Ghost<Seq<u8>>,
    Ghost(markers0): Ghost<Seq<Marker>>,
    Ghost(cells): Ghost<Seq<Cell>>,
) -> (r: Result<(), DeflateError>)
    requires
        old(br).wf(),
        windowed(old(scratch)@, *old(chunk), *old(window_base) as int, bytes0, markers0, cells),
    ensures
        final(br).wf(),
        final(br).stream() == old(br).stream(),
        windowed(
            final(scratch)@,
            *final(chunk),
            *final(window_base) as int,
            bytes0,
            markers0,
            body_cells(old(br).stream(), old(br).pos(), 0, cells).out,
        ),
        *final(window_base) == body_base(old(br).stream(), old(br).pos(), 0, cells, *old(window_base) as int),
        match body_cells(old(br).stream(), old(br).pos(), 0, cells).end {
            Ok(q) => r is Ok && final(br).pos() == q,
            Err(e) => r == Err::<(), DeflateError>(e),
        },
{
    let len: usize = match read_stored_header(br) {
        Ok(v) => v,
        Err(e) => {
            return Err(e);
        },
    };
    let ghost input = br.stream();
    let ghost from = br.pos() / 8;
    let ghost mut c = cells;
    let mut i: usize = 0;
    proof {
        assert(cells + known(input.subrange(from, from)) =~= cells);
    }
    while i < len
        invariant
            i <= len,
            br.wf(),
            br.stream() == input,
            0 <= from,
            from + i <= input.len(),
            br.pos() == 8 * (from + i),
            windowed(scratch@, *chunk, *window_base as int, bytes0, markers0, c),
            c == cells + known(input.subrange(from, from + i)),
            *window_base == stored_base(*old(window_base) as int, cells.len() as int, i as int),
            input == old(br).stream(),
            stored_at(input, old(br).pos()) == Ok::<(int, int), DeflateError>((from, len as int)),
        decreases len - i,
    {
        if scratch.len() >= U16_FLUSH_AT {
            flush_u16(scratch, chunk, window_base, Ghost(bytes0), Ghost(markers0), Ghost(c));
        }
        match br.read(8) {
            Ok(v) => {
                proof {
                    lemma_bits_byte(input, from + i);
                    lemma_wide_byte(v as u16);
                }
                push_cell(
                    scratch,
                    v as u16,
                    chunk,
                    Ghost(*window_base as int),
                    Ghost(bytes0),
                    Ghost(markers0),
                    Ghost(c),
                );
                proof {
                    c = c.push(Cell::Byte(v as u8));
                    assert(c =~= cells + known(input.subrange(from, from + i + 1)));
                }
            },
            Err(e) => {
                assert(input.subrange(from, from + i) =~= input.skip(from));
                return Err(e);
            },
        }
        i = i + 1;
    }
    Ok(())
}

/// Decodes the body of a block of type `btype` through the window.
fn decode_block_u16(
    br: &mut BitReader<'_>,
    scratch: &mut Vec<u16>,
    chunk: &mut SpeculativeChunk,
    btype: u32,
    window_base: &mut usize,
    Ghost(bytes0): Ghost<Seq<u8>>,
    Ghost(markers0): Ghost<Seq<Marker>>,
    Ghost(cells): Ghost<Seq<Cell>>,
) -> (r: Result<(), DeflateError>)
    requires
        old(br).wf(),
        windowed(old(scratch)@, *old(chunk), *old(window_base) as int, bytes0, markers0, cells),
    ensures
        final(br).wf(),
        final(br).stream() == old(br).stream(),
        windowed(
            final(scratch)@,
            *final(chunk),
            *final(window_base) as int,
            bytes0,
            markers0,
            body_cells(old(br).stream(), old(br).pos(), btype as nat, cells).out,
        ),
        *final(window_base) == body_base(
            old(br).stream(),
            old(br).pos(),
            btype as nat,
            cells,
            *old(window_base) as int,
        ),
        match body_cells(old(br).stream(), old(br).pos(), btype as nat, cells).end {
            Ok(q) => r is Ok && final(br).pos() == q,
            Err(e) => r == Err::<(), DeflateError>(e),
        },
{
    match btype {
        0 => decode_stored_u16(br, scratch, chunk, window_base, Ghost(bytes0), Ghost(markers0), Ghost(cells)),
        1 => match fixed_decoders() {
            Ok((lit, dist)) => decode_compressed_u16(
                br,
                scratch,
                chunk,
                &lit,
                &dist,
                window_base,
                Ghost(bytes0),
                Ghost(markers0),
                Ghost(cells),
            ),
            Err(e) => Err(e),
        },
        2 => match read_dynamic_header(br) {
            Ok((lit, dist)) => decode_compressed_u16(
                br,
                scratch,
                chunk,
                &lit,
                &dist,
                window_base,
                Ghost(bytes0),
                Ghost(markers0),
                Ghost(cells),
            ),
            Err(e) => Err(e),
        },
        _ => Err(DeflateError::Invalid("reserved block type")),
    }
}

/// True if the last `U16_WINDOW` cells are bytes.
fn window_is_plain(scratch: &Vec<u16>) -> (b: bool)
    requires
        scratch@.len() >= U16_WINDOW,
    ensures
        b == forall|i: int|
            scratch@.len() - U16_WINDOW <= i < scratch@.len() ==> #[trigger] cell_of(scratch@[i]) is Byte,
{
    let mut i: usize = scratch.len() - U16_WINDOW;
    while i < scratch.len()
        invariant
            scratch@.len() - U16_WINDOW <= i <= scratch@.len(),
            forall|j: int| scratch@.len() - U16_WINDOW <= j < i ==> #[trigger] cell_of(scratch@[j]) is Byte,
        decreases scratch@.len() - i,
    {
        if scratch[i] & SpeculativeChunk::MARKER16 != 0 {
            assert(cell_of(scratch@[i as int]) is Before);
            return false;
        }
        i = i + 1;
    }
    true
}

/// What a decode appended to a chunk, all or part of it.
pub open spec fn appended(old: SpeculativeChunk, new: SpeculativeChunk, cells: Seq<Cell>) -> bool {
    &&& new.bytes@ == old.bytes@ + bytes_of(cells)
    &&& new.markers@ == old.markers@ + markers_of(cells, old.bytes@.len() as int)
}

/// The last cells are bytes exactly if the last of the window are.
proof fn lemma_plain_cells(scratch: Seq<u16>, cells: Seq<Cell>, window_base: int)
    requires
        cells.len() == window_base + scratch.len(),
        0 <= window_base,
        cells.skip(window_base) == cells_of(scratch),
    ensures
        hands_off(cells, window_base) == (scratch.len() >= U16_HANDOFF_AT && forall|i: int|
            scratch.len() - U16_WINDOW <= i < scratch.len() ==> #[trigger] cell_of(scratch[i]) is Byte),
{
    if scratch.len() >= U16_HANDOFF_AT {
        assert forall|i: int| 0 <= i < scratch.len() implies cells[window_base + i] == #[trigger] cell_of(scratch[i]) by {
            assert(cells.skip(window_base)[i] == cells_of(scratch)[i]);
        }
        if hands_off(cells, window_base) {
            assert forall|i: int| scratch.len() - U16_WINDOW <= i < scratch.len() implies #[trigger] cell_of(
                scratch[i],
            ) is Byte by {
                assert(cells[window_base + i] is Byte);
            }
        } else {
            let k = choose|k: int| cells.len() - U16_WINDOW <= k < cells.len() && !((#[trigger] cells[k]) is Byte);
            assert(!(cell_of(scratch[k - window_base]) is Byte));
        }
    }
}

/// A window whose last cells are bytes: those bytes, and the cells before them.
proof fn lemma_plain_tail(scratch: Seq<u16>, cells: Seq<Cell>, window_base: int) -> (r: (Seq<Cell>, Seq<u8>))
    requires
        cells.len() == window_base + scratch.len(),
        0 <= window_base,
        cells.skip(window_base) == cells_of(scratch),
        scratch.len() >= U16_WINDOW,
        forall|i: int| scratch.len() - U16_WINDOW <= i < scratch.len() ==> #[trigger] cell_of(scratch[i]) is Byte,
    ensures
        r.1.len() == U16_WINDOW,
        cells == r.0 + known(r.1),
{
    let n = cells.len() - U16_WINDOW;
    let pre = cells.take(n);
    let w = bytes_of(cells.skip(n));
    assert(cells =~= pre + known(w)) by {
        assert forall|i: int| n <= i < cells.len() implies cells[i] == #[trigger] (pre + known(w))[i] by {
            assert(cells.skip(window_base)[i - window_base] == cells[i]);
            assert(cell_of(scratch[i - window_base]) is Byte);
            assert(cells.skip(n)[i - n] == cells[i]);
        }
    }
    (pre, w)
}

/// Decodes blocks from bit `start_bit` on without the window before it, up to
/// the last one or to the first that ends at or after bit `end_bit_hint`.
/// Appends the bytes and the markers to `chunk`, and returns where it stopped
/// and whether that was the last block, after which it stops at the next byte
/// boundary. On an error, what was decoded is appended but for the cells that are
/// still in the window. `scratch` is work space.
pub fn decode_until_u16(
    input: &[u8],
    start_bit: u64,
    end_bit_hint: u64,
    chunk: &mut SpeculativeChunk,
    scratch: &mut Vec<u16>,
) -> (r: Result<(u64, bool), DeflateError>)
    requires
        addressable(input@),
    ensures
        start_bit > bit_len(input@) ==> r == Err::<(u64, bool), DeflateError>(DeflateError::UnexpectedEof)
            && final(chunk).bytes@ == old(chunk).bytes@ && final(chunk).markers@ == old(chunk).markers@,
        start_bit <= bit_len(input@) ==> {
            let d = until_cells(input@, start_bit as int, end_bit_hint as int, Seq::empty());
            match d.end {
                Ok((q, last)) => {
                    &&& r is Ok && r->Ok_0.0 == stop_at(q, last) && r->Ok_0.1 == last
                    &&& appended(*old(chunk), *final(chunk), d.out)
                },
                Err(e) => {
                    let n = passed_on(input@, start_bit as int, end_bit_hint as int, Seq::empty(), 0);
                    &&& r == Err::<(u64, bool), DeflateError>(e)
                    &&& 0 <= n <= d.out.len()
                    &&& appended(*old(chunk), *final(chunk), d.out.take(n))
                },
            }
        },
{
    let mut br = BitReader::new(input);
    match br.seek_to_bit(start_bit) {
        Ok(()) => {},
        Err(e) => {
            return Err(e);
        },
    }
    scratch.clear();
    let mut window_base: usize = 0;
    let ghost bytes0 = chunk.bytes@;
    let ghost markers0 = chunk.markers@;
    let ghost mut cells = Seq::<Cell>::empty();
    let ghost whole = until_cells(input@, start_bit as int, end_bit_hint as int, cells);
    let ghost n = passed_on(input@, start_bit as int, end_bit_hint as int, cells, 0);
    proof {
        assert(cells.take(0) =~= cells);
        assert(cells.skip(0) =~= cells_of(scratch@));
        assert(chunk.bytes@ =~= bytes0 + bytes_of(cells));
        assert(chunk.markers@ =~= markers0 + markers_of(cells, bytes0.len() as int));
    }
    loop
        invariant_except_break
            windowed(scratch@, *chunk, window_base as int, bytes0, markers0, cells),
            passed_on(input@, br.pos(), end_bit_hint as int, cells, window_base as int) == n,
        invariant
            n == passed_on(input@, start_bit as int, end_bit_hint as int, Seq::empty(), 0),
            br.wf(),
            br.stream() == input@,
            bytes0 == old(chunk).bytes@,
            markers0 == old(chunk).markers@,
            start_bit <= bit_len(input@),
            whole == until_cells(
                input@,
                start_bit as int,
                end_bit_hint as int,
                Seq::empty(),
            ),
            until_cells(input@, br.pos(), end_bit_hint as int, cells) == whole,
        ensures
            windowed(scratch@, *chunk, window_base as int, bytes0, markers0, cells),
            n == whole.out.len(),
            scratch@.len() >= U16_HANDOFF_AT,
            forall|i: int|
                scratch@.len() - U16_WINDOW <= i < scratch@.len() ==> #[trigger] cell_of(scratch@[i]) is Byte,
        decreases bit_len(input@) - br.pos(),
    {
        proof {
            reveal(until_cells);
            reveal(passed_on);
            lemma_block_cells_advances(input@, br.pos(), cells);
            lemma_block_cells_extends(input@, br.pos(), cells);
        }
        let ghost b = block_cells(input@, br.pos(), cells);
        let ghost p0 = br.pos();
        let (bfinal, btype) = match read_block_bits(&mut br) {
            Ok(v) => v,
            Err(e) => {
                proof {
                    assert(whole.out == cells);
                    assert(appended(*old(chunk), *chunk, whole.out.take(window_base as int)));
                }
                return Err(e);
            },
        };
        match decode_block_u16(
            &mut br,
            scratch,
            chunk,
            btype,
            &mut window_base,
            Ghost(bytes0),
            Ghost(markers0),
            Ghost(cells),
        ) {
            Ok(()) => {},
            Err(e) => {
                proof {
                    assert(whole.out == b.out);
                    assert(appended(*old(chunk), *chunk, whole.out.take(window_base as int)));
                }
                return Err(e);
            },
        }
        proof {
            cells = b.out;
        }
        if bfinal {
            extract_rest(scratch, chunk, Ghost(window_base as int), Ghost(bytes0), Ghost(markers0), Ghost(cells));
            br.byte_align();
            return Ok((br.tell_bit(), true));
        }
        if br.tell_bit() >= end_bit_hint {
            extract_rest(scratch, chunk, Ghost(window_base as int), Ghost(bytes0), Ghost(markers0), Ghost(cells));
            return Ok((br.tell_bit(), false));
        }
        proof {
            lemma_plain_cells(scratch@, cells, window_base as int);
        }
        if scratch.len() >= U16_HANDOFF_AT && window_is_plain(scratch) {
            break;
        }
    }
    let ghost (pre, w) = lemma_plain_tail(scratch@, cells, window_base as int);
    extract_rest(scratch, chunk, Ghost(window_base as int), Ghost(bytes0), Ghost(markers0), Ghost(cells));
    proof {
        let p = br.pos();
        let hint = end_bit_hint as int;
        let h = bytes0 + bytes_of(pre);
        let u = until(input@, p, hint, w);
        lemma_markers_append(pre, known(w), bytes0.len() as int);
        lemma_known_markers(w, (bytes0.len() + pre.len()) as int);
        assert(chunk.bytes@ =~= h + w);
        law_window_suffices(input@, p, hint, h, w);
        lemma_until_tail(input@, p, hint, pre, w);
        lemma_markers_append(pre, known(u.out), bytes0.len() as int);
        lemma_known_markers(u.out, (bytes0.len() + pre.len()) as int);
        assert(h + u.out =~= bytes0 + bytes_of(whole.out));
        assert(whole.out.take(whole.out.len() as int) =~= whole.out);
        lemma_until_cells_advances(input@, p, hint, cells);
    }
    match decode_blocks_preload(&mut br, end_bit_hint, &mut chunk.bytes) {
        Ok((end_bit, last)) => {
            if last && end_bit % 8 != 0 {
                return Ok((end_bit - end_bit % 8 + 8, last));
            }
            Ok((end_bit, last))
        },
        Err(e) => Err(e),
    }
}

/// Passes all cells of the window on to the chunk.
fn extract_rest(
    scratch: &Vec<u16>,
    chunk: &mut SpeculativeChunk,
    Ghost(window_base): Ghost<int>,
    Ghost(bytes0): Ghost<Seq<u8>>,
    Ghost(markers0): Ghost<Seq<Marker>>,
    Ghost(cells): Ghost<Seq<Cell>>,
)
    requires
        windowed(scratch@, *old(chunk), window_base, bytes0, markers0, cells),
    ensures
        final(chunk).bytes@ == bytes0 + bytes_of(cells),
        final(chunk).markers@ == markers0 + markers_of(cells, bytes0.len() as int),
{
    chunk.extract_from_u16(scratch.as_slice());
    proof {
        let a = cells.take(window_base);
        lemma_markers_append(a, cells_of(scratch@), bytes0.len() as int);
        assert(cells =~= a + cells.skip(window_base));
        assert(chunk.bytes@ =~= bytes0 + bytes_of(cells));
        assert(chunk.markers@ =~= markers0 + markers_of(cells, bytes0.len() as int));
    }
}

} // verus!
