//! The decoding kernels.
//!
//! They all decode what [`inflate`](crate::deflate::inflate::inflate) decodes, up
//! to the last bit of the input.
use vstd::prelude::*;
use crate::deflate::DeflateError;
use crate::deflate::bit_reader::{BitReader, addressable};
use crate::deflate::bits::{align_up, bit_len};
use crate::deflate::canonical::lookup_at;
use crate::deflate::format::{
    Symbol, match_at, run, block, body, until, stored_at, stored_bytes, inflate as inflated, copy_back,
    extends, lemma_symbol_advances, lemma_run_extends, lemma_block_advances, lemma_block_extends,
};
use crate::deflate::huffman::{HuffmanDecoder, Encoding, HUFFDEC_EXCEPTIONAL, HUFFDEC_LITERAL};
use crate::deflate::inflate::{read_block_bits, read_dynamic_header, fixed_decoders, decode_stored};
use crate::deflate::cells::{
    Cell, copy_cells, run_cells, body_cells, block_cells, until_cells, lemma_block_cells_advances,
    lemma_until_cells_advances,
};
use crate::deflate::speculative::{
    SpeculativeChunk, SpeculativeContext, bytes_of, markers_of, in_progress, push_literal,
    append_match_speculative, lemma_markers, lemma_shifted_markers, lemma_push_known,
};
pub use crate::deflate::stepwise::{
    decode_four_distinct, decode_four_interleaved, decode_member_stepwise, decode_three_interleaved,
    decode_two_interleaved,
};
pub use crate::deflate::wide_window::decode_until_u16;
use crate::deflate::symbols::{
    Token, read_symbol, read_match, append_match, lemma_symbol_bounds, lemma_match_bounds, lemma_litlen_entry,
};

verus! {

/// Decodes the symbols of a block, up to and with its end.
fn decode_compressed(br: &mut BitReader<'_>, out: &mut Vec<u8>, lit: &HuffmanDecoder, dist: &HuffmanDecoder) -> (r:
    Result<(), DeflateError>)
    requires
        old(br).wf(),
        lit.wf(),
        lit.encoding() == Encoding::LitLen,
        dist.wf(),
        dist.encoding() == Encoding::Dist,
    ensures
        final(br).wf(),
        final(br).stream() == old(br).stream(),
        final(out)@ == run(
            lit.lengths(),
            dist.lengths(),
            old(br).stream(),
            old(br).pos(),
            old(out)@,
        ).out,
        extends(final(out)@, old(out)@),
        match run(
            lit.lengths(),
            dist.lengths(),
            old(br).stream(),
            old(br).pos(),
            old(out)@,
        ).end {
            Ok(q) => r is Ok && final(br).pos() == q,
            Err(e) => r == Err::<(), DeflateError>(e),
        },
{
    proof {
        lemma_run_extends(lit.lengths(), dist.lengths(), br.stream(), br.pos(), out@);
    }
    loop
        invariant
            br.wf(),
            br.stream() == old(br).stream(),
            lit.wf(),
            lit.encoding() == Encoding::LitLen,
            dist.wf(),
            dist.encoding() == Encoding::Dist,
            extends(
                run(lit.lengths(), dist.lengths(), old(br).stream(), old(br).pos(), old(out)@).out,
                old(out)@,
            ),
            run(lit.lengths(), dist.lengths(), br.stream(), br.pos(), out@) == run(
                lit.lengths(),
                dist.lengths(),
                old(br).stream(),
                old(br).pos(),
                old(out)@,
            ),
        decreases bit_len(br.stream()) - br.pos(),
    {
        proof {
            reveal(run);
            lemma_symbol_advances(lit.lengths(), dist.lengths(), br.stream(), br.pos());
            lemma_symbol_bounds(lit.lengths(), dist.lengths(), br.stream(), br.pos());
        }
        match read_symbol(br, lit, dist) {
            Ok(Token::Literal(b)) => {
                out.push(b);
            },
            Ok(Token::EndOfBlock) => {
                return Ok(());
            },
            Ok(Token::Match { length, distance }) => {
                if distance > out.len() {
                    return Err(DeflateError::Invalid("back-reference distance out of bounds"));
                }
                append_match(out, distance, length);
            },
            Err(e) => {
                return Err(e);
            },
        }
    }
}

/// Decodes the symbols of a block like [`decode_compressed`], but runs through
/// literals in a loop of their own, with the next entry looked up ahead.
fn decode_compressed_preload(
    br: &mut BitReader<'_>,
    out: &mut Vec<u8>,
    lit: &HuffmanDecoder,
    dist: &HuffmanDecoder,
) -> (r: Result<(), DeflateError>)
    requires
        old(br).wf(),
        lit.wf(),
        lit.encoding() == Encoding::LitLen,
        dist.wf(),
        dist.encoding() == Encoding::Dist,
    ensures
        final(br).wf(),
        final(br).stream() == old(br).stream(),
        final(out)@ == run(
            lit.lengths(),
            dist.lengths(),
            old(br).stream(),
            old(br).pos(),
            old(out)@,
        ).out,
        extends(final(out)@, old(out)@),
        match run(
            lit.lengths(),
            dist.lengths(),
            old(br).stream(),
            old(br).pos(),
            old(out)@,
        ).end {
            Ok(q) => r is Ok && final(br).pos() == q,
            Err(e) => r == Err::<(), DeflateError>(e),
        },
{
    let ghost input = br.stream();
    let ghost whole = run(lit.lengths(), dist.lengths(), input, br.pos(), out@);
    proof {
        lemma_run_extends(lit.lengths(), dist.lengths(), input, br.pos(), out@);
    }
    loop
        invariant
            extends(whole.out, old(out)@),
            br.wf(),
            br.stream() == input,
            lit.wf(),
            lit.encoding() == Encoding::LitLen,
            dist.wf(),
            dist.encoding() == Encoding::Dist,
            run(lit.lengths(), dist.lengths(), input, br.pos(), out@) == whole,
            input == old(br).stream(),
            whole == run(lit.lengths(), dist.lengths(), input, old(br).pos(), old(out)@),
        decreases bit_len(input) - br.pos(),
    {
        let ghost start = br.pos();
        let ghost mut p = br.pos();
        proof {
            reveal(run);
            lit.lemma_wf();
        }
        let mut entry: u32 = match lit.lookup(br) {
            Ok(e) => e,
            Err(e) => {
                return Err(e);
            },
        };
        let ghost mut s = lookup_at(lit.lengths(), input, p)->Ok_0;
        proof {
            lemma_litlen_entry(s, lit.lengths()[s] as int);
            reveal(run);
            lemma_symbol_advances(lit.lengths(), dist.lengths(), input, p);
        }
        while entry & HUFFDEC_LITERAL != 0
            invariant
                extends(whole.out, old(out)@),
                br.wf(),
                br.stream() == input,
                lit.wf(),
                lit.encoding() == Encoding::LitLen,
                dist.wf(),
                dist.encoding() == Encoding::Dist,
                input == old(br).stream(),
                whole == run(lit.lengths(), dist.lengths(), input, old(br).pos(), old(out)@),
                run(lit.lengths(), dist.lengths(), input, p, out@) == whole,
                start <= p,
                lookup_at(lit.lengths(), input, p) == Ok::<int, DeflateError>(s),
                0 <= s < lit.lengths().len() <= 288,
                1 <= lit.lengths()[s] <= 15,
                entry == lit.entry(s),
                br.pos() == p + lit.lengths()[s],
            decreases bit_len(input) - br.pos(),
        {
            proof {
                reveal(run);
                lemma_litlen_entry(s, lit.lengths()[s] as int);
                p = br.pos();
            }
            out.push(((entry >> 16) & 0xff) as u8);
            entry = match lit.lookup(br) {
                Ok(e) => e,
                Err(e) => {
                    return Err(e);
                },
            };
            proof {
                s = lookup_at(lit.lengths(), input, p)->Ok_0;
                reveal(run);
                lemma_symbol_advances(lit.lengths(), dist.lengths(), input, p);
            }
        }
        proof {
            lemma_litlen_entry(s, lit.lengths()[s] as int);
            reveal(run);
            lemma_symbol_advances(lit.lengths(), dist.lengths(), input, p);
            lemma_symbol_bounds(lit.lengths(), dist.lengths(), input, p);
        }
        if entry & HUFFDEC_EXCEPTIONAL != 0 {
            if entry >> 16 == 0 {
                return Ok(());
            }
            return Err(DeflateError::Invalid("literal/length symbol out of range"));
        }
        match decode_distance_and_copy(br, out, dist, entry, Ghost(s)) {
            Ok(()) => {},
            Err(e) => {
                return Err(e);
            },
        }
    }
}

/// Reads the rest of a match whose length symbol gave `entry`, and appends it.
fn decode_distance_and_copy(
    br: &mut BitReader<'_>,
    out: &mut Vec<u8>,
    dist: &HuffmanDecoder,
    entry: u32,
    Ghost(s): Ghost<int>,
) -> (r: Result<(), DeflateError>)
    requires
        old(br).wf(),
        dist.wf(),
        dist.encoding() == Encoding::Dist,
        257 <= s <= 285,
        exists|len: int|
            1 <= len <= 15 && entry == #[trigger] crate::deflate::huffman::entry_of(s, len, Encoding::LitLen),
    ensures
        final(br).wf(),
        final(br).stream() == old(br).stream(),
        match match_at(dist.lengths(), old(br).stream(), old(br).pos(), s - 257) {
            Ok((Symbol::Match { length, distance }, q)) => if distance <= old(out)@.len() {
                r is Ok && final(br).pos() == q && final(out)@ == copy_back(old(out)@, distance, length)
            } else {
                r == Err::<(), DeflateError>(DeflateError::Invalid("back-reference distance out of bounds"))
                    && final(out)@ == old(out)@
            },
            Ok(_) => false,
            Err(e) => r == Err::<(), DeflateError>(e) && final(out)@ == old(out)@,
        },
{
    proof {
        lemma_match_bounds(dist.lengths(), br.stream(), br.pos(), s - 257);
    }
    match read_match(br, dist, entry, Ghost(s)) {
        Ok((length, distance)) => {
            if distance > out.len() {
                return Err(DeflateError::Invalid("back-reference distance out of bounds"));
            }
            append_match(out, distance, length);
            Ok(())
        },
        Err(e) => Err(e),
    }
}

/// Decodes the body of a block of type `btype`.
fn decode_block(br: &mut BitReader<'_>, out: &mut Vec<u8>, btype: u32) -> (r: Result<(), DeflateError>)
    requires
        old(br).wf(),
    ensures
        final(br).wf(),
        final(br).stream() == old(br).stream(),
        final(out)@ == body(old(br).stream(), old(br).pos(), btype as nat, old(out)@).out,
        match body(old(br).stream(), old(br).pos(), btype as nat, old(out)@).end {
            Ok(q) => r is Ok && final(br).pos() == q,
            Err(e) => r == Err::<(), DeflateError>(e),
        },
{
    match btype {
        0 => decode_stored(br, out),
        1 => match fixed_decoders() {
            Ok((lit, dist)) => decode_compressed(br, out, &lit, &dist),
            Err(e) => Err(e),
        },
        2 => match read_dynamic_header(br) {
            Ok((lit, dist)) => decode_compressed(br, out, &lit, &dist),
            Err(e) => Err(e),
        },
        _ => Err(DeflateError::Invalid("reserved block type")),
    }
}

/// Decodes one block; true if it is the last.
pub fn decode_one_block(br: &mut BitReader<'_>, out: &mut Vec<u8>) -> (r: Result<bool, DeflateError>)
    requires
        old(br).wf(),
    ensures
        final(br).wf(),
        final(br).stream() == old(br).stream(),
        final(out)@ == block(old(br).stream(), old(br).pos(), old(out)@).out,
        extends(final(out)@, old(out)@),
        match block(old(br).stream(), old(br).pos(), old(out)@).end {
            Ok((q, last)) => r == Ok::<bool, DeflateError>(last) && final(br).pos() == q,
            Err(e) => r == Err::<bool, DeflateError>(e),
        },
{
    proof {
        lemma_block_extends(br.stream(), br.pos(), out@);
    }
    let (bfinal, btype) = match read_block_bits(br) {
        Ok(v) => v,
        Err(e) => {
            return Err(e);
        },
    };
    match decode_block(br, out, btype) {
        Ok(()) => Ok(bfinal),
        Err(e) => Err(e),
    }
}

/// Decodes one block with the literal-run kernel; true if it is the last.
pub fn decode_one_block_preload(br: &mut BitReader<'_>, out: &mut Vec<u8>) -> (r: Result<bool, DeflateError>)
    requires
        old(br).wf(),
    ensures
        final(br).wf(),
        final(br).stream() == old(br).stream(),
        final(out)@ == block(old(br).stream(), old(br).pos(), old(out)@).out,
        extends(final(out)@, old(out)@),
        match block(old(br).stream(), old(br).pos(), old(out)@).end {
            Ok((q, last)) => r == Ok::<bool, DeflateError>(last) && final(br).pos() == q,
            Err(e) => r == Err::<bool, DeflateError>(e),
        },
{
    proof {
        lemma_block_extends(br.stream(), br.pos(), out@);
    }
    let (bfinal, btype) = match read_block_bits(br) {
        Ok(v) => v,
        Err(e) => {
            return Err(e);
        },
    };
    let done: Result<(), DeflateError> = match btype {
        0 => decode_stored(br, out),
        1 => match fixed_decoders() {
            Ok((lit, dist)) => decode_compressed_preload(br, out, &lit, &dist),
            Err(e) => Err(e),
        },
        2 => match read_dynamic_header(br) {
            Ok((lit, dist)) => decode_compressed_preload(br, out, &lit, &dist),
            Err(e) => Err(e),
        },
        _ => Err(DeflateError::Invalid("reserved block type")),
    };
    match done {
        Ok(()) => Ok(bfinal),
        Err(e) => Err(e),
    }
}

/// Decodes a whole stream.
pub fn inflate_fast(br: &mut BitReader<'_>, out: &mut Vec<u8>) -> (r: Result<(), DeflateError>)
    requires
        old(br).wf(),
    ensures
        final(br).wf(),
        final(br).stream() == old(br).stream(),
        final(out)@ == inflated(old(br).stream(), old(br).pos(), old(out)@).out,
        match inflated(old(br).stream(), old(br).pos(), old(out)@).end {
            Ok(q) => r is Ok && final(br).pos() == q,
            Err(e) => r == Err::<(), DeflateError>(e),
        },
{
    let ghost hint = bit_len(br.stream()) + 1;
    loop
        invariant
            br.wf(),
            br.stream() == old(br).stream(),
            hint == bit_len(br.stream()) + 1,
            until(br.stream(), br.pos(), hint, out@) == until(
                old(br).stream(),
                old(br).pos(),
                hint,
                old(out)@,
            ),
        decreases bit_len(br.stream()) - br.pos(),
    {
        proof {
            reveal(until);
            lemma_block_advances(br.stream(), br.pos(), out@);
        }
        match decode_one_block(br, out) {
            Ok(last) => {
                if last {
                    return Ok(());
                }
            },
            Err(e) => {
                return Err(e);
            },
        }
    }
}

/// Decodes blocks from bit `start_bit` on, up to the last one or to the first
/// that ends at or after bit `end_bit_hint`. Returns where it stopped, and
/// whether that was the last block.
pub fn decode_member_u8(input: &[u8], start_bit: u64, end_bit_hint: u64, out: &mut Vec<u8>) -> (r: Result<
    (u64, bool),
    DeflateError,
>)
    requires
        addressable(input@),
    ensures
        start_bit > bit_len(input@) ==> r == Err::<(u64, bool), DeflateError>(DeflateError::UnexpectedEof)
            && final(out)@ == old(out)@,
        start_bit <= bit_len(input@) ==> {
            let d = until(input@, start_bit as int, end_bit_hint as int, old(out)@);
            &&& final(out)@ == d.out
            &&& match d.end {
                Ok((q, last)) => r is Ok && r->Ok_0.0 == q && r->Ok_0.1 == last,
                Err(e) => r == Err::<(u64, bool), DeflateError>(e),
            }
        },
{
    let mut br = BitReader::new(input);
    match br.seek_to_bit(start_bit) {
        Ok(()) => {},
        Err(e) => {
            return Err(e);
        },
    }
    loop
        invariant
            br.wf(),
            br.stream() == input@,
            start_bit <= bit_len(input@),
            until(input@, br.pos(), end_bit_hint as int, out@) == until(
                input@,
                start_bit as int,
                end_bit_hint as int,
                old(out)@,
            ),
        decreases bit_len(input@) - br.pos(),
    {
        proof {
            reveal(until);
            lemma_block_advances(input@, br.pos(), out@);
        }
        match decode_one_block(&mut br, out) {
            Ok(last) => {
                if last {
                    return Ok((br.tell_bit(), true));
                }
            },
            Err(e) => {
                return Err(e);
            },
        }
        if br.tell_bit() >= end_bit_hint {
            return Ok((br.tell_bit(), false));
        }
    }
}

/// Decodes blocks with the literal-run kernel, up to the last one or to the
/// first that ends at or after bit `end_bit_hint`.
pub(crate) fn decode_blocks_preload(br: &mut BitReader<'_>, end_bit_hint: u64, out: &mut Vec<u8>) -> (r: Result<
    (u64, bool),
    DeflateError,
>)
    requires
        old(br).wf(),
    ensures
        ({
            let d = until(old(br).stream(), old(br).pos(), end_bit_hint as int, old(out)@);
            &&& final(out)@ == d.out
            &&& match d.end {
                Ok((q, last)) => r is Ok && r->Ok_0.0 == q && r->Ok_0.1 == last,
                Err(e) => r == Err::<(u64, bool), DeflateError>(e),
            }
        }),
{
    let ghost input = br.stream();
    loop
        invariant
            br.wf(),
            br.stream() == input,
            input == old(br).stream(),
            until(input, br.pos(), end_bit_hint as int, out@) == until(
                input,
                old(br).pos(),
                end_bit_hint as int,
                old(out)@,
            ),
        decreases bit_len(input) - br.pos(),
    {
        proof {
            reveal(until);
            lemma_block_advances(input, br.pos(), out@);
        }
        match decode_one_block_preload(br, out) {
            Ok(last) => {
                if last {
                    return Ok((br.tell_bit(), true));
                }
            },
            Err(e) => {
                return Err(e);
            },
        }
        if br.tell_bit() >= end_bit_hint {
            return Ok((br.tell_bit(), false));
        }
    }
}

/// Does what [`decode_member_u8`] does, with the literal-run kernel.
pub fn decode_member_u8_preload(input: &[u8], start_bit: u64, end_bit_hint: u64, out: &mut Vec<u8>) -> (r: Result<
    (u64, bool),
    DeflateError,
>)
    requires
        addressable(input@),
    ensures
        start_bit > bit_len(input@) ==> r == Err::<(u64, bool), DeflateError>(DeflateError::UnexpectedEof)
            && final(out)@ == old(out)@,
        start_bit <= bit_len(input@) ==> {
            let d = until(input@, start_bit as int, end_bit_hint as int, old(out)@);
            &&& final(out)@ == d.out
            &&& match d.end {
                Ok((q, last)) => r is Ok && r->Ok_0.0 == q && r->Ok_0.1 == last,
                Err(e) => r == Err::<(u64, bool), DeflateError>(e),
            }
        },
{
    let mut br = BitReader::new(input);
    match br.seek_to_bit(start_bit) {
        Ok(()) => {},
        Err(e) => {
            return Err(e);
        },
    }
    decode_blocks_preload(&mut br, end_bit_hint, out)
}

/// Decodes the symbols of a block whose preceding window is unknown.
fn decode_compressed_speculative(
    br: &mut BitReader<'_>,
    out: &mut Vec<u8>,
    lit: &HuffmanDecoder,
    dist: &HuffmanDecoder,
    chunk_base: usize,
    ctx: &mut SpeculativeContext,
    Ghost(pre): Ghost<Seq<u8>>,
    Ghost(cells): Ghost<Seq<Cell>>,
) -> (r: Result<(), DeflateError>)
    requires
        old(br).wf(),
        lit.wf(),
        lit.encoding() == Encoding::LitLen,
        dist.wf(),
        dist.encoding() == Encoding::Dist,
        pre.len() == chunk_base,
        in_progress(old(out)@, old(ctx).markers@, pre, cells),
    ensures
        final(br).wf(),
        final(br).stream() == old(br).stream(),
        in_progress(
            final(out)@,
            final(ctx).markers@,
            pre,
            run_cells(
                lit.lengths(),
                dist.lengths(),
                old(br).stream(),
                old(br).pos(),
                cells,
            ).out,
        ),
        match run_cells(
            lit.lengths(),
            dist.lengths(),
            old(br).stream(),
            old(br).pos(),
            cells,
        ).end {
            Ok(q) => r is Ok && final(br).pos() == q,
            Err(e) => r == Err::<(), DeflateError>(e),
        },
{
    let ghost mut c = cells;
    loop
        invariant
            br.wf(),
            br.stream() == old(br).stream(),
            lit.wf(),
            lit.encoding() == Encoding::LitLen,
            dist.wf(),
            dist.encoding() == Encoding::Dist,
            pre.len() == chunk_base,
            in_progress(out@, ctx.markers@, pre, c),
            run_cells(lit.lengths(), dist.lengths(), br.stream(), br.pos(), c) == run_cells(
                lit.lengths(),
                dist.lengths(),
                old(br).stream(),
                old(br).pos(),
                cells,
            ),
        decreases bit_len(br.stream()) - br.pos(),
    {
        proof {
            reveal(run_cells);
            lemma_symbol_advances(lit.lengths(), dist.lengths(), br.stream(), br.pos());
            lemma_symbol_bounds(lit.lengths(), dist.lengths(), br.stream(), br.pos());
        }
        match read_symbol(br, lit, dist) {
            Ok(Token::Literal(b)) => {
                push_literal(out, ctx, b, Ghost(pre), Ghost(c));
                proof {
                    c = c.push(Cell::Byte(b));
                }
            },
            Ok(Token::EndOfBlock) => {
                return Ok(());
            },
            Ok(Token::Match { length, distance }) => {
                append_match_speculative(out, ctx, chunk_base, distance, length, Ghost(pre), Ghost(c));
                proof {
                    c = copy_cells(c, distance as int, length as int);
                }
            },
            Err(e) => {
                return Err(e);
            },
        }
    }
}

/// Decodes the body of a block of type `btype` whose preceding window is unknown.
fn decode_block_speculative(
    br: &mut BitReader<'_>,
    out: &mut Vec<u8>,
    btype: u32,
    chunk_base: usize,
    ctx: &mut SpeculativeContext,
    Ghost(pre): Ghost<Seq<u8>>,
    Ghost(cells): Ghost<Seq<Cell>>,
) -> (r: Result<(), DeflateError>)
    requires
        old(br).wf(),
        pre.len() == chunk_base,
        in_progress(old(out)@, old(ctx).markers@, pre, cells),
    ensures
        final(br).wf(),
        final(br).stream() == old(br).stream(),
        in_progress(
            final(out)@,
            final(ctx).markers@,
            pre,
            body_cells(old(br).stream(), old(br).pos(), btype as nat, cells).out,
        ),
        match body_cells(old(br).stream(), old(br).pos(), btype as nat, cells).end {
            Ok(q) => r is Ok && final(br).pos() == q,
            Err(e) => r == Err::<(), DeflateError>(e),
        },
{
    match btype {
        0 => {
            let r: Result<(), DeflateError> = decode_stored(br, out);
            proof {
                if let Ok((from, len)) = stored_at(old(br).stream(), old(br).pos()) {
                    lemma_push_known(old(out)@, ctx.markers@, pre, cells, stored_bytes(old(br).stream(), from, len));
                }
            }
            r
        },
        1 => match fixed_decoders() {
            Ok((lit, dist)) => decode_compressed_speculative(
                br,
                out,
                &lit,
                &dist,
                chunk_base,
                ctx,
                Ghost(pre),
                Ghost(cells),
            ),
            Err(e) => Err(e),
        },
        2 => match read_dynamic_header(br) {
            Ok((lit, dist)) => decode_compressed_speculative(
                br,
                out,
                &lit,
                &dist,
                chunk_base,
                ctx,
                Ghost(pre),
                Ghost(cells),
            ),
            Err(e) => Err(e),
        },
        _ => Err(DeflateError::Invalid("reserved block type")),
    }
}

/// Where decoding stops after a block that ends at bit `q`: there, or at the next
/// byte boundary after the last block.
pub open spec fn stop_at(q: int, last: bool) -> int {
    if last {
        align_up(q)
    } else {
        q
    }
}

/// Decodes blocks from bit `start_bit` on without the window before it, up to
/// the last one or to the first that ends at or after bit `end_bit_hint`.
/// Appends the bytes and the markers to `chunk`, and returns where it stopped
/// and whether that was the last block, after which it stops at the next byte
/// boundary. On an error the bytes decoded so far are appended, but no markers.
pub fn decode_until(input: &[u8], start_bit: u64, end_bit_hint: u64, chunk: &mut SpeculativeChunk) -> (r: Result<
    (u64, bool),
    DeflateError,
>)
    requires
        addressable(input@),
    ensures
        start_bit > bit_len(input@) ==> r == Err::<(u64, bool), DeflateError>(DeflateError::UnexpectedEof)
            && final(chunk).bytes@ == old(chunk).bytes@ && final(chunk).markers@ == old(chunk).markers@,
        start_bit <= bit_len(input@) ==> {
            let d = until_cells(input@, start_bit as int, end_bit_hint as int, Seq::empty());
            &&& final(chunk).bytes@ == old(chunk).bytes@ + bytes_of(d.out)
            &&& match d.end {
                Ok((q, last)) => {
                    &&& r is Ok && r->Ok_0.0 == stop_at(q, last) && r->Ok_0.1 == last
                    &&& final(chunk).markers@ == old(chunk).markers@ + markers_of(
                        d.out,
                        old(chunk).bytes@.len() as int,
                    )
                },
                Err(e) => r == Err::<(u64, bool), DeflateError>(e) && final(chunk).markers@ == old(chunk).markers@,
            }
        },
{
    let mut br = BitReader::new(input);
    match br.seek_to_bit(start_bit) {
        Ok(()) => {},
        Err(e) => {
            return Err(e);
        },
    }
    let chunk_base: usize = chunk.bytes.len();
    let mut ctx = SpeculativeContext { markers: Vec::new() };
    let ghost pre = chunk.bytes@;
    let ghost mut cells = Seq::<Cell>::empty();
    let ghost whole = until_cells(input@, start_bit as int, end_bit_hint as int, cells);
    assert(pre + bytes_of(cells) =~= pre);
    let hit_bfinal: bool;
    loop
        invariant_except_break
            br.wf(),
            br.stream() == input@,
            pre.len() == chunk_base,
            pre == old(chunk).bytes@,
            chunk.markers@ == old(chunk).markers@,
            in_progress(chunk.bytes@, ctx.markers@, pre, cells),
            start_bit <= bit_len(input@),
            whole == until_cells(
                input@,
                start_bit as int,
                end_bit_hint as int,
                Seq::empty(),
            ),
            until_cells(input@, br.pos(), end_bit_hint as int, cells) == whole,
        ensures
            br.wf(),
            br.stream() == input@,
            pre.len() == chunk_base,
            pre == old(chunk).bytes@,
            chunk.markers@ == old(chunk).markers@,
            in_progress(chunk.bytes@, ctx.markers@, pre, cells),
            start_bit <= bit_len(input@),
            whole == until_cells(
                input@,
                start_bit as int,
                end_bit_hint as int,
                Seq::empty(),
            ),
            whole.out == cells,
            whole.end == Ok::<(int, bool), DeflateError>((br.pos(), hit_bfinal)),
        decreases bit_len(input@) - br.pos(),
    {
        proof {
            reveal(until_cells);
            lemma_block_cells_advances(input@, br.pos(), cells);
        }
        let ghost b = block_cells(input@, br.pos(), cells);
        let (bfinal, btype) = match read_block_bits(&mut br) {
            Ok(v) => v,
            Err(e) => {
                return Err(e);
            },
        };
        match decode_block_speculative(&mut br, &mut chunk.bytes, btype, chunk_base, &mut ctx, Ghost(pre), Ghost(cells)) {
            Ok(()) => {},
            Err(e) => {
                return Err(e);
            },
        }
        proof {
            cells = b.out;
        }
        if bfinal {
            hit_bfinal = true;
            break;
        }
        if br.tell_bit() >= end_bit_hint {
            hit_bfinal = false;
            break;
        }
    }
    let total: usize = chunk.bytes.len();
    proof {
        lemma_markers(cells);
        lemma_shifted_markers(cells, chunk_base as int);
    }
    chunk.bytes_offset_markers(ctx.markers.as_slice(), chunk_base);
    if hit_bfinal {
        br.byte_align();
    }
    Ok((br.tell_bit(), hit_bfinal))
}

/// Decodes a whole stream without the window before it. Returns the byte boundary
/// after it, as a bit.
pub fn decode_member(input: &[u8], start_bit: u64, chunk: &mut SpeculativeChunk) -> (r: Result<u64, DeflateError>)
    requires
        addressable(input@),
    ensures
        start_bit > bit_len(input@) ==> r == Err::<u64, DeflateError>(DeflateError::UnexpectedEof) && final(
            chunk
        ).bytes@ == old(chunk).bytes@ && final(chunk).markers@ == old(chunk).markers@,
        start_bit <= bit_len(input@) ==> {
            let d = until_cells(input@, start_bit as int, u64::MAX as int, Seq::empty());
            &&& final(chunk).bytes@ == old(chunk).bytes@ + bytes_of(d.out)
            &&& match d.end {
                Ok((q, last)) => {
                    &&& last
                    &&& r is Ok && r->Ok_0 == align_up(q)
                    &&& final(chunk).markers@ == old(chunk).markers@ + markers_of(
                        d.out,
                        old(chunk).bytes@.len() as int,
                    )
                },
                Err(e) => r == Err::<u64, DeflateError>(e) && final(chunk).markers@ == old(chunk).markers@,
            }
        },
{
    proof {
        lemma_until_cells_advances(input@, start_bit as int, u64::MAX as int, Seq::empty());
    }
    match decode_until(input, start_bit, u64::MAX, chunk) {
        Ok((end_bit, _)) => Ok(end_bit),
        Err(e) => Err(e),
    }
}

} // verus!
