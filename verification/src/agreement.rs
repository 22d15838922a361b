//! Decoding in chunks gives what decoding in order gives.
use vstd::prelude::*;
use crate::Error;
use crate::checksum::lemma_crc32_empty;
use crate::deflate::DeflateError;
use crate::deflate::bits::{align_up, bit_len};
use crate::deflate::cells::{
    Cell, within, filled, until_cells, law_speculative_is_serial, lemma_until_cells_window, lemma_until_cells_advances,
};
use crate::deflate::format::{extends, block, until, lemma_block_advances, lemma_until_advances, law_decoding_appends};
use crate::gzip::{GzipError, header_len, index_after, member, members, le32, law_header_len_bounds};
use crate::stream::{gunzip, gunzip_member, gunzip_blocks, gunzip_trailer, lemma_blocks_shift};
use crate::deflate::embed::law_until_embedded;
use crate::members::{
    MemberTally, tally_add, tally_end, tally_bounds, tally_chunk, tally_of, cut_before, bounds_in_order,
    law_tally_append,
};
use crate::pipeline::{
    MemberBoundary, WorkItem, segment, segment_from, boundary_at, last_window, rebased, rebased_one,
    lemma_next_member, lemma_segment_step,
};
use crate::chain::{Link, chain, next_link, first_link, law_segment_shape};
use crate::schedule::items_of;
use crate::serial::{serial_from, after_stream, trailer_of};

verus! {

/// Stopping at a block boundary on the way does not change what comes after it.
pub proof fn law_until_resumes(input: Seq<u8>, p: int, hint: int, far: int, out: Seq<u8>)
    requires
        far > bit_len(input),
    ensures
        ({
            let all = until(input, p, far, out);
            let part = until(input, p, hint, out);
            match part.end {
                Ok((q, false)) => until(input, q, far, part.out) == all,
                _ => part == all,
            }
        }),
    decreases bit_len(input) - p,
{
    reveal(until);
    lemma_block_advances(input, p, out);
    let b = block(input, p, out);
    if let Ok((q, last)) = b.end {
        if !last && q < hint {
            law_until_resumes(input, q, hint, far, b.out);
        }
    }
}

/// Tallies look at no bytes after the last boundary.
proof fn lemma_tally_extends(t: MemberTally, a: Seq<u8>, b: Seq<u8>, bounds: Seq<MemberBoundary>, n: int)
    requires
        0 <= n <= bounds.len(),
        bounds_in_order(bounds, a.len()),
        extends(b, a),
    ensures
        tally_bounds(t, b, bounds, n) == tally_bounds(t, a, bounds, n),
    decreases n,
{
    if n > 0 {
        lemma_tally_extends(t, a, b, bounds, n - 1);
        let from = cut_before(bounds, n - 1);
        let to = bounds[n - 1].byte_offset_in_chunk as int;
        if n > 1 {
            assert(bounds[n - 2].byte_offset_in_chunk <= bounds[n - 1].byte_offset_in_chunk);
        }
        assert(a.subrange(from, to) =~= b.subrange(from, to)) by {
            assert forall|i: int| from <= i < to implies a[i] == b[i] by {
                assert(b.take(a.len() as int)[i] == b[i]);
            }
        }
    }
}

proof fn lemma_tally_push(t: MemberTally, bytes: Seq<u8>, bounds: Seq<MemberBoundary>, mb: MemberBoundary, n: int)
    requires
        0 <= n <= bounds.len(),
    ensures
        tally_bounds(t, bytes, bounds.push(mb), n) == tally_bounds(t, bytes, bounds, n),
    decreases n,
{
    if n > 0 {
        lemma_tally_push(t, bytes, bounds, mb, n - 1);
        assert(cut_before(bounds.push(mb), n - 1) == cut_before(bounds, n - 1));
    }
}

/// Filling in from the window is filling in from the current member.
proof fn lemma_fill_from_window(cells: Seq<Cell>, x: Seq<u8>, m: Seq<u8>)
    requires
        within(cells, 32768),
        within(cells, m.len()),
    ensures
        within(cells, last_window(x + m).len()),
        filled(cells, last_window(x + m)) == filled(cells, m),
{
    let t = last_window(x + m);
    assert forall|i: int| 0 <= i < cells.len() implies match #[trigger] cells[i] {
        Cell::Byte(_) => true,
        Cell::Before(k) => k < t.len() && t[t.len() - 1 - k] == m[m.len() - 1 - k],
    } by {
    }
    assert(filled(cells, t) =~= filled(cells, m));
}

/// Where decoding stands at some point of a chunk: `x` is the output before
/// the current member, `m` the member so far, and `w` the window before the chunk.
#[verifier::opaque]
spec fn stands(
    offset: int,
    h0: Seq<u8>,
    t0: MemberTally,
    cells: Seq<Cell>,
    bounds: Seq<MemberBoundary>,
    w: Seq<u8>,
    x: Seq<u8>,
    m: Seq<u8>,
    index: u32,
) -> bool {
    let bytes = filled(cells, w);
    &&& within(cells, w.len())
    &&& within(cells, 32768)
    &&& cells.len() <= usize::MAX
    &&& h0 + bytes == x + m
    &&& bounds_in_order(rebased(bounds, offset), cells.len())
    &&& tally_chunk(t0, bytes, rebased(bounds, offset)) == Ok::<MemberTally, GzipError>(tally_of(m, index))
}

proof fn lemma_stands_size(
    offset: int,
    h0: Seq<u8>,
    t0: MemberTally,
    cells: Seq<Cell>,
    bounds: Seq<MemberBoundary>,
    x: Seq<u8>,
    m: Seq<u8>,
    index: u32,
)
    requires
        stands(offset, h0, t0, cells, bounds, last_window(h0), x, m, index),
    ensures
        h0.len() + cells.len() == x.len() + m.len(),
{
    reveal(stands);
    assert((h0 + filled(cells, last_window(h0))).len() == (x + m).len());
}

/// One stretch of blocks inside a member, without its end.
proof fn lemma_stretch(
    body: Seq<u8>,
    offset: int,
    p: int,
    hint: int,
    h0: Seq<u8>,
    t0: MemberTally,
    cells: Seq<Cell>,
    bounds: Seq<MemberBoundary>,
    x: Seq<u8>,
    m: Seq<u8>,
    index: u32,
)
    requires
        stands(offset, h0, t0, cells, bounds, last_window(h0), x, m, index),
        m.len() == 0 || cells.len() == 0,
        until(body, p, bit_len(body) + 1, m).end is Ok,
        cells.len() + until_cells(body, p, hint, Seq::empty()).out.len() <= usize::MAX,
    ensures
        ({
            let d = until_cells(body, p, hint, Seq::empty());
            let u = until(body, p, hint, m);
            &&& d.end == u.end
            &&& d.end is Ok
            &&& u.out == m + filled(d.out, last_window(h0))
            &&& stands(offset, h0, t0, cells + d.out, bounds, last_window(h0), x, u.out, index)
        }),
{
    reveal(stands);
    let w = last_window(h0);
    let d = until_cells(body, p, hint, Seq::empty());
    let u = until(body, p, hint, m);
    law_until_resumes(body, p, hint, bit_len(body) + 1, m);
    law_speculative_is_serial(body, p, hint, m);
    lemma_until_cells_window(body, p, hint, Seq::empty());
    assert(within(d.out, m.len()));
    if cells.len() == 0 {
        assert(h0 + filled(cells, w) =~= h0);
        lemma_fill_from_window(d.out, x, m);
    } else {
        assert(filled(d.out, w) =~= filled(d.out, m));
    }
    let all = cells + d.out;
    let b0 = filled(cells, w);
    let b1 = filled(all, w);
    let more = filled(d.out, w);
    assert(within(all, w.len()) && within(all, 32768));
    assert(b1 =~= b0 + more);
    assert(h0 + b1 =~= x + (m + more));
    assert(b1.take(b0.len() as int) =~= b0);
    let rb = rebased(bounds, offset);
    lemma_tally_extends(t0, b0, b1, rb, rb.len() as int);
    let cut = cut_before(rb, rb.len() as int);
    let t1 = tally_bounds(t0, b0, rb, rb.len() as int)->Ok_0;
    assert(b1.skip(cut) =~= b0.skip(cut) + more);
    lemma_tally_add_twice(t1, b0.skip(cut), more);
    law_tally_append(m, more, index);
}

proof fn lemma_tally_add_twice(t: MemberTally, a: Seq<u8>, b: Seq<u8>)
    ensures
        tally_add(tally_add(t, a), b) == tally_add(t, a + b),
{
    crate::checksum::law_crc32_from_append(t.crc, a, b);
}

/// The end of a member at the end of what was decoded.
proof fn lemma_member_end(
    body: Seq<u8>,
    offset: int,
    t: int,
    h0: Seq<u8>,
    t0: MemberTally,
    cells: Seq<Cell>,
    bounds: Seq<MemberBoundary>,
    x: Seq<u8>,
    m: Seq<u8>,
    index: u32,
)
    requires
        stands(offset, h0, t0, cells, bounds, last_window(h0), x, m, index),
        tally_end(tally_of(m, index), trailer_of(body, offset, t)) is Ok,
    ensures
        stands(
            offset,
            h0,
            t0,
            cells,
            bounds.push(boundary_at(body, t, cells.len())),
            last_window(h0),
            x + m,
            Seq::empty(),
            tally_end(tally_of(m, index), trailer_of(body, offset, t))->Ok_0.index,
        ),
{
    reveal(stands);
    let w = last_window(h0);
    let b = filled(cells, w);
    let mb = boundary_at(body, t, cells.len());
    let rb = rebased(bounds, offset);
    let n = bounds.len() as int;
    let bounds1 = rebased(bounds.push(mb), offset);
    assert(bounds1 =~= rb.push(rebased_one(mb, offset)));
    lemma_tally_push(t0, b, rb, rebased_one(mb, offset), n);
    assert(cut_before(bounds1, n) == cut_before(rb, n));
    let cut = cut_before(rb, n);
    assert(b.subrange(cut, b.len() as int) =~= b.skip(cut));
    let next = tally_end(tally_of(m, index), trailer_of(body, offset, t))->Ok_0;
    assert(tally_bounds(t0, b, bounds1, n + 1) == Ok::<MemberTally, GzipError>(next));
    assert(b.skip(b.len() as int) =~= Seq::<u8>::empty());
    lemma_crc32_empty();
    law_tally_append(Seq::empty(), Seq::empty(), next.index);
    assert(Seq::<u8>::empty() + Seq::<u8>::empty() =~= Seq::<u8>::empty());
    assert(next == tally_of(Seq::empty(), next.index));
    assert(x + m =~= (x + m) + Seq::<u8>::empty());
    assert(bounds_in_order(bounds1, cells.len()));
}

/// A chunk of a body that decodes in order: it decodes, and what comes after
/// it in order is what decoding in order goes on with at its end.
proof fn lemma_segment_serial(
    body: Seq<u8>,
    offset: int,
    p: int,
    hint: int,
    h0: Seq<u8>,
    t0: MemberTally,
    cells: Seq<Cell>,
    bounds: Seq<MemberBoundary>,
    x: Seq<u8>,
    m: Seq<u8>,
    index: u32,
) -> (r: (Seq<u8>, Seq<u8>, u32))
    requires
        0 <= p <= bit_len(body),
        stands(offset, h0, t0, cells, bounds, last_window(h0), x, m, index),
        m.len() == 0 || cells.len() == 0,
        serial_from(body, offset, p, m, index).end is Ok,
        x.len() + m.len() + serial_from(body, offset, p, m, index).out.len() <= usize::MAX,
    ensures
        segment_from(body, p, hint, cells, bounds) is Ok,
        ({
            let s = segment_from(body, p, hint, cells, bounds)->Ok_0;
            let rest = serial_from(body, offset, p, m, index);
            let after = serial_from(body, offset, s.end, r.1, r.2);
            &&& stands(offset, h0, t0, s.cells, s.bounds, last_window(h0), r.0, r.1, r.2)
            &&& s.last ==> r.0 + r.1 == x + m + rest.out && rest.end == Ok::<int, Error>(s.end / 8)
            &&& !s.last ==> r.0 + r.1 + after.out == x + m + rest.out && after.end == rest.end
        }),
    decreases bit_len(body) - p,
{
    lemma_segment_step(body, p, hint, cells, bounds);
    let rest = serial_from(body, offset, p, m, index);
    if p >= hint {
        (x, m, index)
    } else {
        let d = until_cells(body, p, hint, Seq::empty());
        let u = until(body, p, hint, m);
        lemma_serial_step(body, offset, p, m, index);
        lemma_stretch_size(body, p, hint, m);
        lemma_stands_size(offset, h0, t0, cells, bounds, x, m, index);
        lemma_stretch(body, offset, p, hint, h0, t0, cells, bounds, x, m, index);
        lemma_next_member(body, p, hint);
        lemma_until_cells_advances(body, p, hint, Seq::empty());
        let (q, last) = d.end->Ok_0;
        if !last {
            lemma_serial_resumes(body, offset, p, q, m, u.out, index);
            let after = serial_from(body, offset, q, u.out, index);
            assert(x + m + rest.out =~= x + (m + rest.out));
            assert(x + u.out + after.out =~= x + (u.out + after.out));
            (x, u.out, index)
        } else {
            let t = align_up(q) / 8;
            let next = tally_end(tally_of(u.out, index), trailer_of(body, offset, t))->Ok_0;
            lemma_member_end(body, offset, t, h0, t0, cells + d.out, bounds, x, u.out, index);
            let bounds1 = bounds.push(boundary_at(body, t, (cells + d.out).len()));
            if t + 8 == body.len() {
                assert(x + m + rest.out =~= x + (m + rest.out));
                assert(x + u.out + Seq::<u8>::empty() =~= x + u.out);
                (x + u.out, Seq::empty(), next.index)
            } else {
                let h = header_len(body.skip(t + 8))->Ok_0;
                let p1 = 8 * (t + 8 + h);
                let r1 = serial_from(body, offset, p1, Seq::empty(), next.index);
                assert(x + m + rest.out =~= x + (m + rest.out));
                assert((x + u.out) + Seq::<u8>::empty() + r1.out =~= x + (u.out + r1.out));
                assert((x + m + rest.out).len() == x.len() + u.out.len() + r1.out.len());
                lemma_segment_serial(
                    body,
                    offset,
                    p1,
                    hint,
                    h0,
                    t0,
                    cells + d.out,
                    bounds1,
                    x + u.out,
                    Seq::empty(),
                    next.index,
                )
            }
        }
    }
}

/// One member of a body that decodes in order.
proof fn lemma_serial_step(body: Seq<u8>, offset: int, p: int, m: Seq<u8>, index: u32)
    requires
        0 <= p,
        serial_from(body, offset, p, m, index).end is Ok,
    ensures
        ({
            let rest = serial_from(body, offset, p, m, index);
            let all = until(body, p, bit_len(body) + 1, m);
            let q = all.end->Ok_0.0;
            let t = align_up(q) / 8;
            let next = tally_end(tally_of(all.out, index), trailer_of(body, offset, t));
            &&& all.end == Ok::<(int, bool), DeflateError>((q, true))
            &&& t + 8 <= body.len()
            &&& next is Ok
            &&& rest.out.len() >= all.out.len() - m.len()
            &&& t + 8 == body.len() ==> m + rest.out == all.out && rest.end == Ok::<int, Error>(t + 8)
            &&& t + 8 < body.len() ==> {
                let h = header_len(body.skip(t + 8));
                let r1 = serial_from(body, offset, 8 * (t + 8 + h->Ok_0), Seq::empty(), next->Ok_0.index);
                &&& h is Ok
                &&& m + rest.out == all.out + r1.out
                &&& rest.end == r1.end
            }
        }),
{
    reveal(serial_from);
    reveal(after_stream);
    let all = until(body, p, bit_len(body) + 1, m);
    let rest = serial_from(body, offset, p, m, index);
    lemma_until_advances(body, p, bit_len(body) + 1, m);
    law_decoding_appends(body, p, bit_len(body) + 1, m);
    let q = all.end->Ok_0.0;
    let r = after_stream(body, offset, q, all.out, index);
    assert(m + rest.out =~= all.out + r.out);
    assert(all.out + Seq::<u8>::empty() =~= all.out);
}

/// A stretch of a member that decodes is no longer than the member.
proof fn lemma_stretch_size(body: Seq<u8>, p: int, hint: int, m: Seq<u8>)
    requires
        until(body, p, bit_len(body) + 1, m).end is Ok,
    ensures
        ({
            let d = until_cells(body, p, hint, Seq::empty());
            let u = until(body, p, hint, m);
            let all = until(body, p, bit_len(body) + 1, m);
            &&& u.out.len() == m.len() + d.out.len()
            &&& u.out.len() <= all.out.len()
            &&& extends(u.out, m)
            &&& u.end is Ok
            &&& u.end->Ok_0.1 ==> u == all
            &&& !u.end->Ok_0.1 ==> until(
                body,
                u.end->Ok_0.0,
                bit_len(body) + 1,
                u.out,
            ) == all
        }),
{
    let far = bit_len(body) + 1;
    let u = until(body, p, hint, m);
    law_until_resumes(body, p, hint, far, m);
    law_speculative_is_serial(body, p, hint, m);
    law_decoding_appends(body, p, hint, m);
    if let Ok((q, false)) = u.end {
        law_decoding_appends(body, q, far, u.out);
    }
}

/// Decoding in order may stop at any block boundary and go on from there.
proof fn lemma_serial_resumes(body: Seq<u8>, offset: int, p: int, q: int, m: Seq<u8>, m1: Seq<u8>, index: u32)
    requires
        0 <= p < q,
        until(body, q, bit_len(body) + 1, m1) == until(
            body,
            p,
            bit_len(body) + 1,
            m,
        ),
        extends(m1, m),
    ensures
        serial_from(body, offset, p, m, index).end == serial_from(body, offset, q, m1, index).end,
        m + serial_from(body, offset, p, m, index).out == m1 + serial_from(body, offset, q, m1, index).out,
{
    reveal(serial_from);
    reveal(after_stream);
    let d = until(body, p, bit_len(body) + 1, m);
    law_decoding_appends(body, p, bit_len(body) + 1, m);
    law_decoding_appends(body, q, bit_len(body) + 1, m1);
    let a = serial_from(body, offset, p, m, index);
    let b = serial_from(body, offset, q, m1, index);
    assert(m + d.out.skip(m.len() as int) =~= d.out);
    assert(m1 + d.out.skip(m1.len() as int) =~= d.out);
    if let Ok((e, _)) = d.end {
        let r = after_stream(body, offset, e, d.out, index);
        assert(m + a.out =~= d.out + r.out);
        assert(m1 + b.out =~= d.out + r.out);
    } else {
        assert(m + a.out =~= d.out);
        assert(m1 + b.out =~= d.out);
    }
}

/// Pieces put together.
pub open spec fn joined(chunks: Seq<Seq<u8>>) -> Seq<u8>
    decreases chunks.len(),
{
    if chunks.len() == 0 {
        Seq::empty()
    } else {
        joined(chunks.drop_last()) + chunks.last()
    }
}

/// The pieces of two lists put together.
pub proof fn lemma_joined_append(a: Seq<Seq<u8>>, b: Seq<Seq<u8>>)
    ensures
        joined(a + b) == joined(a) + joined(b),
    decreases b.len(),
{
    if b.len() == 0 {
        assert(a + b =~= a);
        assert(joined(a) + Seq::<u8>::empty() =~= joined(a));
    } else {
        assert((a + b).drop_last() =~= a + b.drop_last());
        lemma_joined_append(a, b.drop_last());
        assert(joined(a) + joined(b.drop_last()) + b.last() =~= joined(a) + joined(b));
    }
}

/// Where decoding in chunks stands between two of them, in a body that decodes in
/// order: `done` has been decoded, of which `m` belongs to the current member and
/// `x` to those before it.
pub open spec fn anchored(
    body: Seq<u8>,
    offset: int,
    start: int,
    tail: Seq<u8>,
    tally: MemberTally,
    done: Seq<u8>,
    x: Seq<u8>,
    m: Seq<u8>,
    index: u32,
) -> bool {
    &&& 0 <= start <= bit_len(body)
    &&& tail == last_window(x + m)
    &&& tally == tally_of(m, index)
    &&& done == x + m
    &&& serial_from(body, offset, start, m, index).end is Ok
    &&& x.len() + m.len() + serial_from(body, offset, start, m, index).out.len() <= usize::MAX
}

/// The next chunk of a body that decodes in order, wherever it is meant to end.
pub proof fn lemma_anchored_step(
    body: Seq<u8>,
    offset: int,
    hint: int,
    start: int,
    tail: Seq<u8>,
    tally: MemberTally,
    done: Seq<u8>,
    x: Seq<u8>,
    m: Seq<u8>,
    index: u32,
) -> (r: (Seq<u8>, Seq<u8>, u32))
    requires
        anchored(body, offset, start, tail, tally, done, x, m, index),
    ensures
        segment(body, start, hint) is Ok,
        ({
            let s = segment(body, start, hint)->Ok_0;
            let bytes = filled(s.cells, tail);
            let next = tally_chunk(tally, bytes, rebased(s.bounds, offset));
            let rest = serial_from(body, offset, start, m, index);
            let after = serial_from(body, offset, s.end, r.1, r.2);
            &&& within(s.cells, tail.len())
            &&& next is Ok
            &&& s.last ==> done + bytes == x + m + rest.out && rest.end == Ok::<int, Error>(s.end / 8)
            &&& !s.last ==> {
                &&& anchored(
                    body,
                    offset,
                    s.end,
                    last_window(tail + bytes),
                    next->Ok_0,
                    done + bytes,
                    r.0,
                    r.1,
                    r.2,
                )
                &&& r.0 + r.1 + after.out == x + m + rest.out
                &&& after.end == rest.end
            }
        }),
{
    reveal(stands);
    let h0 = x + m;
    let t0 = tally_of(m, index);
    assert(stands(offset, h0, t0, Seq::empty(), Seq::empty(), last_window(h0), x, m, index)) by {
        let b = filled(Seq::empty(), last_window(h0));
        assert(b =~= Seq::<u8>::empty());
        assert(h0 + b =~= x + m);
        assert(b.skip(0) =~= Seq::<u8>::empty());
        law_tally_append(m, Seq::empty(), index);
        assert(m + Seq::<u8>::empty() =~= m);
    }
    reveal(segment);
    let r = lemma_segment_serial(body, offset, start, hint, h0, t0, Seq::empty(), Seq::empty(), x, m, index);
    law_segment_shape(body, start, hint);
    let s = segment(body, start, hint)->Ok_0;
    let bytes = filled(s.cells, tail);
    lemma_last_window_append(h0, bytes);
    if !s.last {
        let after = serial_from(body, offset, s.end, r.1, r.2);
        assert((r.0 + r.1 + after.out).len() == (x + m + serial_from(body, offset, start, m, index).out).len());
    }
    r
}

proof fn lemma_chain_serial(
    body: Seq<u8>,
    offset: int,
    items: Seq<WorkItem>,
    i: int,
    l: Link,
    x: Seq<u8>,
    m: Seq<u8>,
    index: u32,
)
    requires
        0 <= i < items.len(),
        items.last().end_bit_hint == u64::MAX,
        bit_len(body) <= u64::MAX,
        l.tally is Ok,
        anchored(body, offset, l.start, l.tail, l.tally->Ok_0, joined(l.chunks), x, m, index),
    ensures
        chain(body, offset, items, i, l) is Ok,
        joined(chain(body, offset, items, i, l)->Ok_0.chunks) == x + m + serial_from(
            body,
            offset,
            l.start,
            m,
            index,
        ).out,
        serial_from(body, offset, l.start, m, index).end == Ok::<int, Error>(
            chain(body, offset, items, i, l)->Ok_0.consumed,
        ),
    decreases items.len() - i,
{
    reveal(chain);
    let hint = items[i].end_bit_hint as int;
    let r = lemma_anchored_step(
        body,
        offset,
        hint,
        l.start,
        l.tail,
        l.tally->Ok_0,
        joined(l.chunks),
        x,
        m,
        index,
    );
    law_segment_shape(body, l.start, hint);
    let s = segment(body, l.start, hint)->Ok_0;
    let n = next_link(body, offset, items[i], l, s);
    assert(n.chunks.drop_last() =~= l.chunks);
    if !s.last {
        assert(i + 1 < items.len()) by {
            if i + 1 == items.len() {
                assert(items[i] == items.last());
            }
        }
        lemma_chain_serial(body, offset, items, i + 1, n, r.0, r.1, r.2);
    }
}

/// The window after more output is the window of the old window with it.
proof fn lemma_last_window_append(h: Seq<u8>, b: Seq<u8>)
    ensures
        last_window(last_window(h) + b) == last_window(h + b),
{
    assert(last_window(last_window(h) + b) =~= last_window(h + b));
}

/// A body that decodes in order decodes to the same bytes in chunks, wherever
/// these are cut: at true block boundaries or at false ones.
pub proof fn law_chunked_is_serial(body: Seq<u8>, offset: int, boundaries: Seq<u64>)
    requires
        boundaries.len() > 0,
        bit_len(body) <= u64::MAX,
        serial_from(body, offset, 0, Seq::empty(), 0).end is Ok,
        serial_from(body, offset, 0, Seq::empty(), 0).out.len() <= usize::MAX,
    ensures
        chain(body, offset, items_of(boundaries), 0, first_link()) is Ok,
        joined(chain(body, offset, items_of(boundaries), 0, first_link())->Ok_0.chunks) == serial_from(
            body,
            offset,
            0,
            Seq::empty(),
            0,
        ).out,
        serial_from(body, offset, 0, Seq::empty(), 0).end == Ok::<int, Error>(
            chain(body, offset, items_of(boundaries), 0, first_link())->Ok_0.consumed,
        ),
{
    let e = Seq::<u8>::empty();
    assert(e + e =~= e);
    assert(last_window(e + e) =~= e);
    lemma_crc32_empty();
    lemma_chain_serial(body, offset, items_of(boundaries), 0, first_link(), e, e, 0);
    let out = serial_from(body, offset, 0, e, 0).out;
    assert(e + e + out =~= out);
}

/// Decoding in order from memory and as it comes in gives the same of a body.
pub proof fn law_serial_is_gunzip(body: Seq<u8>, offset: int, p: int, m: Seq<u8>, index: u32)
    requires
        0 <= p,
    ensures
        serial_from(body, offset, p, m, index).end is Ok == gunzip_blocks(body, offset, p, m, index).end is Ok,
        gunzip_blocks(body, offset, p, m, index).end is Ok ==> serial_from(body, offset, p, m, index).out == gunzip_blocks(
            body,
            offset,
            p,
            m,
            index,
        ).out && serial_from(body, offset, p, m, index).end == Ok::<int, Error>(body.len() as int),
    decreases bit_len(body) - p,
{
    let far = bit_len(body) + 1;
    let d = until(body, p, far, m);
    let e = until(body, p, far, m);
    lemma_until_advances(body, p, far, m);
    lemma_until_advances(body, p, far, m);
    reveal(serial_from);
    reveal(after_stream);
    reveal(gunzip_blocks);
    reveal(gunzip_trailer);
    reveal(gunzip_member);
    if let Ok((q, _)) = e.end {
        let t = align_up(q) / 8;
        if t + 8 <= body.len() {
            assert(d == e);
            let mine = tally_end(tally_of(e.out, index), trailer_of(body, offset, t));
            if mine is Ok && t + 8 < body.len() {
                law_header_len_bounds(body.skip(t + 8));
                if let Ok(h) = header_len(body.skip(t + 8)) {
                    law_serial_is_gunzip(body, offset, 8 * (t + 8 + h), Seq::empty(), mine->Ok_0.index);
                }
            }
        }
    }
}

/// A stream that decodes on its own decodes alike after any other output.
proof fn lemma_history_irrelevant(input: Seq<u8>, p: int, hint: int, out: Seq<u8>)
    requires
        until(input, p, hint, Seq::empty()).end is Ok,
    ensures
        until(input, p, hint, out).out == out + until(input, p, hint, Seq::empty()).out,
        until(input, p, hint, out).end == until(input, p, hint, Seq::empty()).end,
{
    let c = until_cells(input, p, hint, Seq::empty());
    law_speculative_is_serial(input, p, hint, Seq::empty());
    law_speculative_is_serial(input, p, hint, out);
    assert(within(c.out, 0));
    assert(within(c.out, out.len()));
    assert(filled(c.out, out) =~= filled(c.out, Seq::empty()));
    assert(Seq::<u8>::empty() + filled(c.out, Seq::empty()) =~= filled(c.out, Seq::empty()));
}

/// The first member from byte `a` on of a file that decodes, decoded on its
/// own after the bytes `out`. Returns how many bytes it takes up, and the
/// number of the next member.
pub proof fn lemma_first_member(s: Seq<u8>, a: int, out: Seq<u8>, index: u32, n: u32, any: bool) -> (r: (int, u32))
    requires
        0 <= a < s.len(),
        gunzip_member(s, 0, a, n, any).end is Ok,
    ensures
        19 <= r.0 <= s.len() - a,
        ({
            let m = member(s.skip(a), out, index);
            let e = member(s.skip(a), Seq::empty(), 0);
            let g = gunzip_member(s, 0, a + r.0, r.1, true);
            &&& m.end == Ok::<int, GzipError>(r.0)
            &&& e.end == Ok::<int, GzipError>(r.0)
            &&& m.out == out + e.out
            &&& gunzip_member(s, 0, a, n, any).end == g.end
            &&& gunzip_member(s, 0, a, n, any).out == e.out + g.out
        }),
{
    reveal(gunzip_blocks);
    reveal(gunzip_trailer);
    reveal(gunzip_member);
    let none = Seq::<u8>::empty();
    let f = s.skip(a);
    law_header_len_bounds(f);
    let h = header_len(f)->Ok_0;
    let part = s.skip(a + h);
    let k = a + h;
    assert(f.skip(h) =~= part);
    assert(part =~= s.subrange(k, k + part.len()));
    let far = bit_len(part) + 1;
    law_until_embedded(part, s, k, 0, far, none);
    lemma_until_advances(part, 0, far, none);
    let d = until(part, 0, far, none);
    let e = until(s, 8 * k, bit_len(s) + 1, none);
    assert(e.out == d.out && e.end is Ok && d.end is Ok);
    let (q, _) = d.end->Ok_0;
    lemma_history_irrelevant(part, 0, far, out);
    let t = h + align_up(q) / 8;
    assert(align_up(q + 8 * k) / 8 == align_up(q) / 8 + k);
    assert(e.out.skip(0) =~= e.out);
    assert((out + d.out).skip(out.len() as int) =~= d.out);
    assert(le32(f, t) == le32(s, a + t));
    assert(le32(f, t + 4) == le32(s, a + t + 4));
    let next = tally_end(tally_of(d.out, n), trailer_of(s, 0, a + t))->Ok_0;
    lemma_le32_bound(s, a + t);
    lemma_le32_bound(s, a + t + 4);
    (t + 8, next.index)
}

/// A file that decodes decodes to the same bytes member by member, with all
/// earlier output as history.
pub proof fn law_members_is_gunzip(s: Seq<u8>, a: int, out: Seq<u8>, index: u32, n: u32, any: bool)
    requires
        0 <= a <= s.len(),
        gunzip_member(s, 0, a, n, any).end is Ok,
    ensures
        members(s, a, out, index).end is Ok,
        members(s, a, out, index).out == out + gunzip_member(s, 0, a, n, any).out,
    decreases s.len() - a,
{
    let g = gunzip_member(s, 0, a, n, any);
    if a == s.len() {
        reveal(gunzip_member);
        assert(out + g.out =~= out);
    } else {
        let (size, next) = lemma_first_member(s, a, out, index, n, any);
        let m = member(s.skip(a), Seq::empty(), 0).out;
        law_members_is_gunzip(s, a + size, out + m, index_after(index), next, true);
        assert(out + m + gunzip_member(s, 0, a + size, next, true).out =~= out + g.out);
    }
}

proof fn lemma_le32_bound(s: Seq<u8>, i: int)
    ensures
        0 <= le32(s, i) <= u32::MAX,
{
}

/// Every way to decode a gzip file that decodes gives the same bytes: in
/// order as it comes in, member by member, and in order from memory. Chunks
/// agree by [`law_chunked_is_serial`].
pub proof fn law_all_agree(file: Seq<u8>, out: Seq<u8>)
    requires
        gunzip(file).end is Ok,
    ensures
        members(file, 0, out, 0).end is Ok,
        members(file, 0, out, 0).out == out + gunzip(file).out,
        header_len(file) is Ok,
        ({
            let h = header_len(file)->Ok_0;
            let r = serial_from(file.skip(h), h, 0, Seq::empty(), 0);
            &&& r.end == Ok::<int, Error>(file.len() - h)
            &&& r.out == gunzip(file).out
        }),
{
    law_members_is_gunzip(file, 0, out, 0, 0, false);
    lemma_body_in_order(file, 0);
}

/// The body of a file that decodes, after its first header, decodes in order,
/// wherever the file stands.
pub proof fn lemma_body_in_order(file: Seq<u8>, base: int)
    requires
        gunzip_member(file, base, 0, 0, false).end is Ok,
    ensures
        header_len(file) is Ok,
        ({
            let h = header_len(file)->Ok_0;
            let r = serial_from(file.skip(h), base + h, 0, Seq::empty(), 0);
            &&& r.end == Ok::<int, Error>(file.len() - h)
            &&& r.out == gunzip_member(file, base, 0, 0, false).out
        }),
{
    reveal(gunzip_blocks);
    reveal(gunzip_trailer);
    reveal(gunzip_member);
    assert(file.skip(0) =~= file);
    law_header_len_bounds(file);
    let h = header_len(file)->Ok_0;
    lemma_blocks_shift(file, base, h, 0, Seq::empty(), 0);
    law_serial_is_gunzip(file.skip(h), base + h, 0, Seq::empty(), 0);
}

} // verus!
