//! Nothing is decoded that was not held against its trailer, however it is decoded.
use vstd::prelude::*;
use crate::agreement::joined;
use crate::bgzf::{
    Span, batch_end, batch_from, batches_from, bgzf_spans, spanned, target_of, lemma_batch_end, lemma_bgzf_size,
};
use crate::chain::{Link, chain, first_link, next_link, lemma_segment_shape};
use crate::checksum::lemma_crc32_empty;
use crate::deflate::bits::{align_up, bit_len};
use crate::deflate::cells::{Cell, filled, until_cells, lemma_until_cells_advances};
use crate::deflate::embed::embedded;
use crate::deflate::format::{
    extends, until, law_decoding_appends, lemma_extends_append, lemma_extends_trans, lemma_until_advances,
};
use crate::file::{batches_result, body_result, file_result, planned};
use crate::gzip::{
    GzipError, bgzf_block_size, header_len, index_after, le32, member, members, law_header_len_bounds,
    law_member_appends, law_member_bounds,
};
use crate::members::{
    MemberTally, bounds_in_order, cut_before, tally_bounds, tally_chunk, tally_end, tally_of, law_tally_append,
};
use crate::pipeline::{
    MemberBoundary, WorkItem, boundary_at, rebased, segment, segment_from, lemma_next_member, lemma_segment_step,
};
use crate::pieces::{
    PieceLink, PieceStep, first_piece_link, holds_file, next_piece, stands_for, streamed, lemma_piece_meets,
    lemma_piece_part,
};
use crate::schedule::items_of;
use crate::serial::{after_stream, serial_from, trailer_of, lemma_next_stream};
use crate::stream::gunzip;
use crate::streaming::{Piece, are_pieces, is_piece};
use crate::written::{
    Member, file_bytes, file_data, file_wf, trailer_bytes, law_gunzipped_stands, law_tally_accepts,
    law_trailer_accepted, lemma_file_wf, lemma_front, lemma_trailer_read,
};

verus! {

/// The trailer of a member that holds `data` stands at byte `t` of `s`.
pub open spec fn trailed(s: Seq<u8>, t: int, data: Seq<u8>) -> bool {
    &&& 0 <= t
    &&& t + 8 <= s.len()
    &&& s.subrange(t, t + 8) == trailer_bytes(data)
}

/// What a member holds, and where its trailer stands.
pub ghost struct Part {
    pub at: int,
    pub data: Seq<u8>,
}

/// The trailer of each part stands in `s`.
pub open spec fn all_trailed(s: Seq<u8>, parts: Seq<Part>) -> bool {
    forall|i: int| 0 <= i < parts.len() ==> trailed(s, (#[trigger] parts[i]).at, parts[i].data)
}

/// The parts, one after the other.
pub open spec fn parts_data(parts: Seq<Part>) -> Seq<u8>
    decreases parts.len(),
{
    if parts.len() == 0 {
        Seq::empty()
    } else {
        parts_data(parts.drop_last()) + parts.last().data
    }
}

/// `out` was held against trailers that stand in `s`: it is made of parts, the
/// trailer of each of which stands there.
pub open spec fn checked(s: Seq<u8>, out: Seq<u8>) -> bool {
    exists|parts: Seq<Part>| #[trigger] all_trailed(s, parts) && parts.len() > 0 && parts_data(parts) == out
}

/// A boundary that tells a trailer of `s`.
pub open spec fn tells_trailer(s: Seq<u8>, mb: MemberBoundary) -> bool {
    exists|t: int|
        0 <= t && t + 8 <= s.len() && mb.crc_expected == #[trigger] le32(s, t) && mb.isize_expected == le32(s, t + 4)
}

pub open spec fn all_tell_trailers(s: Seq<u8>, bounds: Seq<MemberBoundary>) -> bool {
    forall|i: int| 0 <= i < bounds.len() ==> tells_trailer(s, #[trigger] bounds[i])
}

proof fn lemma_add_part(s: Seq<u8>, parts: Seq<Part>, data: Seq<u8>, index: u32, mb: MemberBoundary) -> (r: Seq<Part>)
    requires
        all_trailed(s, parts),
        tells_trailer(s, mb),
        tally_end(tally_of(data, index), mb) is Ok,
    ensures
        all_trailed(s, r),
        r.len() == parts.len() + 1,
        parts_data(r) == parts_data(parts) + data,
{
    let t = choose|t: int|
        0 <= t && t + 8 <= s.len() && mb.crc_expected == #[trigger] le32(s, t) && mb.isize_expected == le32(s, t + 4);
    law_tally_accepts(data, index, mb);
    lemma_trailer_read(s, t, data);
    let r = parts.push(Part { at: t, data });
    assert(r.drop_last() =~= parts);
    assert forall|i: int| 0 <= i < r.len() implies trailed(s, (#[trigger] r[i]).at, r[i].data) by {
        if i < parts.len() {
            assert(r[i] == parts[i]);
        }
    }
    r
}

/// What is left of the current member after the first `n` boundaries of a chunk.
spec fn left_over(m: Seq<u8>, n: int) -> Seq<u8> {
    if n <= 0 {
        m
    } else {
        Seq::empty()
    }
}

proof fn lemma_cut_bounds(bounds: Seq<MemberBoundary>, len: nat, n: int)
    requires
        bounds_in_order(bounds, len),
        0 <= n < bounds.len(),
    ensures
        0 <= cut_before(bounds, n) <= bounds[n].byte_offset_in_chunk <= len,
{
    if n > 0 {
        assert(bounds[n - 1].byte_offset_in_chunk <= bounds[n].byte_offset_in_chunk);
    }
}

/// The members that end in a chunk are held against their trailers.
proof fn lemma_bounds_checked(
    s: Seq<u8>,
    parts: Seq<Part>,
    m: Seq<u8>,
    index: u32,
    bytes: Seq<u8>,
    bounds: Seq<MemberBoundary>,
    n: int,
) -> (r: (Seq<Part>, u32))
    requires
        all_trailed(s, parts),
        bounds_in_order(bounds, bytes.len()),
        0 <= n <= bounds.len(),
        all_tell_trailers(s, bounds),
        tally_bounds(tally_of(m, index), bytes, bounds, n) is Ok,
    ensures
        all_trailed(s, r.0),
        r.0.len() == parts.len() + n,
        tally_bounds(tally_of(m, index), bytes, bounds, n) == Ok::<MemberTally, GzipError>(
            tally_of(left_over(m, n), r.1),
        ),
        parts_data(r.0) + left_over(m, n) == parts_data(parts) + m + bytes.take(cut_before(bounds, n)),
    decreases n,
{
    if n == 0 {
        assert(bytes.take(0) =~= Seq::<u8>::empty());
        assert(parts_data(parts) + m + bytes.take(0) =~= parts_data(parts) + m);
        (parts, index)
    } else {
        let k = n - 1;
        let (p1, i1) = lemma_bounds_checked(s, parts, m, index, bytes, bounds, k);
        lemma_cut_bounds(bounds, bytes.len(), k);
        let a = cut_before(bounds, k);
        let b = bounds[k].byte_offset_in_chunk as int;
        let piece = bytes.subrange(a, b);
        let data = left_over(m, k) + piece;
        law_tally_append(left_over(m, k), piece, i1);
        law_tally_accepts(data, i1, bounds[k]);
        let p2 = lemma_add_part(s, p1, data, i1, bounds[k]);
        assert(bytes.take(a) + piece =~= bytes.take(b));
        assert(parts_data(p1) + data =~= parts_data(p1) + left_over(m, k) + piece);
        assert(parts_data(parts) + m + bytes.take(a) + piece =~= parts_data(parts) + m + bytes.take(b));
        assert(parts_data(p2) + Seq::<u8>::empty() =~= parts_data(p2));
        (p2, ((i1 + 1) % 0x1_0000_0000) as u32)
    }
}

/// Every member that ends in a chunk is held against its trailer: after a chunk that
/// is accepted, all that has come by is made of members whose trailers stand in the
/// file and of what is there of the current one.
pub proof fn law_chunk_checked(
    s: Seq<u8>,
    parts: Seq<Part>,
    m: Seq<u8>,
    index: u32,
    bytes: Seq<u8>,
    bounds: Seq<MemberBoundary>,
) -> (r: (Seq<Part>, Seq<u8>, u32))
    requires
        all_trailed(s, parts),
        bounds_in_order(bounds, bytes.len()),
        all_tell_trailers(s, bounds),
        tally_chunk(tally_of(m, index), bytes, bounds) is Ok,
    ensures
        all_trailed(s, r.0),
        r.0.len() == parts.len() + bounds.len(),
        tally_chunk(tally_of(m, index), bytes, bounds) == Ok::<MemberTally, GzipError>(tally_of(r.1, r.2)),
        parts_data(r.0) + r.1 == parts_data(parts) + m + bytes,
        bounds.len() > 0 && bounds.last().byte_offset_in_chunk == bytes.len() ==> r.1.len() == 0,
{
    let n = bounds.len() as int;
    let (p, i) = lemma_bounds_checked(s, parts, m, index, bytes, bounds, n);
    if n > 0 {
        lemma_cut_bounds(bounds, bytes.len(), n - 1);
    }
    let a = cut_before(bounds, n);
    let rest = bytes.skip(a);
    law_tally_append(left_over(m, n), rest, i);
    let m1 = left_over(m, n) + rest;
    assert(bytes.take(a) + rest =~= bytes);
    assert(parts_data(p) + m1 =~= parts_data(p) + left_over(m, n) + rest);
    assert(parts_data(parts) + m + bytes.take(a) + rest =~= parts_data(parts) + m + bytes);
    (p, m1, i)
}

/// The boundaries of a chunk tell trailers of the body.
proof fn lemma_segment_trailers(body: Seq<u8>, p: int, hint: int, cells: Seq<Cell>, bounds: Seq<MemberBoundary>)
    requires
        0 <= p <= bit_len(body),
        all_tell_trailers(body, bounds),
    ensures
        match segment_from(body, p, hint, cells, bounds) {
            Ok(s) => {
                &&& all_tell_trailers(body, s.bounds)
                &&& s.last ==> s.bounds.len() > 0
                &&& s.last && s.cells.len() <= usize::MAX ==> s.bounds.last().byte_offset_in_chunk == s.cells.len()
            },
            Err(_) => true,
        },
    decreases bit_len(body) - p,
{
    lemma_segment_step(body, p, hint, cells, bounds);
    lemma_next_member(body, p, hint);
    lemma_until_cells_advances(body, p, hint, Seq::empty());
    if p < hint {
        let d = until_cells(body, p, hint, Seq::empty());
        let all = cells + d.out;
        if let Ok((q, true)) = d.end {
            let t = align_up(q) / 8;
            let mb = boundary_at(body, t, all.len());
            let bounds1 = bounds.push(mb);
            if t + 8 <= body.len() {
                lemma_le32(body, t);
                lemma_le32(body, t + 4);
                assert(mb.crc_expected == le32(body, t));
                assert(tells_trailer(body, mb));
                assert forall|i: int| 0 <= i < bounds1.len() implies tells_trailer(body, #[trigger] bounds1[i]) by {
                    if i < bounds.len() {
                        assert(bounds1[i] == bounds[i]);
                    }
                }
                if t + 8 < body.len() {
                    if let Ok(h) = header_len(body.skip(t + 8)) {
                        lemma_segment_trailers(body, 8 * (t + 8 + h), hint, all, bounds1);
                    }
                }
            }
        }
    }
}

proof fn lemma_le32(s: Seq<u8>, t: int)
    ensures
        0 <= le32(s, t) < 0x1_0000_0000,
{
}

proof fn lemma_chain_grows(body: Seq<u8>, offset: int, items: Seq<WorkItem>, i: int, l: Link)
    ensures
        match chain(body, offset, items, i, l) {
            Ok(c) => joined(c.chunks).len() >= joined(l.chunks).len(),
            Err(_) => true,
        },
    decreases items.len() - i,
{
    reveal(chain);
    if i < items.len() {
        if let Ok(s) = segment(body, l.start, items[i].end_bit_hint as int) {
            let n = next_link(body, offset, items[i], l, s);
            assert(n.chunks.drop_last() =~= l.chunks);
            lemma_chain_grows(body, offset, items, i + 1, n);
        }
    }
}

proof fn lemma_chain_checked(
    body: Seq<u8>,
    offset: int,
    items: Seq<WorkItem>,
    i: int,
    l: Link,
    parts: Seq<Part>,
    m: Seq<u8>,
    index: u32,
) -> (r: Seq<Part>)
    requires
        0 <= l.start <= bit_len(body),
        all_trailed(body, parts),
        l.tally is Ok ==> l.tally->Ok_0 == tally_of(m, index) && joined(l.chunks) == parts_data(parts) + m,
        chain(body, offset, items, i, l) is Ok,
        joined(chain(body, offset, items, i, l)->Ok_0.chunks).len() <= usize::MAX,
    ensures
        all_trailed(body, r),
        r.len() > 0,
        joined(chain(body, offset, items, i, l)->Ok_0.chunks) == parts_data(r),
    decreases items.len() - i,
{
    reveal(chain);
    let hint = items[i].end_bit_hint as int;
    reveal(segment);
    let s = segment(body, l.start, hint)->Ok_0;
    let n = next_link(body, offset, items[i], l, s);
    let bytes = filled(s.cells, l.tail);
    assert(n.chunks.drop_last() =~= l.chunks);
    if !s.last {
        lemma_chain_grows(body, offset, items, i + 1, n);
    }
    lemma_segment_shape(body, l.start, hint, Seq::empty(), Seq::empty());
    lemma_segment_trailers(body, l.start, hint, Seq::empty(), Seq::empty());
    let bounds = rebased(s.bounds, offset);
    lemma_rebased_trailers(body, s.bounds, offset);
    if n.tally is Ok {
        let (p1, m1, i1) = law_chunk_checked(body, parts, m, index, bytes, bounds);
        assert(joined(n.chunks) == joined(l.chunks) + bytes);
        if s.last {
            assert(bounds.last().byte_offset_in_chunk == bytes.len());
            assert(parts_data(p1) + m1 =~= parts_data(p1));
            p1
        } else {
            lemma_chain_checked(body, offset, items, i + 1, n, p1, m1, i1)
        }
    } else {
        lemma_chain_checked(body, offset, items, i + 1, n, parts, m, index)
    }
}

proof fn lemma_rebased_trailers(s: Seq<u8>, bounds: Seq<MemberBoundary>, k: int)
    requires
        all_tell_trailers(s, bounds),
    ensures
        all_tell_trailers(s, rebased(bounds, k)),
{
    let r = rebased(bounds, k);
    assert forall|i: int| 0 <= i < r.len() implies tells_trailer(s, #[trigger] r[i]) by {
        assert(tells_trailer(s, bounds[i]));
        let t = choose|t: int|
            0 <= t && t + 8 <= s.len() && bounds[i].crc_expected == #[trigger] le32(s, t) && bounds[i].isize_expected
                == le32(s, t + 4);
        assert(r[i].crc_expected == le32(s, t));
    }
}

/// A body that is decoded in chunks, wherever it is cut, was held against trailers
/// that stand in it, all of it.
pub proof fn law_chunked_checked(body: Seq<u8>, offset: int, items: Seq<WorkItem>)
    requires
        chain(body, offset, items, 0, first_link()) is Ok,
        joined(chain(body, offset, items, 0, first_link())->Ok_0.chunks).len() <= usize::MAX,
    ensures
        checked(body, joined(chain(body, offset, items, 0, first_link())->Ok_0.chunks)),
{
    let e = Seq::<u8>::empty();
    lemma_crc32_empty();
    assert(e + e =~= e);
    assert(joined(Seq::<Seq<u8>>::empty()) == e);
    let parts = lemma_chain_checked(body, offset, items, 0, first_link(), Seq::empty(), e, 0);
    assert(all_trailed(body, parts));
}

/// Parts whose trailers stand in a part of some bytes, told by the whole.
proof fn lemma_parts_moved(part: Seq<u8>, s: Seq<u8>, k: int, parts: Seq<Part>) -> (r: Seq<Part>)
    requires
        embedded(part, s, k),
        all_trailed(part, parts),
    ensures
        all_trailed(s, r),
        r.len() == parts.len(),
        parts_data(r) == parts_data(parts),
    decreases parts.len(),
{
    if parts.len() == 0 {
        parts
    } else {
        let front = parts.drop_last();
        let x = parts.last();
        assert(trailed(part, parts[parts.len() - 1].at, parts[parts.len() - 1].data));
        assert forall|i: int| 0 <= i < front.len() implies trailed(part, (#[trigger] front[i]).at, front[i].data) by {
            assert(front[i] == parts[i]);
        }
        let f = lemma_parts_moved(part, s, k, front);
        let y = Part { at: x.at + k, data: x.data };
        let r = f.push(y);
        assert(part == s.subrange(k, k + part.len()));
        assert(s.subrange(y.at, y.at + 8) =~= part.subrange(x.at, x.at + 8));
        assert(r.drop_last() =~= f);
        assert forall|i: int| 0 <= i < r.len() implies trailed(s, (#[trigger] r[i]).at, r[i].data) by {
            if i < f.len() {
                assert(r[i] == f[i]);
            }
        }
        r
    }
}

/// What was held against trailers of a part of some bytes was held against trailers
/// of the whole.
proof fn lemma_checked_moved(part: Seq<u8>, s: Seq<u8>, k: int, out: Seq<u8>)
    requires
        embedded(part, s, k),
        checked(part, out),
    ensures
        checked(s, out),
{
    let parts = choose|parts: Seq<Part>| #[trigger]
        all_trailed(part, parts) && parts.len() > 0 && parts_data(parts) == out;
    let r = lemma_parts_moved(part, s, k, parts);
    assert(all_trailed(s, r));
}

proof fn lemma_skip_embedded(s: Seq<u8>, k: int)
    requires
        0 <= k <= s.len(),
    ensures
        embedded(s.skip(k), s, k),
{
    assert(s.skip(k) =~= s.subrange(k, k + s.skip(k).len()));
}

proof fn lemma_parts_append(a: Seq<Part>, b: Seq<Part>)
    ensures
        parts_data(a + b) == parts_data(a) + parts_data(b),
    decreases b.len(),
{
    if b.len() == 0 {
        assert(a + b =~= a);
        assert(parts_data(a) + parts_data(b) =~= parts_data(a));
    } else {
        assert((a + b).drop_last() =~= a + b.drop_last());
        lemma_parts_append(a, b.drop_last());
        assert(parts_data(a) + parts_data(b.drop_last()) + b.last().data =~= parts_data(a) + parts_data(b));
    }
}

/// What was held against trailers, one after the other.
proof fn lemma_checked_append(s: Seq<u8>, x: Seq<u8>, y: Seq<u8>)
    requires
        checked(s, x),
        checked(s, y),
    ensures
        checked(s, x + y),
{
    let a = choose|a: Seq<Part>| #[trigger] all_trailed(s, a) && a.len() > 0 && parts_data(a) == x;
    let b = choose|b: Seq<Part>| #[trigger] all_trailed(s, b) && b.len() > 0 && parts_data(b) == y;
    lemma_parts_append(a, b);
    let c = a + b;
    assert forall|i: int| 0 <= i < c.len() implies trailed(s, (#[trigger] c[i]).at, c[i].data) by {
        if i < a.len() {
            assert(c[i] == a[i]);
        } else {
            assert(c[i] == b[i - a.len()]);
        }
    }
    assert(all_trailed(s, c));
}

proof fn lemma_one_checked(s: Seq<u8>, t: int, data: Seq<u8>)
    requires
        trailed(s, t, data),
    ensures
        checked(s, data),
{
    let parts = seq![Part { at: t, data }];
    assert(parts.drop_last() =~= Seq::<Part>::empty());
    assert(parts_data(parts.drop_last()) == Seq::<u8>::empty());
    assert(parts_data(parts) =~= data);
    assert(all_trailed(s, parts));
}

proof fn lemma_serial_checked(body: Seq<u8>, offset: int, p: int, m: Seq<u8>, index: u32)
    requires
        0 <= p,
        serial_from(body, offset, p, m, index).end is Ok,
    ensures
        checked(body, m + serial_from(body, offset, p, m, index).out),
    decreases bit_len(body) - p,
{
    reveal(serial_from);
    reveal(after_stream);
    let far = bit_len(body) + 1;
    let d = until(body, p, far, m);
    lemma_until_advances(body, p, far, m);
    law_decoding_appends(body, p, far, m);
    let q = d.end->Ok_0.0;
    let t = align_up(q) / 8;
    let mb = trailer_of(body, offset, t);
    law_tally_accepts(d.out, index, mb);
    lemma_le32(body, t);
    lemma_le32(body, t + 4);
    lemma_trailer_read(body, t, d.out);
    lemma_one_checked(body, t, d.out);
    let out = d.out.skip(m.len() as int);
    assert(m + out =~= d.out);
    lemma_next_stream(body, q);
    if t + 8 == body.len() {
        assert(m + (out + Seq::<u8>::empty()) =~= d.out);
    } else {
        let h = header_len(body.skip(t + 8))->Ok_0;
        let i1 = tally_end(tally_of(d.out, index), mb)->Ok_0.index;
        let rest = serial_from(body, offset, 8 * (t + 8 + h), Seq::empty(), i1);
        lemma_serial_checked(body, offset, 8 * (t + 8 + h), Seq::empty(), i1);
        assert(Seq::<u8>::empty() + rest.out =~= rest.out);
        lemma_checked_append(body, d.out, rest.out);
        assert(m + (out + rest.out) =~= d.out + rest.out);
    }
}

/// A body that is decoded, with any number of workers and any size of chunks, was
/// held against trailers that stand in it, all of it.
pub proof fn law_body_checked(body: Seq<u8>, offset: int, num_threads: int, chunk_size_bytes: int)
    requires
        match body_result(body, offset, num_threads, chunk_size_bytes) {
            Ok(out) => out.len() <= usize::MAX,
            Err(_) => false,
        },
    ensures
        checked(body, body_result(body, offset, num_threads, chunk_size_bytes)->Ok_0),
{
    if num_threads == 1 {
        lemma_serial_checked(body, offset, 0, Seq::empty(), 0);
        let r = serial_from(body, offset, 0, Seq::empty(), 0).out;
        assert(Seq::<u8>::empty() + r =~= r);
    } else {
        law_chunked_checked(body, offset, items_of(planned(body, chunk_size_bytes)));
    }
}

/// A member that is decoded was held against a trailer that stands after it.
pub proof fn law_member_checked(s: Seq<u8>, out: Seq<u8>, index: u32)
    requires
        member(s, out, index).end is Ok,
    ensures
        extends(member(s, out, index).out, out),
        trailed(s, member(s, out, index).end->Ok_0 - 8, member(s, out, index).out.skip(out.len() as int)),
{
    law_member_appends(s, out, index);
    law_header_len_bounds(s);
    let h = header_len(s)->Ok_0;
    let b = s.skip(h);
    lemma_until_advances(b, 0, bit_len(b) + 1, out);
    let m = member(s, out, index);
    let q = crate::deflate::format::inflate(b, 0, out).end->Ok_0;
    law_trailer_accepted(s, h + align_up(q) / 8, m.out.skip(out.len() as int), index);
}

/// What was appended in two steps, each of which was held against trailers.
proof fn lemma_appended(s: Seq<u8>, out: Seq<u8>, mid: Seq<u8>, all: Seq<u8>)
    requires
        extends(mid, out),
        extends(all, mid),
        checked(s, mid.skip(out.len() as int)),
        checked(s, all.skip(mid.len() as int)),
    ensures
        extends(all, out),
        checked(s, all.skip(out.len() as int)),
{
    let data = mid.skip(out.len() as int);
    let more = all.skip(mid.len() as int);
    lemma_checked_append(s, data, more);
    lemma_extends_trans(all, mid, out);
    assert(all.take(mid.len() as int) == mid);
    assert(all.skip(out.len() as int) =~= data + more);
}

#[verifier::rlimit(40)]
proof fn lemma_members_checked(s: Seq<u8>, pos: int, out: Seq<u8>, index: u32)
    requires
        0 <= pos < s.len(),
        members(s, pos, out, index).end is Ok,
    ensures
        extends(members(s, pos, out, index).out, out),
        checked(s, members(s, pos, out, index).out.skip(out.len() as int)),
    decreases s.len() - pos,
{
    let part = s.skip(pos);
    law_member_bounds(part, out, index);
    law_member_checked(part, out, index);
    let m = member(part, out, index);
    let n = m.end->Ok_0;
    let data = m.out.skip(out.len() as int);
    lemma_one_checked(part, n - 8, data);
    lemma_skip_embedded(s, pos);
    lemma_checked_moved(part, s, pos, data);
    if pos + n < s.len() {
        lemma_members_checked(s, pos + n, m.out, index_after(index));
        let r = members(s, pos + n, m.out, index_after(index)).out;
        lemma_appended(s, out, m.out, r);
    } else {
        assert(members(s, pos + n, m.out, index_after(index)).out == m.out);
    }
}

/// A file that is decoded member by member was held against trailers that stand in
/// it, all of it.
pub proof fn law_members_checked(s: Seq<u8>, out: Seq<u8>)
    requires
        members(s, 0, out, 0).end is Ok,
        s.len() > 0,
    ensures
        extends(members(s, 0, out, 0).out, out),
        checked(s, members(s, 0, out, 0).out.skip(out.len() as int)),
{
    lemma_members_checked(s, 0, out, 0);
}

/// A batch of members was held against trailers that stand in the file.
proof fn lemma_batch_checked(s: Seq<u8>, spans: Seq<Span>, i: int, end: int, out: Seq<u8>)
    requires
        0 <= i < end <= spans.len(),
        forall|k: int| 0 <= k < spans.len() ==> (#[trigger] spans[k]).0 <= spans[k].1 <= s.len(),
        batch_from(s, spans, i, end, out).end is Ok,
    ensures
        extends(batch_from(s, spans, i, end, out).out, out),
        checked(s, batch_from(s, spans, i, end, out).out.skip(out.len() as int)),
    decreases end - i,
{
    let a = spans[i].0 as int;
    let b = spans[i].1 as int;
    let part = s.subrange(a, b);
    let index = (i % 0x1_0000_0000) as u32;
    assert(spans[i].0 <= spans[i].1 <= s.len());
    law_member_checked(part, out, index);
    let m = member(part, out, index);
    let data = m.out.skip(out.len() as int);
    lemma_one_checked(part, m.end->Ok_0 - 8, data);
    assert(embedded(part, s, a));
    lemma_checked_moved(part, s, a, data);
    if i + 1 < end {
        lemma_batch_checked(s, spans, i + 1, end, m.out);
        let r = batch_from(s, spans, i + 1, end, m.out).out;
        lemma_appended(s, out, m.out, r);
    } else {
        assert(batch_from(s, spans, i + 1, end, m.out).out == m.out);
    }
}

/// Batches from number `k` on, after the bytes `out` of those before them.
proof fn lemma_batches_checked(
    s: Seq<u8>,
    spans: Seq<Span>,
    batches: Seq<(usize, usize)>,
    k: int,
    out: Seq<u8>,
)
    requires
        0 <= k < batches.len(),
        forall|j: int| 0 <= j < batches.len() ==> (#[trigger] batches[j]).0 < batches[j].1 <= spans.len(),
        forall|i: int| 0 <= i < spans.len() ==> (#[trigger] spans[i]).0 <= spans[i].1 <= s.len(),
        batches_result(s, spans, batches, k, out) is Ok,
    ensures
        extends(batches_result(s, spans, batches, k, out)->Ok_0, out),
        checked(s, batches_result(s, spans, batches, k, out)->Ok_0.skip(out.len() as int)),
    decreases batches.len() - k,
{
    let e = Seq::<u8>::empty();
    assert(batches[k].0 < batches[k].1 <= spans.len());
    lemma_batch_checked(s, spans, batches[k].0 as int, batches[k].1 as int, e);
    let b = batch_from(s, spans, batches[k].0 as int, batches[k].1 as int, e).out;
    assert(b.skip(0) =~= b);
    let next = out + b;
    lemma_extends_append(out, b);
    assert(next.skip(out.len() as int) =~= b);
    if k + 1 < batches.len() {
        lemma_batches_checked(s, spans, batches, k + 1, next);
        let r = batches_result(s, spans, batches, k + 1, next)->Ok_0;
        lemma_appended(s, out, next, r);
    } else {
        assert(batches_result(s, spans, batches, k + 1, next) == Ok::<Seq<u8>, GzipError>(next));
    }
}

/// Batches hold members.
proof fn lemma_batches_from(spans: Seq<Span>, target: int, i: int)
    requires
        0 <= i <= spans.len() <= usize::MAX,
        target > 0,
    ensures
        forall|j: int| 0 <= j < batches_from(spans, target, i).len() ==> (#[trigger] batches_from(
            spans,
            target,
            i,
        )[j]).0 < batches_from(spans, target, i)[j].1 <= spans.len(),
        i < spans.len() ==> batches_from(spans, target, i).len() > 0,
    decreases spans.len() - i,
{
    if i < spans.len() {
        lemma_batch_end(spans, target, i, i);
        let e = batch_end(spans, target, i, i);
        lemma_batches_from(spans, target, e);
        let rest = batches_from(spans, target, e);
        let all = batches_from(spans, target, i);
        assert(all == seq![(i as usize, e as usize)] + rest);
        assert forall|j: int| 0 <= j < all.len() implies (#[trigger] all[j]).0 < all[j].1 <= spans.len() by {
            if j > 0 {
                assert(all[j] == rest[j - 1]);
            }
        }
    }
}

proof fn lemma_spans_inside(s: Seq<u8>, pos: int)
    requires
        0 <= pos <= s.len() <= usize::MAX,
        bgzf_spans(s, pos) is Ok,
    ensures
        ({
            let (spans, end) = bgzf_spans(s, pos)->Ok_0;
            &&& pos <= end <= s.len()
            &&& spans.len() <= end - pos
            &&& forall|k: int| 0 <= k < spans.len() ==> (#[trigger] spans[k]).0 <= spans[k].1 <= s.len()
            &&& pos < s.len() && bgzf_block_size(s.skip(pos)) is Some ==> spans.len() > 0
        }),
    decreases s.len() - pos,
{
    lemma_bgzf_size(s.skip(pos));
    if pos < s.len() {
        if let Some(size) = bgzf_block_size(s.skip(pos)) {
            lemma_spans_inside(s, pos + size);
            let (rest, end) = bgzf_spans(s, pos + size)->Ok_0;
            let (spans, _) = bgzf_spans(s, pos)->Ok_0;
            assert(spans == seq![(pos as usize, (pos + size) as usize)] + rest);
            assert forall|k: int| 0 <= k < spans.len() implies (#[trigger] spans[k]).0 <= spans[k].1 <= s.len() by {
                if k > 0 {
                    assert(spans[k] == rest[k - 1]);
                }
            }
        }
    }
}

/// A file that is decoded, with any number of workers and any size of chunks, was
/// held against trailers that stand in it, all of it.
pub proof fn law_file_checked(file: Seq<u8>, num_threads: int, chunk_size_bytes: int)
    requires
        file.len() <= usize::MAX,
        match file_result(file, num_threads, chunk_size_bytes) {
            Ok(out) => out.len() <= usize::MAX,
            Err(_) => false,
        },
    ensures
        checked(file, file_result(file, num_threads, chunk_size_bytes)->Ok_0),
{
    if bgzf_block_size(file) is None {
        law_header_len_bounds(file);
        let h = header_len(file)->Ok_0;
        law_body_checked(file.skip(h), h, num_threads, chunk_size_bytes);
        lemma_skip_embedded(file, h);
        lemma_checked_moved(file.skip(h), file, h, file_result(file, num_threads, chunk_size_bytes)->Ok_0);
    } else {
        assert(file.skip(0) =~= file);
        assert(file.len() > 0);
        lemma_spans_inside(file, 0);
        let (spans, end) = bgzf_spans(file, 0)->Ok_0;
        let target = target_of(spanned(spans, 0, spans.len() as int), num_threads, chunk_size_bytes);
        let batches = batches_from(spans, target, 0);
        lemma_batches_from(spans, target, 0);
        let e = Seq::<u8>::empty();
        lemma_batches_checked(file, spans, batches, 0, e);
        let out = batches_result(file, spans, batches, 0, e)->Ok_0;
        assert(out.skip(0) =~= out);
        if end < file.len() {
            let x = file.skip(end);
            law_header_len_bounds(x);
            let h = header_len(x)->Ok_0;
            let body = file.skip(end + h);
            law_body_checked(body, end + h, num_threads, chunk_size_bytes);
            let rest = body_result(body, end + h, num_threads, chunk_size_bytes)->Ok_0;
            lemma_skip_embedded(file, end + h);
            lemma_checked_moved(body, file, end + h, rest);
            lemma_checked_append(file, out, rest);
        }
    }
}

/// A file that is decoded as it comes in was held against trailers that stand in
/// it, all of it.
pub proof fn law_gunzip_checked(s: Seq<u8>)
    requires
        gunzip(s).end is Ok,
    ensures
        checked(s, gunzip(s).out),
{
    let ms = law_gunzipped_stands(s);
    assert(s.skip(0) =~= s);
    lemma_file_checked(ms, s, 0);
}

proof fn lemma_file_checked(ms: Seq<Member>, s: Seq<u8>, a: int)
    requires
        ms.len() > 0,
        file_wf(ms),
        0 <= a <= s.len(),
        s.skip(a) == file_bytes(ms),
    ensures
        checked(s, file_data(ms)),
    decreases ms.len(),
{
    lemma_file_wf(ms);
    let m = ms[0];
    let more = ms.skip(1);
    let n = m.bytes().len() as int;
    lemma_front(s, a, m.bytes(), file_bytes(more));
    let t = a + n - 8;
    assert(s.subrange(t, t + 8) =~= s.subrange(a, a + n).subrange(n - 8, n));
    assert(m.bytes().subrange(n - 8, n) =~= trailer_bytes(m.data()));
    lemma_one_checked(s, t, m.data());
    if more.len() > 0 {
        lemma_file_checked(more, s, a + n);
        lemma_checked_append(s, m.data(), file_data(more));
    } else {
        assert(m.data() + file_data(more) =~= m.data());
    }
}

proof fn lemma_part_trailers(part: Seq<u8>, file: Seq<u8>, k: int, bounds: Seq<MemberBoundary>)
    requires
        embedded(part, file, k),
        all_tell_trailers(part, bounds),
    ensures
        all_tell_trailers(file, bounds),
{
    assert forall|i: int| 0 <= i < bounds.len() implies tells_trailer(file, #[trigger] bounds[i]) by {
        let mb = bounds[i];
        assert(tells_trailer(part, mb));
        let t = choose|t: int|
            0 <= t && t + 8 <= part.len() && mb.crc_expected == #[trigger] le32(part, t) && mb.isize_expected == le32(
                part,
                t + 4,
            );
        assert(le32(file, t + k) == le32(part, t));
        assert(le32(file, t + k + 4) == le32(part, t + 4));
    }
}

proof fn lemma_streamed_grows(pieces: Seq<Piece>, i: int, l: PieceLink, chunks: Seq<Seq<u8>>)
    ensures
        match streamed(pieces, i, l, chunks) {
            Ok(c) => joined(c).len() >= joined(chunks).len(),
            Err(_) => true,
        },
    decreases pieces.len() - i,
{
    if i < pieces.len() {
        match next_piece(l, pieces[i]) {
            PieceStep::Fail(_) => {},
            PieceStep::Wait(n) => {
                lemma_streamed_grows(pieces, i + 1, n, chunks);
            },
            PieceStep::Chunk(bytes, _, n) => {
                assert(chunks.push(bytes).drop_last() =~= chunks);
                lemma_streamed_grows(pieces, i + 1, n, chunks.push(bytes));
            },
        }
    }
}

/// A chunk that a piece completes was held against trailers of the file.
proof fn lemma_piece_checked(
    file: Seq<u8>,
    h: int,
    start: int,
    end: int,
    piece: Piece,
    l: PieceLink,
    parts: Seq<Part>,
    m: Seq<u8>,
    index: u32,
) -> (r: (Seq<Part>, Seq<u8>, u32))
    requires
        bit_len(file) < u64::MAX,
        0 <= h <= file.len(),
        0 <= start,
        stands_for(file, start, end, piece),
        holds_file(l.anchor, file, h, start / 8),
        all_trailed(file, parts),
        l.tally == tally_of(m, index),
        next_piece(l, piece) is Chunk,
        next_piece(l, piece)->Chunk_0.len() <= usize::MAX,
    ensures
        all_trailed(file, r.0),
        next_piece(l, piece)->Chunk_2.tally == tally_of(r.1, r.2),
        parts_data(r.0) + r.1 == parts_data(parts) + m + next_piece(l, piece)->Chunk_0,
        next_piece(l, piece)->Chunk_1 ==> r.0.len() > 0 && r.1.len() == 0,
{
    reveal(next_piece);
    let a = l.anchor;
    let none = Seq::<MemberBoundary>::empty();
    let part = lemma_piece_part(a, file, h, start, end, piece);
    let s = a.decoded(piece)->Ok_0;
    let bytes = filled(s.cells, a.tail);
    lemma_segment_shape(part, a.start % 8, a.hint(piece), Seq::empty(), none);
    lemma_segment_trailers(part, a.start % 8, a.hint(piece), Seq::empty(), none);
    lemma_part_trailers(part, file, a.start / 8, s.bounds);
    lemma_rebased_trailers(file, s.bounds, a.start / 8);
    law_chunk_checked(file, parts, m, index, bytes, rebased(s.bounds, a.start / 8))
}

proof fn lemma_streamed_checked(
    file: Seq<u8>,
    h: int,
    cuts: Seq<u64>,
    pieces: Seq<Piece>,
    i: int,
    l: PieceLink,
    chunks: Seq<Seq<u8>>,
    parts: Seq<Part>,
    m: Seq<u8>,
    index: u32,
) -> (r: Seq<Part>)
    requires
        bit_len(file) < u64::MAX,
        0 <= h <= file.len(),
        are_pieces(file, cuts, pieces),
        0 <= i,
        i < pieces.len() ==> holds_file(l.anchor, file, h, cuts[i] as int / 8),
        all_trailed(file, parts),
        l.tally == tally_of(m, index),
        joined(chunks) == parts_data(parts) + m,
        streamed(pieces, i, l, chunks) is Ok,
        joined(streamed(pieces, i, l, chunks)->Ok_0).len() <= usize::MAX,
    ensures
        all_trailed(file, r),
        r.len() > 0,
        joined(streamed(pieces, i, l, chunks)->Ok_0) == parts_data(r),
    decreases pieces.len() - i,
{
    lemma_piece_meets(file, h, cuts, pieces, i, l, chunks);
    let j = i + 1;
    let end = if j < cuts.len() {
        assert(is_piece(file, cuts[i] as int, cuts[j] as int, pieces[i]));
        cuts[j] as int
    } else {
        assert(cuts[i] == cuts.last() && pieces[i] == pieces.last());
        0
    };
    match next_piece(l, pieces[i]) {
        PieceStep::Wait(n) => {
            assert(n.tally == l.tally) by {
                reveal(next_piece);
            }
            lemma_streamed_checked(file, h, cuts, pieces, j, n, chunks, parts, m, index)
        },
        PieceStep::Chunk(bytes, last, n) => {
            let c1 = chunks.push(bytes);
            assert(c1.drop_last() =~= chunks);
            assert(joined(c1) == joined(chunks) + bytes);
            if !last {
                lemma_streamed_grows(pieces, j, n, c1);
            }
            let (p1, m1, i1) = lemma_piece_checked(file, h, cuts[i] as int, end, pieces[i], l, parts, m, index);
            if last {
                assert(parts_data(p1) + m1 =~= parts_data(p1));
                p1
            } else {
                lemma_streamed_checked(file, h, cuts, pieces, j, n, c1, p1, m1, i1)
            }
        },
        PieceStep::Fail(_) => parts,
    }
}

/// A file that is decoded in pieces as it comes in was held against trailers that
/// stand in it, all of it.
pub proof fn law_streamed_checked(file: Seq<u8>, h: int, cuts: Seq<u64>, pieces: Seq<Piece>)
    requires
        bit_len(file) < u64::MAX,
        0 <= h <= file.len(),
        are_pieces(file, cuts, pieces),
        cuts[0] == 8 * h,
        match streamed(pieces, 0, first_piece_link(h), Seq::empty()) {
            Ok(chunks) => joined(chunks).len() <= usize::MAX,
            Err(_) => false,
        },
    ensures
        checked(file, joined(streamed(pieces, 0, first_piece_link(h), Seq::empty())->Ok_0)),
{
    let e = Seq::<u8>::empty();
    let l = first_piece_link(h);
    let none = Seq::<Part>::empty();
    lemma_crc32_empty();
    assert(e =~= file.subrange(h, h));
    assert(parts_data(none) + e =~= e);
    assert(joined(Seq::<Seq<u8>>::empty()) == e);
    let r = lemma_streamed_checked(file, h, cuts, pieces, 0, l, Seq::empty(), none, e, 0);
    assert(all_trailed(file, r));
}

} // verus!
