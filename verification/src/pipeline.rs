//! Decoding one file in chunks.
//!
//! The compressed bytes are cut at guessed block boundaries. Each chunk is
//! decoded without the bytes before it, by any worker and in any order. Then
//! the chunks are anchored one after the other: a chunk that did not start
//! where its predecessor ended was cut at a false boundary and is decoded
//! again from the right place. Once anchored, its markers are resolved from
//! the output before it, and its members are checked.
use vstd::prelude::*;
use crate::Error;
use crate::deflate::DeflateError;
use crate::deflate::bit_reader::{BitReader, addressable};
use crate::deflate::bits::{align_up, bit_len};
use crate::deflate::cells::{Cell, until_cells, lemma_until_cells_advances};
use crate::deflate::format::WINDOW;
use crate::deflate::fast_inflate::stop_at;
use crate::deflate::speculative::{SpeculativeChunk, Marker, bytes_of, first_marker, holds, lemma_markers_append};
use crate::deflate::wide_window::{decode_until_u16, appended, passed_on};
use crate::gzip::{GzipError, header_len, parse_header, le32, read_le32, law_header_len_bounds};

verus! {

/// What a worker keeps from one chunk to the next.
pub struct WorkerKernel {
    scratch: Vec<u16>,
}

impl WorkerKernel {
    /// The work space, whose contents matter to no later call.
    pub closed spec fn scratch(&self) -> Seq<u16> {
        self.scratch@
    }

    /// A kernel whose work space is still empty.
    pub fn new() -> (k: WorkerKernel)
        ensures
            k.scratch() == Seq::<u16>::empty(),
    {
        WorkerKernel { scratch: Vec::new() }
    }

    /// Decodes blocks without the window before them; see [`decode_until_u16`].
    pub fn decode_until(&mut self, input: &[u8], start_bit: u64, end_bit_hint: u64, chunk: &mut SpeculativeChunk) -> (r:
        Result<(u64, bool), DeflateError>)
        requires
            addressable(input@),
        ensures
            start_bit > bit_len(input@) ==> r == Err::<(u64, bool), DeflateError>(DeflateError::UnexpectedEof)
                && final(chunk).bytes@ == old(chunk).bytes@ && final(chunk).markers@ == old(chunk).markers@,
            start_bit <= bit_len(input@) ==> {
                let d = until_cells(input@, start_bit as int, end_bit_hint as int, Seq::empty());
                match d.end {
                    Ok((q, last)) => {
                        &&& r is Ok && r->Ok_0.0 == stop_at(q, last) && r->Ok_0.1 == last
                        &&& appended(*old(chunk), *final(chunk), d.out)
                    },
                    Err(e) => {
                        let n = passed_on(input@, start_bit as int, end_bit_hint as int, Seq::empty(), 0);
                        &&& r == Err::<(u64, bool), DeflateError>(e)
                        &&& 0 <= n <= d.out.len()
                        &&& appended(*old(chunk), *final(chunk), d.out.take(n))
                    },
                }
            },
    {
        decode_until_u16(input, start_bit, end_bit_hint, chunk, &mut self.scratch)
    }
}

/// A stretch of the compressed body to decode: from bit `start_bit` to the
/// first block end at or after bit `end_bit_hint`.
#[derive(Debug, Clone, Copy, PartialEq, Eq, Structural)]
pub struct WorkItem {
    pub id: u64,
    pub start_bit: u64,
    pub end_bit_hint: u64,
}

/// The end of a gzip member inside a chunk, and what its trailer says.
#[derive(Debug, Clone, Copy, PartialEq, Eq, Structural)]
pub struct MemberBoundary {
    pub byte_offset_in_chunk: usize,
    pub crc_expected: u32,
    pub isize_expected: u32,
    /// Where the trailer stands in the bytes that the chunk was decoded from.
    pub trailer_input_byte: u64,
}

/// A decoded chunk.
pub struct WorkResult {
    pub id: u64,
    pub chunk: SpeculativeChunk,
    /// True if the chunk ends with the body.
    pub final_block: bool,
    pub member_boundaries: Vec<MemberBoundary>,
    /// Where the chunk ends, and the next one starts.
    pub actual_end_bit: u64,
}

/// What a chunk decodes to.
pub struct Segment {
    pub cells: Seq<Cell>,
    pub bounds: Seq<MemberBoundary>,
    pub last: bool,
    pub end: int,
}

/// The boundary that the trailer at byte `t` makes after `n` bytes of output.
pub open spec fn boundary_at(body: Seq<u8>, t: int, n: nat) -> MemberBoundary {
    MemberBoundary {
        byte_offset_in_chunk: n as usize,
        crc_expected: le32(body, t) as u32,
        isize_expected: le32(body, t + 4) as u32,
        trailer_input_byte: t as u64,
    }
}

/// A boundary told by bytes of which a part starts at byte `base`, rather than by
/// that part.
pub open spec fn rebased_one(mb: MemberBoundary, base: int) -> MemberBoundary {
    MemberBoundary {
        byte_offset_in_chunk: mb.byte_offset_in_chunk,
        crc_expected: mb.crc_expected,
        isize_expected: mb.isize_expected,
        trailer_input_byte: ((base + mb.trailer_input_byte) % 0x1_0000_0000_0000_0000) as u64,
    }
}

/// Boundaries told by bytes of which a part starts at byte `base`, rather than by
/// that part.
pub open spec fn rebased(bounds: Seq<MemberBoundary>, base: int) -> Seq<MemberBoundary> {
    Seq::new(bounds.len(), |i: int| rebased_one(bounds[i], base))
}

/// Tells boundaries by bytes of which a part starts at byte `base`, rather than by
/// that part.
pub fn rebase(bounds: &[MemberBoundary], base: u64) -> (r: Vec<MemberBoundary>)
    ensures
        r@ == rebased(bounds@, base as int),
{
    let mut r: Vec<MemberBoundary> = Vec::with_capacity(bounds.len());
    let mut i: usize = 0;
    while i < bounds.len()
        invariant
            i <= bounds@.len(),
            r@ =~= rebased(bounds@.take(i as int), base as int),
        decreases bounds@.len() - i,
    {
        let mb: MemberBoundary = bounds[i];
        r.push(
            MemberBoundary {
                byte_offset_in_chunk: mb.byte_offset_in_chunk,
                crc_expected: mb.crc_expected,
                isize_expected: mb.isize_expected,
                trailer_input_byte: base.wrapping_add(mb.trailer_input_byte),
            },
        );
        i = i + 1;
    }
    assert(bounds@.take(bounds@.len() as int) =~= bounds@);
    r
}

/// Decodes from bit `p` on, across the ends of members, up to the first block
/// end at or after bit `hint` or to the end of the body.
#[verifier::opaque]
pub open spec fn segment_from(
    body: Seq<u8>,
    p: int,
    hint: int,
    cells: Seq<Cell>,
    bounds: Seq<MemberBoundary>,
) -> Result<Segment, Error>
    decreases bit_len(body) - p,
{
    proof {
        lemma_next_member(body, p, hint);
    }
    if p < 0 || p >= hint {
        Ok(Segment { cells, bounds, last: false, end: p })
    } else {
        let d = until_cells(body, p, hint, Seq::empty());
        let all = cells + d.out;
        match d.end {
            Err(e) => Err(Error::Deflate(e)),
            Ok((q, false)) => Ok(Segment { cells: all, bounds, last: false, end: q }),
            Ok((q, true)) => {
                let t = align_up(q) / 8;
                let bounds1 = bounds.push(boundary_at(body, t, all.len()));
                if t + 8 > body.len() {
                    Err(Error::Gzip(GzipError::Truncated))
                } else if t + 8 == body.len() {
                    Ok(Segment { cells: all, bounds: bounds1, last: true, end: 8 * (t + 8) })
                } else {
                    match header_len(body.skip(t + 8)) {
                        Err(e) => Err(Error::Gzip(e)),
                        Ok(h) => segment_from(body, 8 * (t + 8 + h), hint, all, bounds1),
                    }
                }
            },
        }
    }
}

/// The next member's stream starts after the last one's, inside the body.
pub proof fn lemma_next_member(body: Seq<u8>, p: int, hint: int)
    ensures
        match until_cells(body, p, hint, Seq::empty()).end {
            Ok((q, _)) => {
                let t = align_up(q) / 8;
                0 <= p && t + 8 < body.len() ==> match header_len(body.skip(t + 8)) {
                    Ok(h) => p < 8 * (t + 8 + h) <= bit_len(body),
                    Err(_) => true,
                }
            },
            Err(_) => true,
        },
{
    lemma_until_cells_advances(body, p, hint, Seq::empty());
    if let Ok((q, _)) = until_cells(body, p, hint, Seq::empty()).end {
        law_header_len_bounds(body.skip(align_up(q) / 8 + 8));
    }
}

/// What the chunk that starts at bit `p` decodes to.
#[verifier::opaque]
pub open spec fn segment(body: Seq<u8>, p: int, hint: int) -> Result<Segment, Error> {
    if p > bit_len(body) {
        Err(Error::Deflate(DeflateError::UnexpectedEof))
    } else {
        segment_from(body, p, hint, Seq::empty(), Seq::empty())
    }
}

/// `res` is the chunk that item `(start, hint)` stands for.
pub open spec fn decodes(res: WorkResult, s: Segment) -> bool {
    &&& holds(&res.chunk, s.cells)
    &&& res.member_boundaries@ == s.bounds
    &&& res.final_block == s.last
    &&& res.actual_end_bit == s.end
}

/// How many bytes to make room for, given how many bits a chunk spans.
fn reserve_hint(span_bits: u64) -> (n: usize)
    ensures
        n == if span_bits / 8 * 3 < 0x400_0000 { (span_bits / 8 * 3) as int } else { 0x400_0000 },
{
    let span_bytes: u64 = span_bits / 8;
    if span_bytes >= 0x400_0000 {
        0x400_0000
    } else if span_bytes * 3 < 0x400_0000 {
        (span_bytes * 3) as usize
    } else {
        0x400_0000
    }
}

pub proof fn lemma_segment_step(body: Seq<u8>, p: int, hint: int, cells: Seq<Cell>, bounds: Seq<MemberBoundary>)
    requires
        0 <= p,
    ensures
        p >= hint ==> segment_from(body, p, hint, cells, bounds) == Ok::<Segment, Error>(
            Segment { cells, bounds, last: false, end: p },
        ),
        p < hint ==> {
            let d = until_cells(body, p, hint, Seq::empty());
            let all = cells + d.out;
            match d.end {
                Err(e) => segment_from(body, p, hint, cells, bounds) == Err::<Segment, Error>(Error::Deflate(e)),
                Ok((q, last)) => {
                    let t = align_up(q) / 8;
                    let bounds1 = bounds.push(boundary_at(body, t, all.len()));
                    if !last {
                        segment_from(body, p, hint, cells, bounds) == Ok::<Segment, Error>(
                            Segment { cells: all, bounds, last: false, end: q },
                        )
                    } else if t + 8 > body.len() {
                        segment_from(body, p, hint, cells, bounds) == Err::<Segment, Error>(
                            Error::Gzip(GzipError::Truncated),
                        )
                    } else if t + 8 == body.len() {
                        segment_from(body, p, hint, cells, bounds) == Ok::<Segment, Error>(
                            Segment { cells: all, bounds: bounds1, last: true, end: 8 * (t + 8) },
                        )
                    } else {
                        match header_len(body.skip(t + 8)) {
                            Err(e) => segment_from(body, p, hint, cells, bounds) == Err::<Segment, Error>(
                                Error::Gzip(e),
                            ),
                            Ok(h) => segment_from(body, p, hint, cells, bounds) == segment_from(
                                body,
                                8 * (t + 8 + h),
                                hint,
                                all,
                                bounds1,
                            ),
                        }
                    }
                },
            }
        },
{
    reveal(segment_from);
}

/// Decodes the blocks of one member and leaves `br` after them; true if they
/// end with the stream.
fn decode_stretch(
    body: &[u8],
    br: &mut BitReader<'_>,
    hint: u64,
    wk: &mut WorkerKernel,
    chunk: &mut SpeculativeChunk,
    Ghost(cells): Ghost<Seq<Cell>>,
) -> (r: Result<bool, Error>)
    requires
        addressable(body@),
        old(br).wf(),
        old(br).stream() == body@,
        holds(old(chunk), cells),
    ensures
        final(br).wf(),
        final(br).stream() == body@,
        ({
            let d = until_cells(body@, old(br).pos(), hint as int, Seq::empty());
            match d.end {
                Ok((q, last)) => r == Ok::<bool, Error>(last) && final(br).pos() == stop_at(q, last) && holds(
                    final(chunk),
                    cells + d.out,
                ) && old(br).pos() < final(br).pos() <= bit_len(body@),
                Err(e) => r == Err::<bool, Error>(Error::Deflate(e)),
            }
        }),
{
    proof {
        br.lemma_wf();
        let d = until_cells(body@, br.pos(), hint as int, Seq::empty());
        lemma_until_cells_advances(body@, br.pos(), hint as int, Seq::empty());
        lemma_markers_append(cells, d.out, 0);
    }
    let (new_end, hit_bfinal) = match wk.decode_until(body, br.tell_bit(), hint, chunk) {
        Ok(v) => v,
        Err(e) => {
            return Err(Error::Deflate(e));
        },
    };
    match br.seek_to_bit(new_end) {
        Ok(()) => Ok(hit_bfinal),
        Err(e) => Err(Error::Deflate(e)),
    }
}

/// Reads the trailer after a stream that ends where `br` stands, and the header
/// of the next member. Returns the boundary, after `produced` bytes of output,
/// and the byte at which the next stream starts, if there is one.
pub(crate) fn end_member(body: &[u8], br: &mut BitReader<'_>, produced: usize) -> (r: Result<
    (MemberBoundary, Option<usize>),
    Error,
>)
    requires
        old(br).wf(),
        old(br).stream() == body@,
    ensures
        final(br).wf(),
        final(br).stream() == body@,
        ({
            let t = align_up(old(br).pos()) / 8;
            if t + 8 > body@.len() {
                r == Err::<(MemberBoundary, Option<usize>), Error>(Error::Gzip(GzipError::Truncated))
            } else if t + 8 == body@.len() {
                r == Ok::<(MemberBoundary, Option<usize>), Error>((boundary_at(body@, t, produced as nat), None))
            } else {
                match header_len(body@.skip(t + 8)) {
                    Err(e) => r == Err::<(MemberBoundary, Option<usize>), Error>(Error::Gzip(e)),
                    Ok(h) => r is Ok && r->Ok_0.0 == boundary_at(body@, t, produced as nat) && r->Ok_0.1 is Some
                        && r->Ok_0.1->Some_0 == t + 8 + h && t + 8 + h <= body@.len(),
                }
            }
        }),
{
    br.byte_align();
    proof {
        br.lemma_wf();
    }
    let len: usize = body.len();
    let trailer_byte: usize = (br.tell_bit() / 8) as usize;
    if len - trailer_byte < 8 {
        return Err(Error::Gzip(GzipError::Truncated));
    }
    let boundary = MemberBoundary {
        byte_offset_in_chunk: produced,
        crc_expected: read_le32(body, trailer_byte),
        isize_expected: read_le32(body, trailer_byte + 4),
        trailer_input_byte: trailer_byte as u64,
    };
    let after_trailer: usize = trailer_byte + 8;
    if after_trailer >= len {
        return Ok((boundary, None));
    }
    let rest: &[u8] = vstd::slice::slice_subrange(body, after_trailer, len);
    assert(rest@ =~= body@.skip(after_trailer as int));
    proof {
        law_header_len_bounds(rest@);
    }
    match parse_header(rest) {
        Ok(h) => Ok((boundary, Some(after_trailer + h))),
        Err(e) => Err(Error::Gzip(e)),
    }
}

/// Decodes one chunk of `body`. `recycled` is a buffer to use again.
pub fn decode_one_chunk(body: &[u8], item: &WorkItem, wk: &mut WorkerKernel, recycled: Option<Vec<u8>>) -> (r: Result<
    WorkResult,
    Error,
>)
    requires
        addressable(body@),
    ensures
        match segment(body@, item.start_bit as int, item.end_bit_hint as int) {
            Ok(s) => r is Ok && r->Ok_0.id == item.id && decodes(r->Ok_0, s),
            Err(e) => r == Err::<WorkResult, Error>(e),
        },
{
    proof {
        reveal(segment);
    }
    let mut br = BitReader::new(body);
    match br.seek_to_bit(item.start_bit) {
        Ok(()) => {},
        Err(e) => {
            return Err(Error::Deflate(e));
        },
    }
    let mut chunk = SpeculativeChunk::new();
    if let Some(v) = recycled {
        let mut v = v;
        v.clear();
        chunk.bytes = v;
    }
    if item.end_bit_hint > item.start_bit && item.end_bit_hint - item.start_bit != u64::MAX {
        chunk.reserve_bytes(reserve_hint(item.end_bit_hint - item.start_bit));
    }
    let mut final_block: bool = false;
    let mut member_boundaries: Vec<MemberBoundary> = Vec::new();
    let ghost mut cells = Seq::<Cell>::empty();
    let ghost hint = item.end_bit_hint as int;
    let ghost whole = segment_from(body@, item.start_bit as int, hint, Seq::empty(), Seq::empty());
    let len: usize = body.len();
    assert(chunk.bytes@ =~= bytes_of(cells));
    assert(member_boundaries@ =~= Seq::<MemberBoundary>::empty());
    loop
        invariant_except_break
            !final_block,
            segment_from(body@, br.pos(), hint, cells, member_boundaries@) == whole,
        invariant
            br.wf(),
            br.stream() == body@,
            addressable(body@),
            len == body@.len(),
            hint == item.end_bit_hint,
            holds(&chunk, cells),
            item.start_bit <= bit_len(body@),
            whole == segment(body@, item.start_bit as int, hint),
        ensures
            whole == Ok::<Segment, Error>(
                Segment { cells, bounds: member_boundaries@, last: final_block, end: br.pos() },
            ),
        decreases bit_len(body@) - br.pos(),
    {
        let pos: u64 = br.tell_bit();
        proof {
            br.lemma_wf();
            lemma_segment_step(body@, pos as int, hint, cells, member_boundaries@);
        }
        if pos >= item.end_bit_hint {
            break;
        }
        let ghost d = until_cells(body@, br.pos(), hint, Seq::empty());
        let hit_bfinal: bool = match decode_stretch(body, &mut br, item.end_bit_hint, wk, &mut chunk, Ghost(cells)) {
            Ok(b) => b,
            Err(e) => {
                return Err(e);
            },
        };
        proof {
            cells = cells + d.out;
        }
        if !hit_bfinal {
            break;
        }
        let (boundary, next) = match end_member(body, &mut br, chunk.bytes.len()) {
            Ok(v) => v,
            Err(e) => {
                return Err(e);
            },
        };
        member_boundaries.push(boundary);
        match next {
            None => {
                final_block = true;
                match br.seek_to_bit(len as u64 * 8) {
                    Ok(()) => {},
                    Err(e) => {
                        return Err(Error::Deflate(e));
                    },
                }
                break;
            },
            Some(next_block_byte) => {
                proof {
                    lemma_next_member(body@, pos as int, hint);
                }
                match br.seek_to_bit(next_block_byte as u64 * 8) {
                    Ok(()) => {},
                    Err(e) => {
                        return Err(Error::Deflate(e));
                    },
                }
            },
        }
    }
    Ok(
        WorkResult {
            id: item.id,
            chunk,
            final_block,
            member_boundaries,
            actual_end_bit: br.tell_bit(),
        },
    )
}

/// The last 32 KiB of `s`, or all of it if it is shorter.
pub open spec fn last_window(s: Seq<u8>) -> Seq<u8> {
    if s.len() <= WINDOW {
        s
    } else {
        s.skip(s.len() - WINDOW)
    }
}

/// The output after the first `n` markers have been filled in from `prefix`,
/// where a marker that lies outside `prefix` leaves its byte as it is.
pub open spec fn patched_leniently(bytes: Seq<u8>, markers: Seq<Marker>, prefix: Seq<u8>, n: int) -> Seq<u8>
    decreases n,
{
    if n <= 0 {
        bytes
    } else {
        let m = markers[n - 1];
        let rest = patched_leniently(bytes, markers, prefix, n - 1);
        if m.prefix_offset < prefix.len() {
            rest.update(m.out_pos as int, prefix[prefix.len() - 1 - m.prefix_offset])
        } else {
            rest
        }
    }
}

/// Markers that point into `len` bytes, in ascending order of position.
pub open spec fn in_order(markers: Seq<Marker>, len: nat) -> bool {
    &&& forall|i: int| 0 <= i < markers.len() ==> (#[trigger] markers[i]).out_pos < len
    &&& forall|i: int, j: int| 0 <= i < j < markers.len() ==> (#[trigger] markers[i]).out_pos < (
    #[trigger] markers[j]).out_pos
}

proof fn lemma_patched_before(bytes: Seq<u8>, markers: Seq<Marker>, prefix: Seq<u8>, n: int, from: int)
    requires
        0 <= n <= markers.len(),
        0 <= from <= bytes.len(),
        forall|i: int| 0 <= i < n ==> (#[trigger] markers[i]).out_pos < from,
    ensures
        patched_leniently(bytes, markers, prefix, n).len() == bytes.len(),
        patched_leniently(bytes, markers, prefix, n).skip(from) == bytes.skip(from),
    decreases n,
{
    if n > 0 {
        lemma_patched_before(bytes, markers, prefix, n - 1, from);
        assert(patched_leniently(bytes, markers, prefix, n).skip(from) =~= patched_leniently(
            bytes,
            markers,
            prefix,
            n - 1,
        ).skip(from));
    }
}

/// The window for the next chunk: the last 32 KiB of the output so far,
/// without resolving the whole chunk.
pub fn build_prev_tail_fast(chunk: &SpeculativeChunk, prev_tail: &[u8]) -> (r: Vec<u8>)
    requires
        in_order(chunk.markers@, chunk.bytes@.len()),
    ensures
        r@ == last_window(
            prev_tail@ + patched_leniently(
                chunk.bytes@,
                chunk.markers@,
                prev_tail@,
                chunk.markers@.len() as int,
            ),
        ),
{
    let len: usize = chunk.bytes.len();
    let tail_start: usize = if len <= WINDOW {
        0
    } else {
        len - WINDOW
    };
    let ghost bytes = chunk.bytes@;
    let ghost markers = chunk.markers@;
    let first: usize = first_marker(&chunk.markers, tail_start);
    let mut new_tail: Vec<u8> = vstd::slice::slice_to_vec(
        vstd::slice::slice_subrange(chunk.bytes.as_slice(), tail_start, len),
    );
    let prev_len: usize = prev_tail.len();
    proof {
        lemma_patched_before(bytes, markers, prev_tail@, first as int, tail_start as int);
        assert(new_tail@ =~= bytes.skip(tail_start as int));
    }
    let mut i: usize = first;
    while i < chunk.markers.len()
        invariant
            first <= i <= markers.len(),
            bytes == chunk.bytes@,
            markers == chunk.markers@,
            len == bytes.len(),
            tail_start <= len,
            prev_len == prev_tail@.len(),
            in_order(markers, bytes.len()),
            forall|j: int| first <= j < markers.len() ==> (#[trigger] markers[j]).out_pos >= tail_start,
            patched_leniently(bytes, markers, prev_tail@, i as int).len() == len,
            new_tail@ == patched_leniently(bytes, markers, prev_tail@, i as int).skip(tail_start as int),
        decreases markers.len() - i,
    {
        let m: Marker = chunk.markers[i];
        let off: usize = m.prefix_offset as usize;
        if off < prev_len {
            new_tail.set(m.out_pos - tail_start, prev_tail[prev_len - 1 - off]);
        }
        assert(new_tail@ =~= patched_leniently(bytes, markers, prev_tail@, i + 1).skip(tail_start as int));
        i = i + 1;
    }
    let ghost all = patched_leniently(bytes, markers, prev_tail@, markers.len() as int);
    if len < WINDOW && prev_len > 0 {
        let need: usize = WINDOW - len;
        let from: usize = if prev_len <= need {
            0
        } else {
            prev_len - need
        };
        let mut combined: Vec<u8> = vstd::slice::slice_to_vec(
            vstd::slice::slice_subrange(prev_tail, from, prev_len),
        );
        combined.extend_from_slice(new_tail.as_slice());
        assert(all.skip(0) =~= all);
        assert(combined@ =~= last_window(prev_tail@ + all));
        return combined;
    }
    assert(new_tail@ =~= last_window(prev_tail@ + all));
    new_tail
}

} // verus!
