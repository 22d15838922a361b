//! Chunks with their own compressed bytes, anchored one after the other.
//!
//! A chunk that was cut at a false boundary is decoded again from where the one
//! before it ended, together with what follows it if its own bytes do not
//! suffice. So compressed bytes are kept until a chunk that holds them is anchored.
use std::collections::VecDeque;
use vstd::prelude::*;
use crate::Error;
use crate::agreement::{anchored, joined, law_all_agree, lemma_anchored_step};
use crate::chain::{
    ResolveDone, ResolveJob, chunk_views, filled_leniently, next_tail, outside_prefix, resolve_job, lemma_lenient,
    lemma_segment_shape,
};
use crate::checksum::lemma_crc32_empty;
use crate::deflate::DeflateError;
use crate::deflate::bits::{align_up, bit_len};
use crate::deflate::cells::{
    Cell, block_cells, filled, until_cells, within, lemma_block_cells_advances, lemma_until_cells_advances,
};
use crate::deflate::embed::{embedded, law_until_cells_embedded};
use crate::deflate::speculative::{bytes_of, holds, law_markers_ascend, law_resolve_fills};
use crate::gzip::{GzipError, header_len, le32, law_header_len_bounds};
use crate::members::{MemberTally, bounds_in_order, tally_chunk};
use crate::pipeline::{
    MemberBoundary, Segment, WorkItem, WorkResult, WorkerKernel, boundary_at, build_prev_tail_fast, decode_one_chunk,
    decodes, last_window, rebase, rebased, segment, segment_from, lemma_next_member, lemma_segment_step,
};
use crate::stream::{gunzip, law_header_stable};
use crate::streaming::{
    DecodeResult, Dispatcher, Item, Piece, all_read, are_cut, are_pieces, are_spaced, cut_reads, decode_item,
    decodes_piece, is_last_piece, is_piece, least_bits, piece_segment, piece_views, law_run_is_pieces,
};

verus! {

/// Where the chain of chunks stands: at bit `start` of the file, with the bytes
/// from there on that have come, after the window `tail`.
pub ghost struct Anchor {
    pub start: int,
    pub held: Seq<u8>,
    pub tail: Seq<u8>,
}

impl Anchor {
    pub open spec fn wf(self) -> bool {
        &&& 0 <= self.start
        &&& self.start % 8 <= bit_len(self.held)
        &&& 8 * (self.start / 8 + self.held.len()) <= u64::MAX
    }

    /// The piece goes on where the bytes that are held end, or before.
    pub open spec fn meets(self, piece: Piece) -> bool {
        &&& 0 <= piece.base <= self.start / 8 + self.held.len()
        &&& 8 * (piece.base + piece.bytes.len()) <= u64::MAX
        &&& 0 <= piece.start
        &&& !piece.last_region ==> piece.hint <= bit_len(piece.bytes)
        &&& piece.last_region ==> piece.hint == u64::MAX
    }

    /// The bytes that are held, with those of the piece.
    pub open spec fn extended(self, piece: Piece) -> Seq<u8> {
        let have = self.start / 8 + self.held.len();
        if piece.base + piece.bytes.len() <= have {
            self.held
        } else {
            self.held + piece.bytes.skip(have - piece.base)
        }
    }

    /// Where the chunk is meant to end, told by the bytes that are held.
    pub open spec fn hint(self, piece: Piece) -> int {
        if piece.last_region {
            u64::MAX as int
        } else {
            8 * piece.base + piece.hint - 8 * (self.start / 8)
        }
    }

    /// The piece starts where the chain stands, and what its own bytes decode to
    /// is what the file decodes to there.
    pub open spec fn takes(self, piece: Piece) -> bool {
        &&& self.start == 8 * piece.base + piece.start
        &&& piece.start < 8
        &&& piece.start <= bit_len(piece.bytes)
        &&& match piece_segment(piece) {
            Ok(s) => piece.last_region || !s.last,
            Err(_) => false,
        }
    }

    /// What the file decodes to from where the chain stands.
    pub open spec fn decoded(self, piece: Piece) -> Result<Segment, Error> {
        if self.takes(piece) {
            piece_segment(piece)
        } else {
            segment_from(self.extended(piece), self.start % 8, self.hint(piece), Seq::empty(), Seq::empty())
        }
    }
}

/// What a piece adds to the chain.
pub ghost enum Anchored {
    /// Nothing yet: more bytes are needed, or it lies behind.
    Wait,
    /// A chunk.
    Chunk(Segment),
    Fail(Error),
}

/// More input may change that there is too little of it.
pub open spec fn too_short(e: Error) -> bool {
    e == Error::Deflate(DeflateError::UnexpectedEof) || e == Error::Gzip(GzipError::Truncated)
}

/// What a piece adds to the chain.
pub open spec fn adds(a: Anchor, piece: Piece) -> Anchored {
    match a.decoded(piece) {
        Ok(s) => if piece.last_region {
            Anchored::Chunk(s)
        } else if s.last || s.end == a.start % 8 {
            Anchored::Wait
        } else {
            Anchored::Chunk(s)
        },
        Err(e) => if !piece.last_region && too_short(e) {
            Anchored::Wait
        } else {
            Anchored::Fail(e)
        },
    }
}

/// The chain after a piece.
pub open spec fn after_piece(a: Anchor, piece: Piece) -> Anchor {
    match adds(a, piece) {
        Anchored::Chunk(s) => Anchor {
            start: 8 * (a.start / 8) + s.end,
            held: a.extended(piece).skip(s.end / 8),
            tail: next_tail(a.tail, s.cells),
        },
        _ => Anchor { held: a.extended(piece), ..a },
    }
}

proof fn lemma_piece_shape(bytes: Seq<u8>, start: int, hint: int)
    requires
        0 <= start <= bit_len(bytes),
    ensures
        match segment_from(bytes, start, hint, Seq::empty(), Seq::empty()) {
            Ok(s) => {
                &&& within(s.cells, 32768)
                &&& s.cells.len() <= usize::MAX ==> bounds_in_order(s.bounds, s.cells.len())
                &&& start <= s.end <= bit_len(bytes)
                &&& s.last || s.end >= hint
            },
            Err(_) => true,
        },
{
    lemma_segment_shape(bytes, start, hint, Seq::empty(), Seq::empty());
}

/// What a worker made of a piece is what decoding it gives.
pub open spec fn honest_piece(piece: Piece, result: Result<DecodeResult, Error>) -> bool {
    match result {
        Ok(r) => decodes_piece(piece, r),
        Err(_) => piece_segment(piece) is Err,
    }
}

/// The chain of chunks that come with their own bytes.
pub struct PieceChain {
    start: u64,
    held: Vec<u8>,
    prev_tail: Vec<u8>,
    next_id: u64,
    wk: WorkerKernel,
}

impl PieceChain {
    pub closed spec fn anchor(&self) -> Anchor {
        Anchor { start: self.start as int, held: self.held@, tail: self.prev_tail@ }
    }

    /// The number of the next chunk that is handed on.
    pub closed spec fn next_id(&self) -> int {
        self.next_id as int
    }

    /// The chain before the first chunk, which starts at byte `body_offset` of the file.
    pub fn new(body_offset: u64) -> (c: PieceChain)
        requires
            8 * body_offset <= u64::MAX,
        ensures
            c.anchor().wf(),
            c.anchor() == first_anchor(body_offset as int),
            c.next_id() == 0,
    {
        let c = PieceChain {
            start: body_offset * 8,
            held: Vec::new(),
            prev_tail: Vec::new(),
            next_id: 0,
            wk: WorkerKernel::new(),
        };
        assert(c.held@ =~= Seq::<u8>::empty());
        assert(c.prev_tail@ =~= Seq::<u8>::empty());
        c
    }

    /// Takes the bytes of a piece in.
    fn extend(&mut self, item: &Item)
        requires
            old(self).anchor().wf(),
            old(self).anchor().meets(item@),
        ensures
            final(self).held@ == old(self).anchor().extended(item@),
            final(self).start == old(self).start,
            final(self).prev_tail == old(self).prev_tail,
            final(self).next_id == old(self).next_id,
            8 * (old(self).start / 8 + final(self).held@.len()) <= u64::MAX,
            final(self).held@.len() >= old(self).held@.len(),
    {
        let have: u64 = self.start / 8 + self.held.len() as u64;
        let to: u64 = item.base_byte + item.bytes.len() as u64;
        if to > have {
            let from: usize = (have - item.base_byte) as usize;
            self.held.extend_from_slice(vstd::slice::slice_subrange(item.bytes.as_slice(), from, item.bytes.len()));
            assert(self.held@ =~= old(self).held@ + item.bytes@.skip(from as int));
        }
    }

    /// Decodes the next chunk from the bytes that are held; nothing if they do
    /// not suffice, or if the chunk before reaches past it.
    fn decode_again(&mut self, item: &Item) -> (r: Result<Option<WorkResult>, Error>)
        requires
            old(self).start % 8 <= bit_len(old(self).held@),
            8 * (old(self).start / 8 + old(self).held@.len()) <= u64::MAX,
            !item.is_final_region ==> item.end_bit_hint <= bit_len(item.bytes@),
            item.is_final_region ==> item.end_bit_hint == u64::MAX,
            8 * (item.base_byte + item.bytes@.len()) <= u64::MAX,
        ensures
            final(self).held == old(self).held,
            final(self).start == old(self).start,
            final(self).prev_tail == old(self).prev_tail,
            final(self).next_id == old(self).next_id,
            match segment_from(
                old(self).held@,
                old(self).start as int % 8,
                old(self).anchor().hint(item@),
                Seq::empty(),
                Seq::empty(),
            ) {
                Ok(s) => if !item.is_final_region && (s.last || s.end == old(self).start % 8) {
                    r == Ok::<Option<WorkResult>, Error>(None)
                } else {
                    r is Ok && r->Ok_0 is Some && decodes(r->Ok_0->Some_0, s)
                },
                Err(e) => if !item.is_final_region && too_short(e) {
                    r == Ok::<Option<WorkResult>, Error>(None)
                } else {
                    r == Err::<Option<WorkResult>, Error>(e)
                },
            },
    {
        let base_bit: u64 = self.start / 8 * 8;
        let hint: u64 = if item.is_final_region {
            u64::MAX
        } else {
            let end: u64 = item.base_byte * 8 + item.end_bit_hint;
            if end <= self.start {
                proof {
                    lemma_segment_step(
                        self.held@,
                        self.start as int % 8,
                        self.anchor().hint(item@),
                        Seq::empty(),
                        Seq::empty(),
                    );
                }
                return Ok(None);
            }
            end - base_bit
        };
        proof {
            reveal(segment);
            lemma_piece_shape(self.held@, self.start as int % 8, hint as int);
        }
        let work = WorkItem { id: item.id, start_bit: self.start % 8, end_bit_hint: hint };
        match decode_one_chunk(self.held.as_slice(), &work, &mut self.wk, None) {
            Ok(res) => {
                if !item.is_final_region && (res.final_block || res.actual_end_bit == self.start % 8) {
                    return Ok(None);
                }
                Ok(Some(res))
            },
            Err(Error::Deflate(DeflateError::UnexpectedEof)) => {
                if item.is_final_region {
                    return Err(Error::Deflate(DeflateError::UnexpectedEof));
                }
                Ok(None)
            },
            Err(Error::Gzip(GzipError::Truncated)) => {
                if item.is_final_region {
                    return Err(Error::Gzip(GzipError::Truncated));
                }
                Ok(None)
            },
            Err(e) => Err(e),
        }
    }

    /// Anchors the next piece. `result` is what a worker made of it on its own; if
    /// it does not start where the chain stands, or its bytes did not suffice, it
    /// is dropped, and the chunk is decoded again from there.
    #[verifier::rlimit(40)]
    pub fn accept(&mut self, item: Item, result: Result<DecodeResult, Error>) -> (r: Result<Option<ResolveJob>, Error>)
        requires
            old(self).anchor().wf(),
            old(self).anchor().meets(item@),
            honest_piece(item@, result),
            old(self).next_id() < u64::MAX,
        ensures
            match adds(old(self).anchor(), item@) {
                Anchored::Fail(e) => r == Err::<Option<ResolveJob>, Error>(e),
                Anchored::Wait => {
                    &&& r == Ok::<Option<ResolveJob>, Error>(None)
                    &&& final(self).anchor() == after_piece(old(self).anchor(), item@)
                    &&& final(self).anchor().wf()
                    &&& final(self).next_id() == old(self).next_id()
                },
                Anchored::Chunk(s) => {
                    &&& r is Ok && r->Ok_0 is Some
                    &&& r->Ok_0->Some_0.id == old(self).next_id()
                    &&& holds(&r->Ok_0->Some_0.chunk, s.cells)
                    &&& r->Ok_0->Some_0.prev_tail@ == old(self).anchor().tail
                    &&& r->Ok_0->Some_0.member_boundaries@ == rebased(s.bounds, old(self).anchor().start / 8)
                    &&& r->Ok_0->Some_0.final_block == s.last
                    &&& final(self).anchor() == after_piece(old(self).anchor(), item@)
                    &&& final(self).anchor().wf()
                    &&& final(self).next_id() == old(self).next_id() + 1
                },
            },
    {
        let ghost a = self.anchor();
        let base: u64 = self.start / 8;
        let whole: u64 = item.bytes.len() as u64 * 8;
        proof {
            if item.start_bit <= whole {
                lemma_piece_shape(item.bytes@, item.start_bit as int, item.end_bit_hint as int);
            }
            lemma_segment_step(
                item.bytes@,
                item.start_bit as int,
                item.end_bit_hint as int,
                Seq::empty(),
                Seq::empty(),
            );
        }
        self.extend(&item);
        let mut own: Option<DecodeResult> = None;
        if item.start_bit < 8 && item.start_bit <= whole && self.start == item.base_byte * 8 + item.start_bit {
            if let Ok(res) = result {
                if item.is_final_region || !res.reached_end {
                    own = Some(res);
                }
            }
        }
        let (chunk, final_block, member_boundaries, end_bit) = match own {
            Some(res) => {
                assert(a.takes(item@));
                if !item.is_final_region && res.end_bit == item.start_bit {
                    return Ok(None);
                }
                (res.chunk, res.reached_end, res.member_boundaries, res.end_bit)
            },
            None => {
                assert(!a.takes(item@));
                match self.decode_again(&item) {
                    Ok(Some(res)) => {
                        let bounds: Vec<MemberBoundary> = rebase(res.member_boundaries.as_slice(), base);
                        (res.chunk, res.final_block, bounds, res.actual_end_bit)
                    },
                    Ok(None) => {
                        return Ok(None);
                    },
                    Err(e) => {
                        return Err(e);
                    },
                }
            },
        };
        let ghost s = a.decoded(item@)->Ok_0;
        let len: usize = chunk.bytes.len();
        proof {
            if !a.takes(item@) {
                lemma_piece_shape(self.held@, a.start % 8, a.hint(item@));
            }
            law_markers_ascend(s.cells, 0);
            lemma_lenient(s.cells, a.tail, Seq::empty());
            assert(bytes_of(s.cells) + Seq::<u8>::empty() =~= bytes_of(s.cells));
            assert(filled_leniently(s.cells, a.tail) + Seq::<u8>::empty() =~= filled_leniently(s.cells, a.tail));
        }
        let id: u64 = self.next_id;
        self.next_id = id + 1;
        let mut tail: Vec<u8> = build_prev_tail_fast(&chunk, self.prev_tail.as_slice());
        core::mem::swap(&mut self.prev_tail, &mut tail);
        let drop: usize = (end_bit / 8) as usize;
        let n: usize = self.held.len();
        let kept: Vec<u8> = vstd::slice::slice_to_vec(vstd::slice::slice_subrange(self.held.as_slice(), drop, n));
        assert(kept@ =~= self.held@.skip(drop as int));
        self.held = kept;
        self.start = base * 8 + end_bit;
        Ok(Some(ResolveJob { id, chunk, prev_tail: tail, final_block, member_boundaries }))
    }
}

/// The chain before the first chunk of a body that starts at byte `body_offset`.
pub open spec fn first_anchor(body_offset: int) -> Anchor {
    Anchor { start: 8 * body_offset, held: Seq::empty(), tail: Seq::empty() }
}

/// The chain with the tally of the current member.
pub ghost struct PieceLink {
    pub anchor: Anchor,
    pub tally: MemberTally,
}

/// What comes of a piece: the bytes that are handed on, if any, and whether the
/// file ends with them.
pub ghost enum PieceStep {
    Wait(PieceLink),
    Chunk(Seq<u8>, bool, PieceLink),
    Fail(Error),
}

/// What comes of a piece.
#[verifier::opaque]
pub open spec fn next_piece(l: PieceLink, piece: Piece) -> PieceStep {
    match adds(l.anchor, piece) {
        Anchored::Fail(e) => PieceStep::Fail(e),
        Anchored::Wait => PieceStep::Wait(PieceLink { anchor: after_piece(l.anchor, piece), ..l }),
        Anchored::Chunk(s) => if !within(s.cells, l.anchor.tail.len()) {
            PieceStep::Fail(Error::Deflate(outside_prefix()))
        } else {
            let bytes = filled(s.cells, l.anchor.tail);
            match tally_chunk(l.tally, bytes, rebased(s.bounds, l.anchor.start / 8)) {
                Err(e) => PieceStep::Fail(Error::Gzip(e)),
                Ok(tally) => PieceStep::Chunk(
                    bytes,
                    s.last,
                    PieceLink { anchor: after_piece(l.anchor, piece), tally },
                ),
            }
        },
    }
}

/// The state before the first piece.
pub open spec fn first_piece_link(body_offset: int) -> PieceLink {
    PieceLink { anchor: first_anchor(body_offset), tally: MemberTally { crc: 0, uncompressed: 0, index: 0 } }
}

/// Decodes pieces in order.
pub struct PieceDecoder {
    chain: PieceChain,
    tally: MemberTally,
    wk: WorkerKernel,
}

impl PieceDecoder {
    pub closed spec fn link(&self) -> PieceLink {
        PieceLink { anchor: self.chain.anchor(), tally: self.tally }
    }

    /// How many chunks have been handed on.
    pub closed spec fn handed_on(&self) -> int {
        self.chain.next_id()
    }

    /// A decoder of the pieces of a body that starts at byte `body_offset` of the file.
    pub fn new(body_offset: u64) -> (d: PieceDecoder)
        requires
            8 * body_offset <= u64::MAX,
        ensures
            d.link() == first_piece_link(body_offset as int),
            d.link().anchor.wf(),
            d.handed_on() == 0,
    {
        PieceDecoder { chain: PieceChain::new(body_offset), tally: MemberTally::new(), wk: WorkerKernel::new() }
    }

    /// Decodes, anchors, resolves and checks the next piece. Returns the bytes that
    /// it completes, if any, and whether the file ends with them.
    pub fn step(&mut self, item: Item) -> (r: Result<Option<(Vec<u8>, bool)>, Error>)
        requires
            old(self).link().anchor.wf(),
            old(self).link().anchor.meets(item@),
            old(self).handed_on() < u64::MAX,
        ensures
            match next_piece(old(self).link(), item@) {
                PieceStep::Fail(e) => r == Err::<Option<(Vec<u8>, bool)>, Error>(e),
                PieceStep::Wait(l) => {
                    &&& r == Ok::<Option<(Vec<u8>, bool)>, Error>(None)
                    &&& final(self).link() == l
                    &&& l.anchor.wf()
                    &&& final(self).handed_on() == old(self).handed_on()
                },
                PieceStep::Chunk(bytes, last, l) => {
                    &&& r is Ok && r->Ok_0 is Some
                    &&& r->Ok_0->Some_0.0@ == bytes
                    &&& r->Ok_0->Some_0.1 == last
                    &&& final(self).link() == l
                    &&& l.anchor.wf()
                    &&& final(self).handed_on() == old(self).handed_on() + 1
                },
            },
    {
        let ghost a = self.chain.anchor();
        let ghost piece = item@;
        proof {
            reveal(next_piece);
        }
        let result: Result<DecodeResult, Error> = decode_item(&item, &mut self.wk);
        let job: ResolveJob = match self.chain.accept(item, result) {
            Ok(Some(j)) => j,
            Ok(None) => {
                return Ok(None);
            },
            Err(e) => {
                return Err(e);
            },
        };
        let ghost s = a.decoded(piece)->Ok_0;
        let len: usize = job.chunk.bytes.len();
        proof {
            if a.takes(piece) {
                lemma_piece_shape(piece.bytes, piece.start, piece.hint);
            } else {
                lemma_piece_shape(a.extended(piece), a.start % 8, a.hint(piece));
            }
            law_markers_ascend(s.cells, 0);
            law_resolve_fills(s.cells, a.tail);
            assert(bounds_in_order(rebased(s.bounds, a.start / 8), len as nat));
        }
        let done: ResolveDone = match resolve_job(job) {
            Ok(d) => d,
            Err(e) => {
                return Err(e);
            },
        };
        match self.tally.check_chunk(done.bytes.as_slice(), done.member_boundaries.as_slice()) {
            Ok(()) => Ok(Some((done.bytes, done.final_block))),
            Err(e) => Err(Error::Gzip(e)),
        }
    }
}

/// Decodes pieces from number `i` on, after the `chunks` before them, up to the
/// one that the file ends with.
pub open spec fn streamed(pieces: Seq<Piece>, i: int, l: PieceLink, chunks: Seq<Seq<u8>>) -> Result<Seq<Seq<u8>>, Error>
    decreases pieces.len() - i,
{
    if i >= pieces.len() {
        Err(Error::Gzip(GzipError::Truncated))
    } else {
        match next_piece(l, pieces[i]) {
            PieceStep::Fail(e) => Err(e),
            PieceStep::Wait(next) => streamed(pieces, i + 1, next, chunks),
            PieceStep::Chunk(bytes, last, next) => if last {
                Ok(chunks.push(bytes))
            } else {
                streamed(pieces, i + 1, next, chunks.push(bytes))
            },
        }
    }
}

/// Bits after the end of the input are as good a hint as any other.
proof fn lemma_far_hints(input: Seq<u8>, p: int, h1: int, h2: int, cells: Seq<Cell>)
    requires
        h1 > bit_len(input),
        h2 > bit_len(input),
    ensures
        until_cells(input, p, h1, cells) == until_cells(input, p, h2, cells),
    decreases bit_len(input) - p,
{
    reveal(until_cells);
    lemma_block_cells_advances(input, p, cells);
    let b = block_cells(input, p, cells);
    if let Ok((q, last)) = b.end {
        if !last {
            lemma_far_hints(input, q, h1, h2, b.out);
        }
    }
}

/// A chunk, wherever it is meant to end after the end of the body.
proof fn lemma_far_segments(body: Seq<u8>, p: int, h1: int, h2: int, cells: Seq<Cell>, bounds: Seq<MemberBoundary>)
    requires
        0 <= p <= bit_len(body),
        h1 > bit_len(body),
        h2 > bit_len(body),
    ensures
        segment_from(body, p, h1, cells, bounds) == segment_from(body, p, h2, cells, bounds),
    decreases bit_len(body) - p,
{
    lemma_segment_step(body, p, h1, cells, bounds);
    lemma_segment_step(body, p, h2, cells, bounds);
    lemma_far_hints(body, p, h1, h2, Seq::empty());
    lemma_next_member(body, p, h1);
    let d = until_cells(body, p, h1, Seq::empty());
    lemma_until_cells_advances(body, p, h1, Seq::empty());
    if let Ok((q, true)) = d.end {
        let t = align_up(q) / 8;
        if t + 8 < body.len() {
            if let Ok(h) = header_len(body.skip(t + 8)) {
                let all = cells + d.out;
                let bounds1 = bounds.push(boundary_at(body, t, all.len()));
                lemma_far_segments(body, 8 * (t + 8 + h), h1, h2, all, bounds1);
            }
        }
    }
}

/// The end of a member inside a part of a body.
proof fn lemma_boundary_rebased(part: Seq<u8>, body: Seq<u8>, k: int, t: int, bounds: Seq<MemberBoundary>, n: nat)
    requires
        embedded(part, body, k),
        0 <= t,
        t + 8 <= part.len(),
        body.len() <= u64::MAX,
    ensures
        rebased(bounds.push(boundary_at(part, t, n)), k) == rebased(bounds, k).push(boundary_at(body, t + k, n)),
{
    assert(le32(part, t) == le32(body, t + k));
    assert(le32(part, t + 4) == le32(body, t + k + 4));
    assert(rebased(bounds.push(boundary_at(part, t, n)), k) =~= rebased(bounds, k).push(boundary_at(body, t + k, n)));
}

/// A chunk that a part of a body decodes to, moved to where the part stands.
pub open spec fn moved_segment(r: Result<Segment, Error>, k: int) -> Result<Segment, Error> {
    match r {
        Ok(s) => Ok(Segment { cells: s.cells, bounds: rebased(s.bounds, k), last: s.last, end: s.end + 8 * k }),
        Err(e) => Err(e),
    }
}

/// More input cannot change what came of a chunk.
pub open spec fn settled_segment(r: Result<Segment, Error>) -> bool {
    match r {
        Ok(s) => !s.last,
        Err(e) => !too_short(e),
    }
}

/// A chunk of a part of a body decodes as it does in the body, unless the part
/// ends too early.
proof fn lemma_segment_embedded(
    part: Seq<u8>,
    body: Seq<u8>,
    k: int,
    p: int,
    hint: int,
    cells: Seq<Cell>,
    bounds: Seq<MemberBoundary>,
)
    requires
        embedded(part, body, k),
        0 <= p,
        body.len() <= u64::MAX,
        settled_segment(segment_from(part, p, hint, cells, bounds)) || k + part.len() == body.len(),
    ensures
        segment_from(body, p + 8 * k, hint + 8 * k, cells, rebased(bounds, k)) == moved_segment(
            segment_from(part, p, hint, cells, bounds),
            k,
        ),
    decreases bit_len(part) - p,
{
    let w = p + 8 * k;
    lemma_segment_step(part, p, hint, cells, bounds);
    lemma_segment_step(body, w, hint + 8 * k, cells, rebased(bounds, k));
    if p < hint {
        let d = until_cells(part, p, hint, Seq::empty());
        law_until_cells_embedded(part, body, k, p, hint, Seq::empty());
        lemma_until_cells_advances(part, p, hint, Seq::empty());
        let all = cells + d.out;
        if let Ok((q, true)) = d.end {
            let t = align_up(q) / 8;
            assert(align_up(q + 8 * k) / 8 == t + k);
            if t + 8 <= part.len() {
                lemma_boundary_rebased(part, body, k, t, bounds, all.len());
                if t + 8 < part.len() {
                    let f = part.skip(t + 8);
                    law_header_len_bounds(f);
                    if k + part.len() == body.len() {
                        assert(f =~= body.skip(t + k + 8));
                    } else {
                        assert(body.skip(t + k + 8) =~= f + body.skip(k + part.len()));
                        law_header_stable(f, body.skip(k + part.len()));
                    }
                    if let Ok(h) = header_len(f) {
                        let p1 = 8 * (t + 8 + h);
                        assert(p1 + 8 * k == 8 * (t + k + 8 + h));
                        lemma_segment_embedded(
                            part,
                            body,
                            k,
                            p1,
                            hint,
                            all,
                            bounds.push(boundary_at(part, t, all.len())),
                        );
                    }
                }
            }
        }
    }
}

/// The same of a whole chunk, in a file whose body starts at byte `h`; of the last
/// one, wherever it is meant to end after the end of the file.
proof fn lemma_part_of_file(file: Seq<u8>, h: int, part: Seq<u8>, start: int, hint: int, last_region: bool)
    requires
        0 <= h <= start / 8,
        embedded(part, file, start / 8),
        start % 8 <= bit_len(part),
        bit_len(file) < u64::MAX,
        last_region ==> hint == u64::MAX && start / 8 + part.len() == file.len(),
        !last_region ==> settled_segment(segment_from(part, start % 8, hint, Seq::empty(), Seq::empty())),
    ensures
        segment(file.skip(h), start - 8 * h, if last_region { u64::MAX as int } else { hint + 8 * (start / 8 - h) })
            == moved_segment(segment_from(part, start % 8, hint, Seq::empty(), Seq::empty()), start / 8 - h),
{
    reveal(segment);
    let none = Seq::<MemberBoundary>::empty();
    let body = file.skip(h);
    let k = start / 8 - h;
    assert(part =~= body.subrange(k, k + part.len()));
    assert(rebased(none, k) =~= none);
    assert(start - 8 * h == start % 8 + 8 * k);
    lemma_segment_embedded(part, body, k, start % 8, hint, Seq::empty(), none);
    if last_region {
        lemma_far_segments(body, start - 8 * h, hint + 8 * k, hint, Seq::empty(), none);
    }
}

proof fn lemma_rebased_twice(bounds: Seq<MemberBoundary>, a: int, b: int)
    ensures
        rebased(rebased(bounds, a), b) == rebased(bounds, a + b),
{
    assert forall|i: int| 0 <= i < bounds.len() implies (#[trigger] rebased(rebased(bounds, a), b)[i])
        == rebased(bounds, a + b)[i] by {
        let t = bounds[i].trailer_input_byte as int;
        vstd::arithmetic::div_mod::lemma_add_mod_noop_right(b, a + t, 0x1_0000_0000_0000_0000);
    }
    assert(rebased(rebased(bounds, a), b) =~= rebased(bounds, a + b));
}

/// The chain stands in the file, with bytes of it up to byte `to` at least.
pub open spec fn holds_file(a: Anchor, file: Seq<u8>, h: int, to: int) -> bool {
    &&& a.wf()
    &&& h <= a.start / 8
    &&& embedded(a.held, file, a.start / 8)
    &&& to <= a.start / 8 + a.held.len()
}

/// The bytes that are held, with those of a piece of the file.
proof fn lemma_extended(a: Anchor, file: Seq<u8>, h: int, start: int, piece: Piece)
    requires
        holds_file(a, file, h, start / 8),
        0 <= start,
        piece.base == start / 8,
        embedded(piece.bytes, file, start / 8),
        bit_len(file) < u64::MAX,
    ensures
        embedded(a.extended(piece), file, a.start / 8),
        a.start / 8 + a.extended(piece).len() >= start / 8 + piece.bytes.len(),
        a.extended(piece).len() >= a.held.len(),
        a.start / 8 + a.extended(piece).len() <= file.len(),
{
    let e = a.extended(piece);
    let k = a.start / 8;
    assert(e =~= file.subrange(k, k + e.len()));
}

/// What a piece of a file decodes to, from where the chain stands, is what the
/// body of the file decodes to there, if more input cannot change it.
proof fn lemma_piece_decoded(a: Anchor, file: Seq<u8>, h: int, start: int, end: int, piece: Piece)
    requires
        bit_len(file) < u64::MAX,
        0 <= h <= file.len(),
        0 <= start,
        stands_for(file, start, end, piece),
        holds_file(a, file, h, start / 8),
    ensures
        a.meets(piece),
        piece.last_region || settled_segment(a.decoded(piece)) ==> segment(
            file.skip(h),
            a.start - 8 * h,
            hint_in_body(a, h, piece),
        ) == moved_segment(a.decoded(piece), a.start / 8 - h),
        match a.decoded(piece) {
            Ok(s) => a.start % 8 <= s.end <= bit_len(a.extended(piece)) && (piece.last_region ==> s.last),
            Err(_) => true,
        },
{
    if piece.last_region {
        assert(piece.bytes =~= file.subrange(start / 8, start / 8 + piece.bytes.len()));
    }
    lemma_extended(a, file, h, start, piece);
    let part = if a.takes(piece) {
        piece.bytes
    } else {
        a.extended(piece)
    };
    let hint = a.hint(piece);
    let seg = segment_from(part, a.start % 8, hint, Seq::empty(), Seq::empty());
    assert(a.decoded(piece) == seg);
    lemma_piece_shape(part, a.start % 8, hint);
    if piece.last_region || settled_segment(seg) {
        lemma_part_of_file(file, h, part, a.start, hint, piece.last_region);
    }
}

/// What a piece adds is decoded from a part of the file that starts where the chain
/// stands.
pub proof fn lemma_piece_part(a: Anchor, file: Seq<u8>, h: int, start: int, end: int, piece: Piece) -> (part: Seq<u8>)
    requires
        bit_len(file) < u64::MAX,
        0 <= h <= file.len(),
        0 <= start,
        stands_for(file, start, end, piece),
        holds_file(a, file, h, start / 8),
    ensures
        embedded(part, file, a.start / 8),
        0 <= a.start % 8 <= bit_len(part),
        a.decoded(piece) == segment_from(part, a.start % 8, a.hint(piece), Seq::empty(), Seq::empty()),
{
    if piece.last_region {
        assert(piece.bytes =~= file.subrange(start / 8, start / 8 + piece.bytes.len()));
    }
    lemma_extended(a, file, h, start, piece);
    if a.takes(piece) {
        piece.bytes
    } else {
        a.extended(piece)
    }
}

/// The piece stands for a part of the file.
pub open spec fn stands_for(file: Seq<u8>, start: int, end: int, piece: Piece) -> bool {
    if piece.last_region {
        is_last_piece(file, start, piece)
    } else {
        is_piece(file, start, end, piece)
    }
}

/// Where the chunk is meant to end, told by the body.
spec fn hint_in_body(a: Anchor, h: int, piece: Piece) -> int {
    if piece.last_region {
        u64::MAX as int
    } else {
        a.hint(piece) + 8 * (a.start / 8 - h)
    }
}

/// The chain after a piece still stands in the file.
proof fn lemma_after_piece(a: Anchor, file: Seq<u8>, h: int, start: int, end: int, piece: Piece)
    requires
        bit_len(file) < u64::MAX,
        0 <= h <= file.len(),
        0 <= start,
        stands_for(file, start, end, piece),
        !piece.last_region,
        holds_file(a, file, h, start / 8),
    ensures
        holds_file(after_piece(a, piece), file, h, end / 8),
{
    lemma_extended(a, file, h, start, piece);
    lemma_piece_decoded(a, file, h, start, end, piece);
    let n = after_piece(a, piece);
    let e = a.extended(piece);
    if let Anchored::Chunk(s) = adds(a, piece) {
        let at = n.start / 8;
        assert(n.start == 8 * (a.start / 8) + s.end);
        assert(at == a.start / 8 + s.end / 8 && n.start % 8 == s.end % 8);
        assert(n.held =~= file.subrange(at, at + n.held.len()));
    }
}

/// One piece of a file that decodes, wherever it was cut.
proof fn lemma_piece_step(
    file: Seq<u8>,
    h: int,
    start: int,
    end: int,
    piece: Piece,
    l: PieceLink,
    done: Seq<u8>,
    x: Seq<u8>,
    m: Seq<u8>,
    index: u32,
) -> (r: (Seq<u8>, Seq<u8>, u32))
    requires
        bit_len(file) < u64::MAX,
        0 <= h <= file.len(),
        0 <= start,
        stands_for(file, start, end, piece),
        holds_file(l.anchor, file, h, start / 8),
        anchored(file.skip(h), h, l.anchor.start - 8 * h, l.anchor.tail, l.tally, done, x, m, index),
    ensures
        l.anchor.meets(piece),
        ({
            let body = file.skip(h);
            let rest = crate::serial::serial_from(body, h, l.anchor.start - 8 * h, m, index);
            match next_piece(l, piece) {
                PieceStep::Fail(_) => false,
                PieceStep::Wait(n) => {
                    &&& !piece.last_region
                    &&& holds_file(n.anchor, file, h, end / 8)
                    &&& n.anchor.start == l.anchor.start
                    &&& n.anchor.tail == l.anchor.tail
                    &&& n.tally == l.tally
                },
                PieceStep::Chunk(bytes, last, n) => {
                    &&& piece.last_region == last
                    &&& last ==> done + bytes == x + m + rest.out
                    &&& !last ==> {
                        let after = crate::serial::serial_from(body, h, n.anchor.start - 8 * h, r.1, r.2);
                        &&& holds_file(n.anchor, file, h, end / 8)
                        &&& anchored(
                            body,
                            h,
                            n.anchor.start - 8 * h,
                            n.anchor.tail,
                            n.tally,
                            done + bytes,
                            r.0,
                            r.1,
                            r.2,
                        )
                        &&& r.0 + r.1 + after.out == x + m + rest.out
                    }
                },
            }
        }),
{
    reveal(next_piece);
    let a = l.anchor;
    let k = a.start / 8 - h;
    lemma_piece_decoded(a, file, h, start, end, piece);
    if !piece.last_region {
        lemma_after_piece(a, file, h, start, end, piece);
    }
    let r = lemma_anchored_step(
        file.skip(h),
        h,
        hint_in_body(a, h, piece),
        a.start - 8 * h,
        a.tail,
        l.tally,
        done,
        x,
        m,
        index,
    );
    if let Ok(s) = a.decoded(piece) {
        lemma_rebased_twice(s.bounds, k, h);
        if within(s.cells, a.tail.len()) {
            assert(filled_leniently(s.cells, a.tail) =~= filled(s.cells, a.tail));
        }
    }
    r
}

proof fn lemma_streamed(
    file: Seq<u8>,
    h: int,
    cuts: Seq<u64>,
    pieces: Seq<Piece>,
    i: int,
    l: PieceLink,
    chunks: Seq<Seq<u8>>,
    x: Seq<u8>,
    m: Seq<u8>,
    index: u32,
)
    requires
        bit_len(file) < u64::MAX,
        0 <= h <= file.len(),
        are_pieces(file, cuts, pieces),
        0 <= i < cuts.len(),
        holds_file(l.anchor, file, h, cuts[i] as int / 8),
        anchored(file.skip(h), h, l.anchor.start - 8 * h, l.anchor.tail, l.tally, joined(chunks), x, m, index),
    ensures
        streamed(pieces, i, l, chunks) is Ok,
        joined(streamed(pieces, i, l, chunks)->Ok_0) == x + m + crate::serial::serial_from(
            file.skip(h),
            h,
            l.anchor.start - 8 * h,
            m,
            index,
        ).out,
    decreases cuts.len() - i,
{
    let j = i + 1;
    let end = if j < cuts.len() {
        assert(is_piece(file, cuts[i] as int, cuts[j] as int, pieces[i]));
        cuts[j] as int
    } else {
        assert(cuts[i] == cuts.last() && pieces[i] == pieces.last());
        0
    };
    let r = lemma_piece_step(file, h, cuts[i] as int, end, pieces[i], l, joined(chunks), x, m, index);
    match next_piece(l, pieces[i]) {
        PieceStep::Wait(n) => {
            lemma_streamed(file, h, cuts, pieces, j, n, chunks, x, m, index);
        },
        PieceStep::Chunk(bytes, last, n) => {
            assert(chunks.push(bytes).drop_last() =~= chunks);
            if !last {
                lemma_streamed(file, h, cuts, pieces, j, n, chunks.push(bytes), r.0, r.1, r.2);
            }
        },
        _ => {},
    }
}

/// A file that decodes, cut into pieces as it comes in, decodes to its bytes piece
/// by piece, wherever it is cut: at true block boundaries or at false ones.
pub proof fn law_streamed_is_gunzip(file: Seq<u8>, cuts: Seq<u64>, pieces: Seq<Piece>)
    requires
        gunzip(file).end is Ok,
        gunzip(file).out.len() <= usize::MAX,
        bit_len(file) < u64::MAX,
        are_pieces(file, cuts, pieces),
        cuts[0] == 8 * header_len(file)->Ok_0,
    ensures
        ({
            let r = streamed(pieces, 0, first_piece_link(header_len(file)->Ok_0), Seq::empty());
            r is Ok && joined(r->Ok_0) == gunzip(file).out
        }),
{
    law_all_agree(file, Seq::empty());
    law_header_len_bounds(file);
    let h = header_len(file)->Ok_0;
    let e = Seq::<u8>::empty();
    assert(e + e =~= e);
    assert(last_window(e + e) =~= e);
    assert(e =~= file.subrange(h, h));
    lemma_crc32_empty();
    assert(joined(Seq::<Seq<u8>>::empty()) == e);
    lemma_streamed(file, h, cuts, pieces, 0, first_piece_link(h), Seq::empty(), e, e, 0);
    assert(e + e + gunzip(file).out =~= gunzip(file).out);
}

/// A file that decodes decodes to its bytes from the chunks of a whole run of a
/// dispatcher.
pub proof fn law_dispatched_is_gunzip(d: &Dispatcher)
    requires
        d.wf(),
        d.finished(),
        gunzip(d.file()).end is Ok,
        gunzip(d.file()).out.len() <= usize::MAX,
        bit_len(d.file()) < u64::MAX,
    ensures
        ({
            let r = streamed(d.pieces(), 0, first_piece_link(header_len(d.file())->Ok_0), Seq::empty());
            r is Ok && joined(r->Ok_0) == gunzip(d.file()).out
        }),
{
    law_run_is_pieces(d);
    law_streamed_is_gunzip(d.file(), d.cuts(), d.pieces());
}

/// The next piece of a file meets the chain, which stands in the file after it too.
pub proof fn lemma_piece_meets(
    file: Seq<u8>,
    h: int,
    cuts: Seq<u64>,
    pieces: Seq<Piece>,
    i: int,
    l: PieceLink,
    chunks: Seq<Seq<u8>>,
)
    requires
        bit_len(file) < u64::MAX,
        0 <= h <= file.len(),
        are_pieces(file, cuts, pieces),
        0 <= i < pieces.len(),
        holds_file(l.anchor, file, h, cuts[i] as int / 8),
    ensures
        l.anchor.wf(),
        l.anchor.meets(pieces[i]),
        match next_piece(l, pieces[i]) {
            PieceStep::Fail(e) => streamed(pieces, i, l, chunks) == Err::<Seq<Seq<u8>>, Error>(e),
            PieceStep::Wait(n) => {
                &&& i + 1 < pieces.len() ==> holds_file(n.anchor, file, h, cuts[i + 1] as int / 8)
                &&& streamed(pieces, i, l, chunks) == streamed(pieces, i + 1, n, chunks)
            },
            PieceStep::Chunk(bytes, last, n) => {
                &&& i + 1 < pieces.len() ==> holds_file(n.anchor, file, h, cuts[i + 1] as int / 8)
                &&& streamed(pieces, i, l, chunks) == if last {
                    Ok(chunks.push(bytes))
                } else {
                    streamed(pieces, i + 1, n, chunks.push(bytes))
                }
            },
        },
{
    reveal(next_piece);
    let j = i + 1;
    let end = if j < cuts.len() {
        assert(is_piece(file, cuts[i] as int, cuts[j] as int, pieces[i]));
        cuts[j] as int
    } else {
        assert(cuts[i] == cuts.last() && pieces[i] == pieces.last());
        0
    };
    lemma_piece_decoded(l.anchor, file, h, cuts[i] as int, end, pieces[i]);
    if j < cuts.len() {
        lemma_after_piece(l.anchor, file, h, cuts[i] as int, end, pieces[i]);
    }
}

/// Decodes the pieces of a file whose body starts at byte `body_offset`.
fn decode_pieces(
    items: VecDeque<Item>,
    body_offset: u64,
    Ghost(file): Ghost<Seq<u8>>,
    Ghost(cuts): Ghost<Seq<u64>>,
) -> (r: Result<Vec<Vec<u8>>, Error>)
    requires
        bit_len(file) < u64::MAX,
        body_offset <= file.len(),
        are_pieces(file, cuts, piece_views(items@)),
        cuts[0] == 8 * body_offset,
    ensures
        match streamed(piece_views(items@), 0, first_piece_link(body_offset as int), Seq::empty()) {
            Ok(chunks) => r is Ok && chunk_views(r->Ok_0@) == chunks,
            Err(e) => r == Err::<Vec<Vec<u8>>, Error>(e),
        },
{
    let ghost pieces = piece_views(items@);
    let ghost h = body_offset as int;
    let ghost mut i: int = 0;
    let n: usize = items.len();
    let mut left: VecDeque<Item> = items;
    let mut decoder = PieceDecoder::new(body_offset);
    let mut chunks: Vec<Vec<u8>> = Vec::new();
    proof {
        assert(Seq::<u8>::empty() =~= file.subrange(h, h));
        assert(chunk_views(chunks@) =~= Seq::<Seq<u8>>::empty());
        assert(piece_views(left@) =~= pieces.skip(0));
    }
    loop
        invariant
            bit_len(file) < u64::MAX,
            0 <= h <= file.len(),
            are_pieces(file, cuts, pieces),
            0 <= i <= pieces.len(),
            pieces == piece_views(items@),
            piece_views(left@) == pieces.skip(i),
            h == body_offset,
            i < pieces.len() ==> holds_file(decoder.link().anchor, file, h, cuts[i] as int / 8),
            decoder.handed_on() <= i,
            pieces.len() == n,
            streamed(pieces, i, decoder.link(), chunk_views(chunks@)) == streamed(
                pieces,
                0,
                first_piece_link(h),
                Seq::empty(),
            ),
        decreases pieces.len() - i,
    {
        let ghost l = decoder.link();
        let ghost before = chunks@;
        let ghost was = left@;
        let item: Item = match left.pop_front() {
            Some(item) => item,
            None => {
                assert(pieces.skip(i).len() == 0);
                return Err(Error::Gzip(GzipError::Truncated));
            },
        };
        proof {
            assert(piece_views(was).len() == pieces.len() - i);
            assert(item@ == piece_views(was)[0]);
            assert forall|x: int| 0 <= x < left@.len() implies (#[trigger] piece_views(left@)[x]) == pieces.skip(
                i + 1,
            )[x] by {
                assert(left@[x] == was[x + 1]);
                assert(piece_views(was)[x + 1] == pieces.skip(i)[x + 1]);
            }
            assert(piece_views(left@) =~= pieces.skip(i + 1));
            lemma_piece_meets(file, h, cuts, pieces, i, l, chunk_views(chunks@));
            i = i + 1;
        }
        match decoder.step(item) {
            Ok(Some((bytes, last))) => {
                chunks.push(bytes);
                assert(chunk_views(chunks@) =~= chunk_views(before).push(bytes@));
                if last {
                    return Ok(chunks);
                }
            },
            Ok(None) => {},
            Err(e) => {
                return Err(e);
            },
        }
    }
}

/// Decodes a file that comes in as `reads`, cut into chunks of at least
/// `chunk_bytes` compressed bytes. A file that decodes in order decodes to the same
/// bytes, however it comes in and wherever it is cut.
pub fn decode_reads(reads: &[Vec<u8>], chunk_bytes: usize) -> (r: Result<Vec<Vec<u8>>, Error>)
    requires
        chunk_bytes <= u64::MAX / 16,
        all_read(reads@).len() <= u64::MAX / 32,
    ensures
        match header_len(all_read(reads@)) {
            Err(e) => r == Err::<Vec<Vec<u8>>, Error>(Error::Gzip(e)),
            Ok(h) => exists|pieces: Seq<Piece>|
                #[trigger] are_cut(
                    all_read(reads@),
                    h,
                    least_bits(chunk_bytes),
                    pieces,
                ) && match streamed(pieces, 0, first_piece_link(h), Seq::empty()) {
                    Ok(chunks) => r is Ok && chunk_views(r->Ok_0@) == chunks,
                    Err(e) => r == Err::<Vec<Vec<u8>>, Error>(e),
                },
        },
        gunzip(all_read(reads@)).end is Ok && gunzip(all_read(reads@)).out.len() <= usize::MAX ==> r is Ok && joined(
            chunk_views(r->Ok_0@),
        ) == gunzip(all_read(reads@)).out,
{
    let ghost file = all_read(reads@);
    proof {
        if gunzip(file).end is Ok {
            law_all_agree(file, Seq::empty());
        }
    }
    let items: VecDeque<Item> = match cut_reads(reads, chunk_bytes) {
        Ok(v) => v,
        Err(e) => {
            return Err(e);
        },
    };
    let ghost h = header_len(file)->Ok_0;
    let ghost step = least_bits(chunk_bytes);
    let ghost pieces = piece_views(items@);
    let ghost cuts = choose|cuts: Seq<u64>| #[trigger]
        are_pieces(file, cuts, pieces) && cuts[0] == 8 * h && are_spaced(cuts, step);
    proof {
        law_header_len_bounds(file);
        assert(are_cut(file, h, step, pieces));
        if cuts.len() > 1 {
            assert(is_piece(file, cuts[0] as int, cuts[1] as int, pieces[0]));
        } else {
            assert(cuts[0] == cuts.last() && pieces[0] == pieces.last());
        }
        if gunzip(file).end is Ok && gunzip(file).out.len() <= usize::MAX {
            law_streamed_is_gunzip(file, cuts, pieces);
        }
    }
    let body_offset: u64 = items[0].base_byte;
    decode_pieces(items, body_offset, Ghost(file), Ghost(cuts))
}

} // verus!
