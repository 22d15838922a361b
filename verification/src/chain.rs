//! Anchoring chunks one after the other.
use vstd::prelude::*;
use crate::Error;
use crate::deflate::DeflateError;
use crate::deflate::bit_reader::addressable;
use crate::deflate::bits::{align_up, bit_len};
use crate::deflate::cells::{Cell, within, filled, until_cells, lemma_until_cells_advances, lemma_until_cells_window};
use crate::deflate::speculative::{
    SpeculativeChunk, Marker, bytes_of, markers_of, patched, resolvable, holds, resolve_markers, law_markers_ascend,
    law_resolve_fills,
};
use crate::gzip::{GzipError, header_len};
use crate::members::{MemberTally, tally_chunk, bounds_in_order};
use crate::pipeline::{
    Segment, MemberBoundary, WorkItem, WorkResult, WorkerKernel, segment, segment_from, decodes, boundary_at,
    decode_one_chunk, build_prev_tail_fast, last_window, rebase, rebased, patched_leniently, in_order,
    lemma_next_member,
};
use crate::schedule::{work_items, items_of};

verus! {

/// What became of a work item.
pub struct WorkOutcome {
    pub id: u64,
    pub start_bit: u64,
    pub end_bit_hint: u64,
    pub result: Result<WorkResult, Error>,
}

/// The outcome is that of decoding the chunk from the bit that it names.
pub open spec fn honest(body: Seq<u8>, o: WorkOutcome) -> bool {
    match segment(body, o.start_bit as int, o.end_bit_hint as int) {
        Ok(s) => o.result is Ok && o.result->Ok_0.id == o.id && decodes(o.result->Ok_0, s),
        Err(_) => o.result is Err,
    }
}

/// An anchored chunk, and the window that its markers are resolved from.
pub struct ResolveJob {
    pub id: u64,
    pub chunk: SpeculativeChunk,
    pub prev_tail: Vec<u8>,
    pub final_block: bool,
    pub member_boundaries: Vec<MemberBoundary>,
}

/// A chunk whose bytes are known.
pub struct ResolveDone {
    pub id: u64,
    pub bytes: Vec<u8>,
    pub final_block: bool,
    pub member_boundaries: Vec<MemberBoundary>,
}

/// The bytes of cells, with 0 for what lies before the prefix.
pub open spec fn filled_leniently(cells: Seq<Cell>, prefix: Seq<u8>) -> Seq<u8> {
    Seq::new(
        cells.len(),
        |i: int|
            match cells[i] {
                Cell::Byte(b) => b,
                Cell::Before(k) => if k < prefix.len() {
                    prefix[prefix.len() - 1 - k]
                } else {
                    0u8
                },
            },
    )
}

/// The window after a chunk that follows the window `tail`.
pub open spec fn next_tail(tail: Seq<u8>, cells: Seq<Cell>) -> Seq<u8> {
    last_window(tail + filled_leniently(cells, tail))
}

proof fn lemma_lenient_prefix(bytes: Seq<u8>, markers: Seq<Marker>, m: Marker, prefix: Seq<u8>, n: int)
    requires
        0 <= n <= markers.len(),
    ensures
        patched_leniently(bytes, markers.push(m), prefix, n) == patched_leniently(bytes, markers, prefix, n),
    decreases n,
{
    if n > 0 {
        lemma_lenient_prefix(bytes, markers, m, prefix, n - 1);
    }
}

pub proof fn lemma_lenient(cells: Seq<Cell>, prefix: Seq<u8>, suffix: Seq<u8>)
    requires
        cells.len() <= usize::MAX,
        within(cells, 32768),
    ensures
        patched_leniently(
            bytes_of(cells) + suffix,
            markers_of(cells, 0),
            prefix,
            markers_of(cells, 0).len() as int,
        ) == filled_leniently(cells, prefix) + suffix,
    decreases cells.len(),
{
    if cells.len() == 0 {
        assert(bytes_of(cells) + suffix =~= filled_leniently(cells, prefix) + suffix);
    } else {
        let c1 = cells.drop_last();
        let x = bytes_of(cells).last();
        let rest = markers_of(c1, 0);
        assert(within(c1, 32768));
        assert(bytes_of(cells) + suffix =~= bytes_of(c1) + (seq![x] + suffix));
        lemma_lenient(c1, prefix, seq![x] + suffix);
        match cells.last() {
            Cell::Byte(b) => {
                assert(filled_leniently(c1, prefix) + (seq![x] + suffix) =~= filled_leniently(cells, prefix) + suffix);
            },
            Cell::Before(k) => {
                assert(cells[cells.len() - 1] == cells.last());
                let m = Marker { out_pos: (0 + cells.len() - 1) as usize, prefix_offset: k as u16 };
                lemma_lenient_prefix(bytes_of(cells) + suffix, rest, m, prefix, rest.len() as int);
                if k < prefix.len() {
                    assert((filled_leniently(c1, prefix) + (seq![x] + suffix)).update(
                        cells.len() - 1,
                        prefix[prefix.len() - 1 - k],
                    ) =~= filled_leniently(cells, prefix) + suffix);
                } else {
                    assert(filled_leniently(c1, prefix) + (seq![x] + suffix) =~= filled_leniently(cells, prefix)
                        + suffix);
                }
            },
        }
    }
}

/// What holds of every chunk: its cells reach no farther than the window, its
/// members end in order inside it, and a last chunk ends with the body.
pub proof fn lemma_segment_shape(body: Seq<u8>, p: int, hint: int, cells: Seq<Cell>, bounds: Seq<MemberBoundary>)
    requires
        0 <= p <= bit_len(body),
        within(cells, 32768),
        cells.len() <= usize::MAX ==> bounds_in_order(bounds, cells.len()),
    ensures
        match segment_from(body, p, hint, cells, bounds) {
            Ok(s) => {
                &&& within(s.cells, 32768)
                &&& s.cells.len() >= cells.len()
                &&& s.cells.len() <= usize::MAX ==> bounds_in_order(s.bounds, s.cells.len())
                &&& p <= s.end <= bit_len(body)
                &&& s.last || s.end >= hint
                &&& s.last ==> s.end == bit_len(body) && s.bounds.len() > 0 && (body.len() <= u64::MAX
                    ==> s.bounds.last().trailer_input_byte + 8 == body.len())
            },
            Err(_) => true,
        },
    decreases bit_len(body) - p,
{
    reveal(segment_from);
    lemma_next_member(body, p, hint);
    lemma_until_cells_advances(body, p, hint, Seq::empty());
    lemma_until_cells_window(body, p, hint, Seq::empty());
    if p < hint {
        let d = until_cells(body, p, hint, Seq::empty());
        let all = cells + d.out;
        assert(within(all, 32768));
        if let Ok((q, last)) = d.end {
            if last {
                let t = align_up(q) / 8;
                let bounds1 = bounds.push(boundary_at(body, t, all.len()));
                if t + 8 < body.len() {
                    if let Ok(h) = header_len(body.skip(t + 8)) {
                        lemma_segment_shape(body, 8 * (t + 8 + h), hint, all, bounds1);
                    }
                }
            }
        }
    }
}

/// The same of a whole chunk.
pub proof fn law_segment_shape(body: Seq<u8>, p: int, hint: int)
    requires
        0 <= p,
    ensures
        match segment(body, p, hint) {
            Ok(s) => {
                &&& within(s.cells, 32768)
                &&& s.cells.len() <= usize::MAX ==> bounds_in_order(s.bounds, s.cells.len())
                &&& p <= s.end <= bit_len(body)
                &&& s.last || s.end >= hint
                &&& s.last ==> s.end == bit_len(body) && s.bounds.len() > 0 && (body.len() <= u64::MAX
                    ==> s.bounds.last().trailer_input_byte + 8 == body.len())
            },
            Err(_) => true,
        },
{
    reveal(segment);
    if p <= bit_len(body) {
        lemma_segment_shape(body, p, hint, Seq::empty(), Seq::empty());
    }
}

/// The chain of anchored chunks: where the next one starts, and the window before it.
pub struct ChunkChain {
    pub expected_start: u64,
    pub prev_tail: Vec<u8>,
    /// Chunks that were cut at a false boundary.
    pub spec_failures: u64,
}

impl ChunkChain {
    /// The chain before the first chunk.
    pub fn new() -> (c: ChunkChain)
        ensures
            c.expected_start == 0,
            c.prev_tail@ == Seq::<u8>::empty(),
            c.spec_failures == 0,
    {
        ChunkChain { expected_start: 0, prev_tail: Vec::new(), spec_failures: 0 }
    }

    /// Anchors the next chunk. An outcome that failed, or that does not start
    /// where the chain stands, is dropped, and the chunk is decoded again from
    /// there: the result does not depend on it.
    pub fn accept(&mut self, body: &[u8], outcome: WorkOutcome, wk: &mut WorkerKernel) -> (r: Result<ResolveJob, Error>)
        requires
            addressable(body@),
            honest(body@, outcome),
            old(self).spec_failures < u64::MAX,
        ensures
            match segment(body@, old(self).expected_start as int, outcome.end_bit_hint as int) {
                Ok(s) => {
                    &&& r is Ok
                    &&& r->Ok_0.id == outcome.id
                    &&& holds(&r->Ok_0.chunk, s.cells)
                    &&& r->Ok_0.member_boundaries@ == s.bounds
                    &&& r->Ok_0.final_block == s.last
                    &&& r->Ok_0.prev_tail@ == old(self).prev_tail@
                    &&& final(self).expected_start == s.end
                    &&& final(self).prev_tail@ == next_tail(old(self).prev_tail@, s.cells)
                },
                Err(e) => r == Err::<ResolveJob, Error>(e),
            },
            final(self).spec_failures == old(self).spec_failures + if outcome.start_bit == old(self).expected_start
                && outcome.result is Ok {
                0int
            } else {
                1int
            },
    {
        let WorkOutcome { id, start_bit, end_bit_hint, result } = outcome;
        let hit: bool = start_bit == self.expected_start && result.is_ok();
        let res: WorkResult = if hit {
            match result {
                Ok(r) => r,
                Err(e) => {
                    return Err(e);
                },
            }
        } else {
            self.spec_failures = self.spec_failures + 1;
            let corrected = WorkItem { id, start_bit: self.expected_start, end_bit_hint };
            match decode_one_chunk(body, &corrected, wk, None) {
                Ok(r) => r,
                Err(e) => {
                    return Err(e);
                },
            }
        };
        let ghost s = segment(body@, self.expected_start as int, end_bit_hint as int)->Ok_0;
        let len: usize = res.chunk.bytes.len();
        proof {
            law_segment_shape(body@, self.expected_start as int, end_bit_hint as int);
            law_markers_ascend(s.cells, 0);
            lemma_lenient(s.cells, self.prev_tail@, Seq::empty());
            assert(bytes_of(s.cells) + Seq::<u8>::empty() =~= bytes_of(s.cells));
            assert(filled_leniently(s.cells, self.prev_tail@) + Seq::<u8>::empty() =~= filled_leniently(
                s.cells,
                self.prev_tail@,
            ));
        }
        self.expected_start = res.actual_end_bit;
        let mut tail: Vec<u8> = build_prev_tail_fast(&res.chunk, self.prev_tail.as_slice());
        core::mem::swap(&mut self.prev_tail, &mut tail);
        Ok(
            ResolveJob {
                id: res.id,
                chunk: res.chunk,
                prev_tail: tail,
                final_block: res.final_block,
                member_boundaries: res.member_boundaries,
            },
        )
    }
}

/// Resolves the markers of an anchored chunk.
pub fn resolve_job(job: ResolveJob) -> (r: Result<ResolveDone, Error>)
    requires
        in_order(job.chunk.markers@, job.chunk.bytes@.len()),
    ensures
        ({
            let n = resolvable(job.chunk.markers@, job.prev_tail@.len());
            if n == job.chunk.markers@.len() {
                &&& r is Ok
                &&& r->Ok_0.id == job.id
                &&& r->Ok_0.bytes@ == patched(job.chunk.bytes@, job.chunk.markers@, job.prev_tail@, n)
                &&& r->Ok_0.final_block == job.final_block
                &&& r->Ok_0.member_boundaries@ == job.member_boundaries@
            } else {
                r == Err::<ResolveDone, Error>(Error::Deflate(outside_prefix()))
            }
        }),
{
    let ResolveJob { id, chunk, prev_tail, final_block, member_boundaries } = job;
    let mut chunk = chunk;
    proof {
        crate::deflate::speculative::lemma_resolvable_bound(chunk.markers@, prev_tail@.len());
    }
    match resolve_markers(&mut chunk, prev_tail.as_slice()) {
        Ok(()) => Ok(ResolveDone { id, bytes: chunk.bytes, final_block, member_boundaries }),
        Err(e) => Err(Error::Deflate(e)),
    }
}

/// The error of a marker that lies before all output.
pub open spec fn outside_prefix() -> DeflateError {
    DeflateError::Invalid("marker references bytes outside the available prefix window")
}

/// What a body decodes to, chunk by chunk.
pub struct Chained {
    pub chunks: Seq<Seq<u8>>,
    pub consumed: int,
    pub failures: int,
}

/// The state between two chunks: where the next one starts, the window before
/// it, the tally of the current member or the first member that failed, the
/// chunks so far, and how many were cut at a false boundary.
pub struct Link {
    pub start: int,
    pub tail: Seq<u8>,
    pub tally: Result<MemberTally, GzipError>,
    pub chunks: Seq<Seq<u8>>,
    pub failures: int,
}

/// Chunk `item` was cut at a false boundary: the chain does not reach its
/// start, or nothing can be decoded there.
pub open spec fn false_boundary(body: Seq<u8>, item: WorkItem, start: int) -> bool {
    item.start_bit != start || segment(body, item.start_bit as int, item.end_bit_hint as int) is Err
}

/// The state after a chunk that decodes to `s`.
pub open spec fn next_link(body: Seq<u8>, offset: int, item: WorkItem, l: Link, s: Segment) -> Link {
    let bytes = filled(s.cells, l.tail);
    Link {
        start: s.end,
        tail: last_window(l.tail + bytes),
        tally: match l.tally {
            Ok(t) => tally_chunk(t, bytes, rebased(s.bounds, offset)),
            Err(e) => Err(e),
        },
        chunks: l.chunks.push(bytes),
        failures: l.failures + if false_boundary(body, item, l.start) { 1int } else { 0int },
    }
}

/// Decodes the chunks from number `i` on of a body that starts at byte `offset` of
/// the file. Errors of decoding come before errors of members.
#[verifier::opaque]
pub open spec fn chain(body: Seq<u8>, offset: int, items: Seq<WorkItem>, i: int, l: Link) -> Result<Chained, Error>
    decreases items.len() - i,
{
    if i >= items.len() {
        Err(Error::Gzip(GzipError::Truncated))
    } else {
        match segment(body, l.start, items[i].end_bit_hint as int) {
            Err(e) => Err(e),
            Ok(s) => if !within(s.cells, l.tail.len()) {
                Err(Error::Deflate(outside_prefix()))
            } else {
                let n = next_link(body, offset, items[i], l, s);
                if s.last {
                    match n.tally {
                        Err(e) => Err(Error::Gzip(e)),
                        Ok(_) => Ok(Chained { chunks: n.chunks, consumed: s.end / 8, failures: n.failures }),
                    }
                } else {
                    chain(body, offset, items, i + 1, n)
                }
            },
        }
    }
}

/// The state before the first chunk.
pub open spec fn first_link() -> Link {
    Link {
        start: 0,
        tail: Seq::empty(),
        tally: Ok(MemberTally { crc: 0, uncompressed: 0, index: 0 }),
        chunks: Seq::empty(),
        failures: 0,
    }
}

/// A body, decoded chunk by chunk.
pub struct ChunkedOutput {
    pub chunks: Vec<Vec<u8>>,
    /// Bytes of the body that were decoded.
    pub consumed: usize,
    /// Chunks that were cut at a false boundary.
    pub spec_failures: u64,
}

/// The contents of chunks.
pub open spec fn chunk_views(chunks: Seq<Vec<u8>>) -> Seq<Seq<u8>> {
    Seq::new(chunks.len(), |i: int| chunks[i]@)
}

/// The chain with its tally and the chunks that it has produced.
pub struct ChunkedDecoder {
    body_offset: u64,
    links: ChunkChain,
    tally: MemberTally,
    bad_member: Option<GzipError>,
    chunks: Vec<Vec<u8>>,
}

impl ChunkedDecoder {
    /// The state of the chain.
    pub closed spec fn link(&self) -> Link {
        Link {
            start: self.links.expected_start as int,
            tail: self.links.prev_tail@,
            tally: match self.bad_member {
                Some(e) => Err(e),
                None => Ok(self.tally),
            },
            chunks: chunk_views(self.chunks@),
            failures: self.links.spec_failures as int,
        }
    }

    /// Where the body starts in the file.
    pub closed spec fn offset(&self) -> int {
        self.body_offset as int
    }

    pub fn new(body_offset: u64) -> (d: ChunkedDecoder)
        ensures
            d.link() == first_link(),
            d.offset() == body_offset,
    {
        let d = ChunkedDecoder {
            body_offset,
            links: ChunkChain::new(),
            tally: MemberTally::new(),
            bad_member: None,
            chunks: Vec::new(),
        };
        assert(chunk_views(d.chunks@) =~= Seq::<Seq<u8>>::empty());
        d
    }

    /// Anchors, resolves and checks the next chunk; true if it is the last.
    pub fn step(&mut self, body: &[u8], outcome: WorkOutcome, wk: &mut WorkerKernel) -> (r: Result<bool, Error>)
        requires
            addressable(body@),
            honest(body@, outcome),
            old(self).link().failures < u64::MAX,
        ensures
            final(self).offset() == old(self).offset(),
            match segment(body@, old(self).link().start, outcome.end_bit_hint as int) {
                Err(e) => r == Err::<bool, Error>(e),
                Ok(s) => if within(s.cells, old(self).link().tail.len()) {
                    &&& r == Ok::<bool, Error>(s.last)
                    &&& final(self).link() == next_link(
                        body@,
                        old(self).offset(),
                        item_of(outcome),
                        old(self).link(),
                        s,
                    )
                } else {
                    r == Err::<bool, Error>(Error::Deflate(outside_prefix()))
                },
            },
    {
        let ghost start = self.links.expected_start as int;
        let ghost tail = self.links.prev_tail@;
        let ghost hint = outcome.end_bit_hint as int;
        let job: ResolveJob = match self.links.accept(body, outcome, wk) {
            Ok(j) => j,
            Err(e) => {
                return Err(e);
            },
        };
        let ghost s = segment(body@, start, hint)->Ok_0;
        let len: usize = job.chunk.bytes.len();
        proof {
            law_segment_shape(body@, start, hint);
            law_markers_ascend(s.cells, 0);
            law_resolve_fills(s.cells, tail);
            if within(s.cells, tail.len()) {
                assert(filled_leniently(s.cells, tail) =~= filled(s.cells, tail));
            }
        }
        let done: ResolveDone = match resolve_job(job) {
            Ok(d) => d,
            Err(e) => {
                return Err(e);
            },
        };
        if self.bad_member.is_none() {
            let bounds: Vec<MemberBoundary> = rebase(done.member_boundaries.as_slice(), self.body_offset);
            match self.tally.check_chunk(done.bytes.as_slice(), bounds.as_slice()) {
                Ok(()) => {},
                Err(e) => {
                    self.bad_member = Some(e);
                },
            }
        }
        self.chunks.push(done.bytes);
        assert(chunk_views(self.chunks@) =~= chunk_views(old(self).chunks@).push(filled(s.cells, tail)));
        Ok(done.final_block)
    }

    /// The chunks, once the last one has come, or the first member that failed.
    /// `body_len` is the length of the body, all of which has been decoded.
    pub fn finish(self, body_len: usize) -> (r: Result<ChunkedOutput, Error>)
        requires
            self.link().failures >= 0,
        ensures
            match self.link().tally {
                Err(e) => r == Err::<ChunkedOutput, Error>(Error::Gzip(e)),
                Ok(_) => {
                    &&& r is Ok
                    &&& chunk_views(r->Ok_0.chunks@) == self.link().chunks
                    &&& r->Ok_0.consumed == body_len
                    &&& r->Ok_0.spec_failures == self.link().failures
                },
            },
    {
        match self.bad_member {
            Some(e) => Err(Error::Gzip(e)),
            None => Ok(
                ChunkedOutput {
                    chunks: self.chunks,
                    consumed: body_len,
                    spec_failures: self.links.spec_failures,
                },
            ),
        }
    }
}

/// The item that an outcome belongs to.
pub open spec fn item_of(o: WorkOutcome) -> WorkItem {
    WorkItem { id: o.id, start_bit: o.start_bit, end_bit_hint: o.end_bit_hint }
}

/// Decodes the body of a file, which starts at byte `body_offset` of it, in
/// chunks that start at `boundaries`, which may be false. Each chunk is decoded on its own; then they are anchored,
/// resolved and checked in order.
pub fn decode_member_chunked(body: &[u8], body_offset: usize, boundaries: &[u64]) -> (r: Result<ChunkedOutput, Error>)
    requires
        addressable(body@),
        boundaries@.len() > 0,
    ensures
        match chain(body@, body_offset as int, items_of(boundaries@), 0, first_link()) {
            Ok(c) => {
                &&& r is Ok
                &&& chunk_views(r->Ok_0.chunks@) == c.chunks
                &&& r->Ok_0.consumed == c.consumed
                &&& r->Ok_0.spec_failures == c.failures
            },
            Err(e) => r == Err::<ChunkedOutput, Error>(e),
        },
{
    let items: Vec<WorkItem> = work_items(boundaries);
    let ghost all = items_of(boundaries@);
    let mut wk = WorkerKernel::new();
    let mut decoder = ChunkedDecoder::new(body_offset as u64);
    let body_len: usize = body.len();
    let n: usize = items.len();
    let mut i: usize = 0;
    loop
        invariant
            i < n,
            n == items@.len(),
            items@ == all,
            all == items_of(boundaries@),
            addressable(body@),
            body_len == body@.len(),
            0 <= decoder.link().start <= bit_len(body@),
            0 <= decoder.link().failures <= i,
            decoder.offset() == body_offset,
            chain(body@, body_offset as int, all, i as int, decoder.link()) == chain(
                body@,
                body_offset as int,
                all,
                0,
                first_link(),
            ),
        decreases items@.len() - i,
    {
        let item: WorkItem = items[i];
        let ghost l = decoder.link();
        let result: Result<WorkResult, Error> = decode_one_chunk(body, &item, &mut wk, None);
        let outcome = WorkOutcome {
            id: item.id,
            start_bit: item.start_bit,
            end_bit_hint: item.end_bit_hint,
            result,
        };
        proof {
            reveal(chain);
            law_segment_shape(body@, l.start, item.end_bit_hint as int);
        }
        let last: bool = match decoder.step(body, outcome, &mut wk) {
            Ok(b) => b,
            Err(e) => {
                return Err(e);
            },
        };
        if last {
            return decoder.finish(body_len);
        }
        proof {
            if i + 1 == items@.len() {
                assert(item.end_bit_hint == u64::MAX);
            }
        }
        i = i + 1;
    }
}

/// Where chunk `i` starts: where the one before it ends.
pub open spec fn reached(body: Seq<u8>, items: Seq<WorkItem>, i: int) -> int
    decreases i,
{
    if i <= 0 {
        0
    } else {
        match segment(body, reached(body, items, i - 1), items[i - 1].end_bit_hint as int) {
            Ok(s) => s.end,
            Err(_) => 0,
        }
    }
}

/// Among the first `n` chunks, those that do not start where their item says, or
/// where nothing can be decoded from there.
pub open spec fn missed(body: Seq<u8>, items: Seq<WorkItem>, n: int) -> Set<int> {
    Set::new(
        |i: int|
            0 <= i < n && (items[i].start_bit != reached(body, items, i) || segment(
                body,
                items[i].start_bit as int,
                items[i].end_bit_hint as int,
            ) is Err),
    )
}

proof fn lemma_missed(body: Seq<u8>, items: Seq<WorkItem>, n: int)
    requires
        0 <= n,
    ensures
        missed(body, items, n).finite(),
        missed(body, items, n + 1).finite(),
        missed(body, items, n + 1).len() == missed(body, items, n).len() + if missed(body, items, n + 1).contains(n) {
            1int
        } else {
            0int
        },
    decreases n,
{
    let a = missed(body, items, n);
    let b = missed(body, items, n + 1);
    if n > 0 {
        lemma_missed(body, items, n - 1);
    } else {
        assert(a =~= Set::<int>::empty());
    }
    if b.contains(n) {
        assert(b =~= a.insert(n));
        assert(!a.contains(n));
    } else {
        assert(b =~= a);
    }
}

proof fn lemma_chain_counts(body: Seq<u8>, offset: int, items: Seq<WorkItem>, i: int, l: Link)
    requires
        0 <= i,
        l.start == reached(body, items, i),
        l.chunks.len() == i,
        l.failures == missed(body, items, i).len(),
        chain(body, offset, items, i, l) is Ok,
    ensures
        ({
            let c = chain(body, offset, items, i, l)->Ok_0;
            &&& i < c.chunks.len() <= items.len()
            &&& c.failures == missed(body, items, c.chunks.len() as int).len()
            &&& c.consumed == reached(body, items, c.chunks.len() as int) / 8
        }),
    decreases items.len() - i,
{
    reveal(chain);
    let s = segment(body, l.start, items[i].end_bit_hint as int)->Ok_0;
    let n = next_link(body, offset, items[i], l, s);
    lemma_missed(body, items, i);
    assert(missed(body, items, i + 1).contains(i) == false_boundary(body, items[i], l.start));
    assert(reached(body, items, i + 1) == s.end);
    if !s.last {
        lemma_chain_counts(body, offset, items, i + 1, n);
    }
}

/// The chunks that count as cut at a false boundary are those that do not start
/// where their item says, and those where nothing can be decoded from there.
pub proof fn law_false_boundaries_counted(body: Seq<u8>, offset: int, items: Seq<WorkItem>)
    requires
        chain(body, offset, items, 0, first_link()) is Ok,
    ensures
        ({
            let c = chain(body, offset, items, 0, first_link())->Ok_0;
            &&& 0 < c.chunks.len() <= items.len()
            &&& c.failures == missed(body, items, c.chunks.len() as int).len()
            &&& c.consumed == reached(body, items, c.chunks.len() as int) / 8
        }),
{
    assert(missed(body, items, 0) =~= Set::<int>::empty());
    lemma_chain_counts(body, offset, items, 0, first_link());
}

} // verus!
