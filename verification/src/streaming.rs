//! Cutting a file into chunks while it comes in, such as from a pipe.
//!
//! Each chunk gets its own copy of its bytes, and what was cut out can go.
use std::collections::VecDeque;
use vstd::prelude::*;
use crate::Error;
use crate::agreement::{joined, lemma_joined_append};
use crate::chain::chunk_views;
use crate::deflate::bit_reader::addressable;
use crate::deflate::bits::bit_len;
use crate::deflate::block_finder::{find_next_dynamic_block, first_block, looks_like_block};
use crate::deflate::cells::{Cell, until_cells};
use crate::deflate::embed::embedded;
use crate::deflate::speculative::{SpeculativeChunk, holds, bytes_of};
use crate::gzip::{GzipError, header_len, parse_header, law_header_len_bounds};
use crate::pipeline::{
    rebase, rebased, MemberBoundary, Segment, WorkItem, WorkerKernel, decode_one_chunk, segment, segment_from,
    lemma_segment_step,
};
use crate::schedule::chunk_bits;
use crate::stream::{Polled, law_header_stable};

verus! {

/// Bytes that a chunk gets besides its own, if they have come.
pub const PAD: usize = 8;

/// How far past the end of a chunk to read before searching for a boundary.
pub const SCAN_LOOKAHEAD: usize = 262144;

/// A chunk with its own compressed bytes.
#[derive(Debug)]
pub struct Item {
    pub id: u64,
    pub bytes: Vec<u8>,
    /// Where the first block starts in `bytes`.
    pub start_bit: u64,
    /// Where the next chunk starts in `bytes`; `u64::MAX` if there is none.
    pub end_bit_hint: u64,
    /// True if `bytes` ends with the file.
    pub is_final_region: bool,
    /// Where `bytes` stands in the file.
    pub base_byte: u64,
}

/// What a chunk with its own compressed bytes holds.
pub ghost struct Piece {
    pub bytes: Seq<u8>,
    pub start: int,
    pub hint: int,
    pub last_region: bool,
    pub base: int,
}

impl View for Item {
    type V = Piece;

    open spec fn view(&self) -> Piece {
        Piece {
            bytes: self.bytes@,
            start: self.start_bit as int,
            hint: self.end_bit_hint as int,
            last_region: self.is_final_region,
            base: self.base_byte as int,
        }
    }
}

/// The piece stands for bits `start` up to `end` of the file.
pub open spec fn is_piece(file: Seq<u8>, start: int, end: int, piece: Piece) -> bool {
    let k = start / 8;
    &&& embedded(piece.bytes, file, k)
    &&& end - 8 * k <= bit_len(piece.bytes)
    &&& piece.start == start % 8
    &&& piece.hint == end - 8 * k
    &&& !piece.last_region
    &&& piece.base == k
}

/// The piece stands for the file from bit `start` on.
pub open spec fn is_last_piece(file: Seq<u8>, start: int, piece: Piece) -> bool {
    &&& 0 <= start / 8 <= file.len()
    &&& piece.bytes == file.skip(start / 8)
    &&& piece.start == start % 8
    &&& piece.hint == u64::MAX
    &&& piece.last_region
    &&& piece.base == start / 8
}

/// What a piece decodes to.
pub open spec fn piece_segment(piece: Piece) -> Result<Segment, Error> {
    segment_from(piece.bytes, piece.start, piece.hint, Seq::empty(), Seq::empty())
}

/// The pieces of a file that is cut at `cuts`.
pub open spec fn are_pieces(file: Seq<u8>, cuts: Seq<u64>, pieces: Seq<Piece>) -> bool {
    &&& cuts.len() > 0
    &&& pieces.len() == cuts.len()
    &&& forall|i: int, j: int|
        0 <= i && j == i + 1 && j < cuts.len() ==> is_piece(
            file,
            #[trigger] cuts[i] as int,
            #[trigger] cuts[j] as int,
            pieces[i],
        )
    &&& is_last_piece(file, cuts.last() as int, pieces.last())
}

/// Each cut is at least `step` bits after the one before it.
pub open spec fn are_spaced(cuts: Seq<u64>, step: int) -> bool {
    forall|i: int, j: int| 0 <= i && j == i + 1 && j < cuts.len() ==> #[trigger] cuts[j] >= #[trigger] cuts[i] + step
}

/// The pieces of a file whose body starts at byte `h`, cut at places at least
/// `step` bits apart.
pub open spec fn are_cut(file: Seq<u8>, h: int, step: int, pieces: Seq<Piece>) -> bool {
    exists|cuts: Seq<u64>|
        #[trigger] are_pieces(file, cuts, pieces) && cuts[0] == 8 * h && are_spaced(cuts, step)
}

/// No block seems to start in the last piece at which it could have been cut again.
pub open spec fn cut_up_to_end(pieces: Seq<Piece>, step: int) -> bool {
    no_block(pieces.last().bytes, pieces.last().start + step)
}

/// A decoded chunk.
pub struct DecodeResult {
    pub id: u64,
    pub chunk: SpeculativeChunk,
    /// True if the file ends with the chunk.
    pub final_block: bool,
    /// True if the chunk's own bytes end with it, and with a member.
    pub reached_end: bool,
    /// The members that end in the chunk; their trailers are told by the file.
    pub member_boundaries: Vec<MemberBoundary>,
    /// Where the chunk ends in its own bytes.
    pub end_bit: u64,
}

/// `r` is what decoding the piece gives.
pub open spec fn decodes_piece(piece: Piece, r: DecodeResult) -> bool {
    match piece_segment(piece) {
        Ok(s) => {
            &&& holds(&r.chunk, s.cells)
            &&& r.member_boundaries@ == rebased(s.bounds, piece.base)
            &&& r.final_block == (s.last && piece.last_region)
            &&& r.reached_end == s.last
            &&& r.end_bit == s.end
        },
        Err(_) => false,
    }
}

/// Decodes a chunk.
pub fn decode_item(item: &Item, wk: &mut WorkerKernel) -> (r: Result<DecodeResult, Error>)
    requires
        addressable(item.bytes@),
    ensures
        match piece_segment(item@) {
            Ok(s) => r is Ok && r->Ok_0.id == item.id && decodes_piece(item@, r->Ok_0),
            Err(e) => r == Err::<DecodeResult, Error>(e),
        },
{
    proof {
        reveal(segment);
        reveal(until_cells);
        lemma_segment_step(
            item.bytes@,
            item.start_bit as int,
            item.end_bit_hint as int,
            Seq::empty(),
            Seq::empty(),
        );
    }
    if item.start_bit >= item.end_bit_hint {
        let chunk = SpeculativeChunk::new();
        let member_boundaries: Vec<MemberBoundary> = Vec::new();
        assert(chunk.bytes@ =~= bytes_of(Seq::<Cell>::empty()));
        assert(member_boundaries@ =~= rebased(Seq::empty(), item.base_byte as int));
        return Ok(
            DecodeResult {
                id: item.id,
                chunk,
                final_block: false,
                reached_end: false,
                member_boundaries,
                end_bit: item.start_bit,
            },
        );
    }
    let work = WorkItem { id: item.id, start_bit: item.start_bit, end_bit_hint: item.end_bit_hint };
    match decode_one_chunk(item.bytes.as_slice(), &work, wk, None) {
        Ok(res) => Ok(
            DecodeResult {
                id: item.id,
                chunk: res.chunk,
                final_block: res.final_block && item.is_final_region,
                reached_end: res.final_block,
                member_boundaries: rebase(res.member_boundaries.as_slice(), item.base_byte),
                end_bit: res.actual_end_bit,
            },
        ),
        Err(e) => Err(e),
    }
}

/// A sliding part of the file that comes in.
pub struct Source {
    buf: Vec<u8>,
    /// Where `buf` stands in the file.
    base: u64,
    src_eof: bool,
    total_read: u64,
}

impl Source {
    pub closed spec fn bytes(&self) -> Seq<u8> {
        self.buf@
    }

    pub closed spec fn base(&self) -> int {
        self.base as int
    }

    /// All input has come.
    pub closed spec fn eof(&self) -> bool {
        self.src_eof
    }

    /// How many bytes came.
    pub closed spec fn total_read(&self) -> int {
        self.total_read as int
    }

    /// Where the file ends as far as it has come.
    pub open spec fn end(&self) -> int {
        self.base() + self.bytes().len()
    }

    /// Every bit that has come can be numbered.
    pub open spec fn wf(&self) -> bool {
        8 * self.end() <= u64::MAX
    }

    pub fn new() -> (s: Source)
        ensures
            s.wf(),
            s.bytes() == Seq::<u8>::empty(),
            s.base() == 0,
            !s.eof(),
            s.total_read() == 0,
    {
        Source { buf: Vec::new(), base: 0, src_eof: false, total_read: 0 }
    }

    /// Where the file ends as far as it has come.
    pub fn abs_end(&self) -> (n: u64)
        requires
            self.wf(),
        ensures
            n == self.end(),
    {
        self.base + self.buf.len() as u64
    }

    /// True if all input has come.
    pub fn is_eof(&self) -> (b: bool)
        ensures
            b == self.eof(),
    {
        self.src_eof
    }

    /// How many bytes came.
    pub fn bytes_read(&self) -> (n: u64)
        ensures
            n == self.total_read(),
    {
        self.total_read
    }

    /// Takes in what a read gave: some bytes, or none at the end of the input.
    pub fn feed(&mut self, bytes: &[u8])
        requires
            old(self).wf(),
            8 * (old(self).end() + bytes@.len()) <= u64::MAX,
            old(self).total_read() + bytes@.len() <= u64::MAX,
        ensures
            final(self).wf(),
            final(self).bytes() == old(self).bytes() + bytes@,
            final(self).base() == old(self).base(),
            final(self).eof() == (old(self).eof() || bytes@.len() == 0),
            final(self).total_read() == old(self).total_read() + bytes@.len(),
    {
        if bytes.len() == 0 {
            self.src_eof = true;
        }
        self.buf.extend_from_slice(bytes);
        self.total_read = self.total_read + bytes.len() as u64;
        assert(self.buf@ =~= old(self).buf@ + bytes@);
    }

    /// Lets go of everything before byte `abs` of the file.
    pub fn drain_to(&mut self, abs: u64)
        requires
            old(self).wf(),
            old(self).base() <= abs <= old(self).end(),
        ensures
            final(self).wf(),
            final(self).base() == abs,
            final(self).bytes() == old(self).bytes().skip(abs - old(self).base()),
            final(self).eof() == old(self).eof(),
            final(self).total_read() == old(self).total_read(),
    {
        let n: usize = self.buf.len();
        let drop: usize = (abs - self.base) as usize;
        if drop > 0 {
            self.buf = vstd::slice::slice_to_vec(
                vstd::slice::slice_subrange(self.buf.as_slice(), drop, self.buf.len()),
            );
            self.base = abs;
        }
        assert(self.buf@ =~= old(self).buf@.skip(abs - old(self).base()));
    }

    /// Lets go of the header of the first member, once it has come.
    pub fn strip_first_header(&mut self) -> (r: Result<Polled<()>, Error>)
        requires
            old(self).wf(),
        ensures
            match header_len(old(self).bytes()) {
                Ok(h) => {
                    &&& r == Ok::<Polled<()>, Error>(Polled::Ready(()))
                    &&& final(self).wf()
                    &&& final(self).bytes() == old(self).bytes().skip(h)
                    &&& final(self).base() == old(self).base() + h
                    &&& final(self).eof() == old(self).eof()
                    &&& final(self).total_read() == old(self).total_read()
                },
                Err(e) => if e != GzipError::Truncated || old(self).eof() {
                    r == Err::<Polled<()>, Error>(Error::Gzip(e))
                } else {
                    &&& r == Ok::<Polled<()>, Error>(Polled::NeedInput)
                    &&& *final(self) == *old(self)
                },
            },
    {
        proof {
            law_header_len_bounds(self.bytes());
        }
        match parse_header(self.buf.as_slice()) {
            Ok(h) => {
                self.buf = vstd::slice::slice_to_vec(
                    vstd::slice::slice_subrange(self.buf.as_slice(), h, self.buf.len()),
                );
                self.base = self.base + h as u64;
                assert(self.buf@ =~= old(self).buf@.skip(h as int));
                Ok(Polled::Ready(()))
            },
            Err(GzipError::Truncated) => {
                if self.src_eof {
                    return Err(Error::Gzip(GzipError::Truncated));
                }
                Ok(Polled::NeedInput)
            },
            Err(e) => Err(Error::Gzip(e)),
        }
    }

    /// Cuts the chunk between two bits of the file out; without an end it is
    /// all that has come.
    pub fn cut_item(&self, id: u64, item_start_bit: u64, end_bit: Option<u64>) -> (item: Item)
        requires
            self.wf(),
            self.base() <= item_start_bit / 8 <= self.end(),
            match end_bit {
                Some(e) => item_start_bit <= e <= 8 * self.end(),
                None => true,
            },
        ensures
            item.id == id,
            item.base_byte == item_start_bit / 8,
            item.start_bit == item_start_bit % 8,
            item.is_final_region == end_bit is None,
            match end_bit {
                None => {
                    &&& item.end_bit_hint == u64::MAX
                    &&& item.bytes@ == self.bytes().skip(item_start_bit / 8 - self.base())
                },
                Some(e) => {
                    let to = (e + 7) / 8 - self.base() + PAD;
                    &&& item.end_bit_hint == e - item_start_bit / 8 * 8
                    &&& item.bytes@ == self.bytes().subrange(
                        item_start_bit / 8 - self.base(),
                        if to < self.bytes().len() {
                            to
                        } else {
                            self.bytes().len() as int
                        },
                    )
                },
            },
    {
        let start_byte: u64 = item_start_bit / 8;
        let len: usize = self.buf.len();
        let start_rel: usize = (start_byte - self.base) as usize;
        match end_bit {
            None => {
                let bytes: Vec<u8> = vstd::slice::slice_to_vec(
                    vstd::slice::slice_subrange(self.buf.as_slice(), start_rel, len),
                );
                assert(bytes@ =~= self.bytes().skip(start_rel as int));
                Item {
                    id,
                    bytes,
                    start_bit: item_start_bit % 8,
                    end_bit_hint: u64::MAX,
                    is_final_region: true,
                    base_byte: start_byte,
                }
            },
            Some(e) => {
                let end_byte: u64 = if e % 8 == 0 {
                    e / 8
                } else {
                    e / 8 + 1
                };
                let end_rel: usize = (end_byte - self.base) as usize;
                let take_to: usize = if len - end_rel < PAD {
                    len
                } else {
                    end_rel + PAD
                };
                let bytes: Vec<u8> = vstd::slice::slice_to_vec(
                    vstd::slice::slice_subrange(self.buf.as_slice(), start_rel, take_to),
                );
                Item {
                    id,
                    bytes,
                    start_bit: item_start_bit % 8,
                    end_bit_hint: e - start_byte * 8,
                    is_final_region: false,
                    base_byte: start_byte,
                }
            },
        }
    }
}

/// What a step of a [`Dispatcher`] gave.
#[derive(Debug)]
pub enum DispatchStep {
    /// More input is needed.
    NeedInput,
    /// The next chunk.
    Work(Item),
    /// The last chunk has been cut.
    Done,
}

/// Cuts a file into chunks as it comes in.
pub struct Dispatcher {
    src: Source,
    chunk_bits: u64,
    item_start_bit: u64,
    id: u64,
    started: bool,
    finished: bool,
    file: Ghost<Seq<u8>>,
    cuts: Ghost<Seq<u64>>,
    pieces: Ghost<Seq<Piece>>,
}

/// How many bits a chunk of at least `chunk_bytes` bytes spans at least: no less
/// than 64 KiB.
pub open spec fn least_bits(chunk_bytes: usize) -> int {
    if chunk_bytes > 65536 {
        chunk_bytes * 8
    } else {
        65536int * 8
    }
}

/// No block seems to start in `bytes` from bit `from` on.
pub open spec fn no_block(bytes: Seq<u8>, from: int) -> bool {
    forall|p: int| from <= p < bit_len(bytes) ==> !looks_like_block(bytes, p)
}

impl Dispatcher {
    pub closed spec fn source(&self) -> Source {
        self.src
    }

    /// The file as far as it has come.
    pub closed spec fn file(&self) -> Seq<u8> {
        self.file@
    }

    /// Where the chunks start that have been cut, and the next one.
    pub closed spec fn cuts(&self) -> Seq<u64> {
        self.cuts@
    }

    /// The chunks that have been cut.
    pub closed spec fn pieces(&self) -> Seq<Piece> {
        self.pieces@
    }

    /// Where the next chunk starts.
    pub closed spec fn start(&self) -> int {
        self.item_start_bit as int
    }

    /// The number of the next chunk.
    pub closed spec fn next_id(&self) -> int {
        self.id as int
    }

    /// The header of the first member is behind.
    pub closed spec fn started(&self) -> bool {
        self.started
    }

    /// The last chunk has been cut.
    pub closed spec fn finished(&self) -> bool {
        self.finished
    }

    /// How many bits a chunk spans at least.
    pub closed spec fn step_bits(&self) -> int {
        self.chunk_bits as int
    }

    /// Where to look for the end of the next chunk, in the bytes at hand.
    pub open spec fn target(&self) -> int {
        let t = self.start() + self.step_bits() - 8 * self.source().base();
        if t > 0 {
            t
        } else {
            0
        }
    }

    /// Enough has come to look for the end of the next chunk.
    pub open spec fn read_enough(&self) -> bool {
        self.source().eof() || self.source().end() >= (self.start() + self.step_bits()) / 8 + SCAN_LOOKAHEAD
    }

    pub closed spec fn wf(&self) -> bool {
        &&& self.src.wf()
        &&& self.src.base() == self.item_start_bit / 8
        &&& self.item_start_bit <= 8 * self.src.end()
        &&& 8 * self.src.end() + self.chunk_bits + 8 * SCAN_LOOKAHEAD <= u64::MAX
        &&& self.file@.len() == self.src.end()
        &&& self.src.bytes() == self.file@.skip(self.src.base())
        &&& self.finished ==> self.started && self.src.eof()
        &&& self.started ==> self.cut_up()
        &&& !self.started ==> self.src.base() == 0 && self.pieces@.len() == 0
    }

    /// What has been cut are pieces of the file after its first header.
    closed spec fn cut_up(&self) -> bool {
        &&& header_len(self.file@) is Ok
        &&& self.cuts@.len() > 0
        &&& self.cuts@[0] == 8 * header_len(self.file@)->Ok_0
        &&& self.cuts@.last() == self.item_start_bit
        &&& self.cuts@.len() == self.pieces@.len() + if self.finished { 0int } else { 1int }
        &&& pieces_follow(self.file@, self.cuts@, self.pieces@)
        &&& self.finished ==> is_last_piece(self.file@, self.cuts@.last() as int, self.pieces@.last())
    }

    /// Takes in what a read gave: some bytes, or none at the end of the input.
    pub fn feed(&mut self, bytes: &[u8])
        requires
            old(self).wf(),
            !old(self).source().eof(),
            8 * (old(self).source().end() + bytes@.len()) + old(self).step_bits() + 8 * SCAN_LOOKAHEAD <= u64::MAX,
            old(self).source().total_read() + bytes@.len() <= u64::MAX,
        ensures
            final(self).wf(),
            final(self).file() == old(self).file() + bytes@,
            final(self).cuts() == old(self).cuts(),
            final(self).pieces() == old(self).pieces(),
            final(self).source().bytes() == old(self).source().bytes() + bytes@,
            final(self).source().base() == old(self).source().base(),
            final(self).source().eof() == (bytes@.len() == 0),
            final(self).source().total_read() == old(self).source().total_read() + bytes@.len(),
            final(self).start() == old(self).start(),
            final(self).step_bits() == old(self).step_bits(),
            final(self).next_id() == old(self).next_id(),
            final(self).started() == old(self).started(),
            final(self).finished() == old(self).finished(),
    {
        self.src.feed(bytes);
        proof {
            let file = self.file@;
            self.file@ = file + bytes@;
            assert(self.src.bytes() =~= self.file@.skip(self.src.base()));
            if self.started {
                law_header_stable(file, bytes@);
                lemma_pieces_grow(file, bytes@, self.cuts@, self.pieces@);
            }
        }
    }

    /// A dispatcher of chunks of at least `chunk_bytes` compressed bytes, but
    /// no less than 64 KiB.
    pub fn new(chunk_bytes: usize) -> (d: Dispatcher)
        requires
            chunk_bytes <= u64::MAX / 16,
        ensures
            d.wf(),
            d.file() == Seq::<u8>::empty(),
            d.pieces() == Seq::<Piece>::empty(),
            d.source().bytes() == Seq::<u8>::empty(),
            d.source().base() == 0,
            !d.source().eof(),
            d.source().total_read() == 0,
            d.start() == 0,
            d.next_id() == 0,
            !d.started(),
            !d.finished(),
            d.step_bits() == least_bits(chunk_bytes),
    {
        let d = Dispatcher {
            src: Source::new(),
            chunk_bits: chunk_bits(chunk_bytes),
            item_start_bit: 0,
            id: 0,
            started: false,
            finished: false,
            file: Ghost(Seq::empty()),
            cuts: Ghost(Seq::empty()),
            pieces: Ghost(Seq::empty()),
        };
        assert(d.src.bytes() =~= d.file@.skip(0));
        d
    }

    /// How many bytes came.
    pub fn bytes_read(&self) -> (n: u64)
        ensures
            n == self.source().total_read(),
    {
        self.src.bytes_read()
    }

    /// Cuts the next chunk, if enough has come.
    pub fn next(&mut self) -> (r: DispatchStep)
        requires
            old(self).wf(),
            old(self).started(),
            old(self).next_id() < u64::MAX,
        ensures
            final(self).wf(),
            final(self).file() == old(self).file(),
            final(self).started(),
            final(self).step_bits() == old(self).step_bits(),
            final(self).source().eof() == old(self).source().eof(),
            final(self).source().total_read() == old(self).source().total_read(),
            match r {
                DispatchStep::Done => old(self).finished() && final(self).finished() && final(self).pieces() == old(
                    self
                ).pieces() && final(self).cuts() == old(self).cuts(),
                DispatchStep::NeedInput => {
                    &&& !old(self).finished()
                    &&& !final(self).finished()
                    &&& !old(self).source().eof()
                    &&& !old(self).read_enough() || no_block(old(self).source().bytes(), old(self).target())
                    &&& final(self).source().bytes() == old(self).source().bytes()
                    &&& final(self).source().base() == old(self).source().base()
                    &&& final(self).start() == old(self).start()
                    &&& final(self).next_id() == old(self).next_id()
                    &&& final(self).pieces() == old(self).pieces()
                    &&& final(self).cuts() == old(self).cuts()
                },
                DispatchStep::Work(item) => {
                    &&& !old(self).finished()
                    &&& old(self).read_enough()
                    &&& item.id == old(self).next_id()
                    &&& final(self).finished() == item.is_final_region
                    &&& final(self).next_id() == old(self).next_id() + 1
                    &&& final(self).pieces() == old(self).pieces().push(item@)
                    &&& if item.is_final_region {
                        &&& old(self).source().eof()
                        &&& no_block(old(self).source().bytes(), old(self).target())
                        &&& is_last_piece(old(self).file(), old(self).start(), item@)
                        &&& final(self).cuts() == old(self).cuts()
                    } else {
                        let e = final(self).start();
                        let to = (e + 7) / 8 - old(self).source().base() + PAD;
                        let len = old(self).source().bytes().len();
                        &&& first_block(
                            old(self).source().bytes(),
                            old(self).target(),
                            bit_len(old(self).source().bytes()),
                            e - 8 * old(self).source().base(),
                        )
                        &&& is_piece(old(self).file(), old(self).start(), e, item@)
                        &&& item.bytes@ == old(self).source().bytes().take(if to < len { to } else { len as int })
                        &&& final(self).cuts() == old(self).cuts().push(e as u64)
                        &&& final(self).source().base() == e / 8
                        &&& final(self).source().bytes() == old(self).source().bytes().skip(
                            e / 8 - old(self).source().base(),
                        )
                    }
                },
            },
    {
        if self.finished {
            return DispatchStep::Done;
        }
        let target_bit: u64 = self.item_start_bit + self.chunk_bits;
        if self.src.abs_end() < target_bit / 8 + SCAN_LOOKAHEAD as u64 && !self.src.is_eof() {
            return DispatchStep::NeedInput;
        }
        let base_bit: u64 = self.src.base * 8;
        let resident_bits: u64 = self.src.buf.len() as u64 * 8;
        let from_rel: u64 = target_bit.saturating_sub(base_bit);
        let found: Option<u64> = if from_rel >= resident_bits {
            None
        } else {
            find_next_dynamic_block(self.src.buf.as_slice(), from_rel, resident_bits)
        };
        match found {
            Some(rel) => {
                let end_bit: u64 = base_bit + rel;
                let item: Item = self.src.cut_item(self.id, self.item_start_bit, Some(end_bit));
                self.id = self.id + 1;
                self.item_start_bit = end_bit;
                self.src.drain_to(end_bit / 8);
                proof {
                    let old_bytes = old(self).src.bytes();
                    assert(item.bytes@ =~= old_bytes.take(item.bytes@.len() as int));
                    let k = old(self).src.base();
                    assert(item.bytes@ =~= self.file@.subrange(k, k + item.bytes@.len()));
                    assert(self.src.bytes() =~= self.file@.skip(self.src.base()));
                    self.cuts@ = self.cuts@.push(end_bit);
                    self.pieces@ = self.pieces@.push(item@);
                    lemma_pieces_push(self.file@, old(self).cuts@, old(self).pieces@, end_bit, item@);
                }
                DispatchStep::Work(item)
            },
            None => {
                if !self.src.is_eof() {
                    return DispatchStep::NeedInput;
                }
                let item: Item = self.src.cut_item(self.id, self.item_start_bit, None);
                self.id = self.id + 1;
                self.finished = true;
                proof {
                    assert(item.bytes@ =~= old(self).src.bytes());
                    self.pieces@ = self.pieces@.push(item@);
                    assert forall|i: int, j: int| 0 <= i && j == i + 1 && j < self.cuts@.len() implies is_piece(
                        self.file@,
                        #[trigger] self.cuts@[i] as int,
                        #[trigger] self.cuts@[j] as int,
                        self.pieces@[i],
                    ) by {
                        assert(self.pieces@[i] == old(self).pieces@[i]);
                    }
                }
                DispatchStep::Work(item)
            },
        }
    }

    /// Lets go of the header of the first member, once it has come.
    pub fn start_body(&mut self) -> (r: Result<Polled<()>, Error>)
        requires
            old(self).wf(),
            !old(self).started(),
        ensures
            match header_len(old(self).file()) {
                Ok(h) => {
                    &&& r == Ok::<Polled<()>, Error>(Polled::Ready(()))
                    &&& final(self).wf()
                    &&& final(self).started()
                    &&& final(self).file() == old(self).file()
                    &&& final(self).source().bytes() == old(self).file().skip(h)
                    &&& final(self).source().base() == h
                    &&& final(self).source().eof() == old(self).source().eof()
                    &&& final(self).source().total_read() == old(self).source().total_read()
                    &&& final(self).start() == 8 * h
                    &&& final(self).cuts() == seq![(8 * h) as u64]
                    &&& final(self).pieces() == Seq::<Piece>::empty()
                    &&& final(self).step_bits() == old(self).step_bits()
                    &&& final(self).next_id() == old(self).next_id()
                    &&& !final(self).finished()
                },
                Err(e) => if e != GzipError::Truncated || old(self).source().eof() {
                    r == Err::<Polled<()>, Error>(Error::Gzip(e))
                } else {
                    &&& r == Ok::<Polled<()>, Error>(Polled::NeedInput)
                    &&& *final(self) == *old(self)
                },
            },
    {
        proof {
            law_header_len_bounds(self.src.bytes());
            assert(self.file@.skip(0) =~= self.file@);
        }
        match self.src.strip_first_header() {
            Ok(Polled::Ready(())) => {
                self.started = true;
                self.item_start_bit = self.src.base * 8;
                proof {
                    self.cuts@ = seq![self.item_start_bit];
                    assert(self.pieces@ =~= Seq::<Piece>::empty());
                    assert(self.src.bytes() =~= self.file@.skip(self.src.base()));
                }
                Ok(Polled::Ready(()))
            },
            Ok(Polled::NeedInput) => Ok(Polled::NeedInput),
            Err(e) => Err(e),
        }
    }
}

/// Each piece that has been cut stands for what lies between two cuts.
spec fn pieces_follow(file: Seq<u8>, cuts: Seq<u64>, pieces: Seq<Piece>) -> bool {
    forall|i: int, j: int|
        0 <= i && j == i + 1 && j < cuts.len() ==> is_piece(
            file,
            #[trigger] cuts[i] as int,
            #[trigger] cuts[j] as int,
            pieces[i],
        )
}

proof fn lemma_pieces_grow(file: Seq<u8>, more: Seq<u8>, cuts: Seq<u64>, pieces: Seq<Piece>)
    requires
        pieces_follow(file, cuts, pieces),
    ensures
        pieces_follow(file + more, cuts, pieces),
{
    assert forall|i: int, j: int| 0 <= i && j == i + 1 && j < cuts.len() implies is_piece(
        file + more,
        #[trigger] cuts[i] as int,
        #[trigger] cuts[j] as int,
        pieces[i],
    ) by {
        let piece = pieces[i];
        let k = cuts[i] as int / 8;
        assert(is_piece(file, cuts[i] as int, cuts[j] as int, piece));
        assert(piece.bytes =~= (file + more).subrange(k, k + piece.bytes.len()));
    }
}

proof fn lemma_pieces_push(file: Seq<u8>, cuts: Seq<u64>, pieces: Seq<Piece>, end: u64, piece: Piece)
    requires
        pieces_follow(file, cuts, pieces),
        cuts.len() == pieces.len() + 1,
        is_piece(file, cuts.last() as int, end as int, piece),
    ensures
        pieces_follow(file, cuts.push(end), pieces.push(piece)),
{
    let c1 = cuts.push(end);
    let p1 = pieces.push(piece);
    assert forall|i: int, j: int| 0 <= i && j == i + 1 && j < c1.len() implies is_piece(
        file,
        #[trigger] c1[i] as int,
        #[trigger] c1[j] as int,
        p1[i],
    ) by {
        if j < cuts.len() {
            assert(is_piece(file, cuts[i] as int, cuts[j] as int, pieces[i]));
        }
    }
}

/// The chunks of a whole run are the pieces of the file at the cuts that were
/// found, the first of which is the end of the first header.
pub proof fn law_run_is_pieces(d: &Dispatcher)
    requires
        d.wf(),
        d.finished(),
    ensures
        are_pieces(d.file(), d.cuts(), d.pieces()),
        header_len(d.file()) is Ok,
        d.cuts()[0] == 8 * header_len(d.file())->Ok_0,
{
}

/// What pieces hold.
pub open spec fn piece_views(items: Seq<Item>) -> Seq<Piece> {
    Seq::new(items.len(), |i: int| items[i]@)
}

/// The bytes of reads, put together.
pub open spec fn all_read(reads: Seq<Vec<u8>>) -> Seq<u8> {
    joined(chunk_views(reads))
}

proof fn lemma_read_more(reads: Seq<Vec<u8>>, k: int)
    requires
        0 <= k < reads.len(),
    ensures
        all_read(reads.take(k + 1)) == all_read(reads.take(k)) + reads[k]@,
{
    let views = chunk_views(reads.take(k + 1));
    assert(views.drop_last() =~= chunk_views(reads.take(k)));
}

/// The first reads hold a prefix of the file.
proof fn lemma_read_prefix(reads: Seq<Vec<u8>>, k: int) -> (rest: Seq<u8>)
    requires
        0 <= k <= reads.len(),
    ensures
        all_read(reads) == all_read(reads.take(k)) + rest,
{
    let rest = chunk_views(reads.skip(k));
    assert(chunk_views(reads) =~= chunk_views(reads.take(k)) + rest);
    lemma_joined_append(chunk_views(reads.take(k)), rest);
    joined(rest)
}

/// A dispatcher has taken the first `k` of the reads in, and knows that there are
/// no more once it has been told.
spec fn has_read(d: &Dispatcher, reads: Seq<Vec<u8>>, k: int) -> bool {
    &&& d.wf()
    &&& !d.finished()
    &&& 0 <= k <= reads.len()
    &&& d.file() == all_read(reads.take(k))
    &&& d.source().total_read() == d.file().len()
    &&& d.source().eof() ==> k == reads.len()
    &&& 8 * all_read(reads).len() + d.step_bits() + 8 * SCAN_LOOKAHEAD <= u64::MAX
}

/// Takes the next read in that holds bytes, or the end of the input after the last.
fn feed_next(d: &mut Dispatcher, reads: &[Vec<u8>], k: usize) -> (n: usize)
    requires
        has_read(old(d), reads@, k as int),
        !old(d).source().eof(),
    ensures
        has_read(final(d), reads@, n as int),
        k <= n,
        k < n || final(d).source().eof(),
        final(d).cuts() == old(d).cuts(),
        final(d).pieces() == old(d).pieces(),
        final(d).start() == old(d).start(),
        final(d).step_bits() == old(d).step_bits(),
        final(d).next_id() == old(d).next_id(),
        final(d).started() == old(d).started(),
{
    let mut i: usize = k;
    while i < reads.len() && reads[i].len() == 0
        invariant
            k <= i <= reads@.len(),
            all_read(reads@.take(i as int)) == all_read(reads@.take(k as int)),
        decreases reads@.len() - i,
    {
        proof {
            lemma_read_more(reads@, i as int);
        }
        i = i + 1;
    }
    if i < reads.len() {
        proof {
            lemma_read_more(reads@, i as int);
            let rest = lemma_read_prefix(reads@, i + 1);
            assert(all_read(reads@).len() == d.file().len() + reads@[i as int]@.len() + rest.len());
        }
        d.feed(reads[i].as_slice());
        i + 1
    } else {
        let none: Vec<u8> = Vec::new();
        proof {
            let rest = lemma_read_prefix(reads@, i as int);
            assert(d.file() + none@ =~= d.file());
        }
        d.feed(none.as_slice());
        i
    }
}

/// Cuts a file that comes in as `reads` into chunks of at least `chunk_bytes`
/// compressed bytes, but no less than 64 KiB.
pub fn cut_reads(reads: &[Vec<u8>], chunk_bytes: usize) -> (r: Result<VecDeque<Item>, Error>)
    requires
        chunk_bytes <= u64::MAX / 16,
        all_read(reads@).len() <= u64::MAX / 32,
    ensures
        match header_len(all_read(reads@)) {
            Err(e) => r == Err::<VecDeque<Item>, Error>(Error::Gzip(e)),
            Ok(h) => {
                &&& r is Ok
                &&& are_cut(
                    all_read(reads@),
                    h,
                    least_bits(chunk_bytes),
                    piece_views(r->Ok_0@),
                )
                &&& cut_up_to_end(piece_views(r->Ok_0@), least_bits(chunk_bytes))
            },
        },
{
    let ghost file = all_read(reads@);
    let mut d = Dispatcher::new(chunk_bytes);
    assert(d.file() =~= all_read(reads@.take(0)));
    let ghost rest0 = lemma_read_prefix(reads@, 0);
    let mut k: usize = feed_next(&mut d, reads, 0);
    loop
        invariant_except_break
            !d.started(),
        invariant
            has_read(&d, reads@, k as int),
            d.next_id() == 0,
            file == all_read(reads@),
            d.step_bits() == least_bits(chunk_bytes),
        ensures
            d.started(),
            header_len(file) is Ok,
            d.cuts() == seq![(8 * header_len(file)->Ok_0) as u64],
            d.pieces() == Seq::<Piece>::empty(),
            0 <= 8 * header_len(file)->Ok_0 <= u64::MAX,
        decreases reads@.len() - k, if d.source().eof() { 0int } else { 1int },
    {
        proof {
            let rest = lemma_read_prefix(reads@, k as int);
            if header_len(d.file()) != Err::<int, GzipError>(GzipError::Truncated) {
                law_header_stable(d.file(), rest);
            }
            law_header_len_bounds(d.file());
            if d.source().eof() {
                assert(reads@.take(k as int) =~= reads@);
            }
        }
        match d.start_body() {
            Ok(Polled::Ready(())) => {
                break;
            },
            Ok(Polled::NeedInput) => {
                k = feed_next(&mut d, reads, k);
            },
            Err(e) => {
                return Err(e);
            },
        }
    }
    let mut items: VecDeque<Item> = VecDeque::new();
    assert(piece_views(items@) =~= d.pieces());
    loop
        invariant
            has_read(&d, reads@, k as int),
            d.started(),
            file == all_read(reads@),
            header_len(file) is Ok,
            d.cuts().len() > 0,
            d.cuts()[0] == 8 * header_len(file)->Ok_0,
            piece_views(items@) == d.pieces(),
            d.next_id() * 524288 <= d.start(),
            d.step_bits() >= 524288,
            d.step_bits() == least_bits(chunk_bytes),
            are_spaced(d.cuts(), d.step_bits()),
        decreases reads@.len() - k, if d.source().eof() { 0int } else { 1int }, 8 * file.len() - d.start(),
    {
        proof {
            let rest = lemma_read_prefix(reads@, k as int);
            assert(d.start() <= 8 * d.file().len());
            if d.source().eof() {
                assert(reads@.take(k as int) =~= reads@);
            }
        }
        let ghost cuts = d.cuts();
        let ghost before = items@;
        let ghost was = d;
        match d.next() {
            DispatchStep::NeedInput => {
                k = feed_next(&mut d, reads, k);
            },
            DispatchStep::Work(item) => {
                let last: bool = item.is_final_region;
                items.push_back(item);
                assert(piece_views(items@) =~= piece_views(before).push(item@));
                if last {
                    proof {
                        law_run_is_pieces(&d);
                        assert(d.file() == file);
                        assert(are_pieces(file, d.cuts(), piece_views(items@)));
                        assert(was.source().bytes() == file.skip(was.start() / 8));
                        assert(was.target() == was.start() % 8 + was.step_bits());
                        assert(piece_views(items@).last() == item@);
                    }
                    return Ok(items);
                }
            },
            DispatchStep::Done => {
                return Ok(items);
            },
        }
    }
}

/// Chunks have at least the size that was asked for, and no less than 64 KiB.
pub proof fn law_least_bits(chunk_bytes: usize)
    ensures
        least_bits(chunk_bytes) >= 8 * 65536,
        least_bits(chunk_bytes) >= 8 * chunk_bytes,
        least_bits(chunk_bytes) > 8 * 65536 ==> least_bits(chunk_bytes) == 8 * chunk_bytes,
{
}

} // verus!
