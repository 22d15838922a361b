//! Decoding one file in order, in pieces of bounded size.
use vstd::prelude::*;
use crate::Error;
use crate::checksum::lemma_crc32_empty;
use crate::deflate::DeflateError;
use crate::deflate::bit_reader::{BitReader, addressable};
use crate::deflate::bits::{align_up, bit_len};
use crate::deflate::cells::lemma_block_window;
use crate::deflate::fast_inflate::decode_one_block;
use crate::deflate::format::{
    WINDOW, block, until, law_decoding_appends, lemma_block_advances, lemma_block_extends, lemma_until_advances,
    lemma_until_step,
};
use crate::gzip::{GzipError, header_len, parse_header, le32, read_le32, law_header_len_bounds};
use crate::members::{MemberTally, tally_end, tally_of, law_tally_append};
use crate::pipeline::MemberBoundary;

verus! {

/// What is still to come, and how it ends.
pub struct Rest {
    pub out: Seq<u8>,
    pub end: Result<int, Error>,
}

/// The trailer at byte `t` of the body, which starts at byte `offset` of the file.
pub open spec fn trailer_of(body: Seq<u8>, offset: int, t: int) -> MemberBoundary {
    MemberBoundary {
        byte_offset_in_chunk: 0,
        crc_expected: le32(body, t) as u32,
        isize_expected: le32(body, t + 4) as u32,
        trailer_input_byte: ((offset + t) % 0x1_0000_0000_0000_0000) as u64,
    }
}

/// Reads the trailer at byte `t` of the body, which starts at byte `offset` of the file.
fn read_trailer_of(body: &[u8], offset: usize, t: usize) -> (mb: MemberBoundary)
    requires
        t + 8 <= body@.len(),
    ensures
        mb == trailer_of(body@, offset as int, t as int),
{
    let len: usize = body.len();
    MemberBoundary {
        byte_offset_in_chunk: 0,
        crc_expected: read_le32(body, t),
        isize_expected: read_le32(body, t + 4),
        trailer_input_byte: (offset as u64).wrapping_add(t as u64),
    }
}

/// Decodes the rest of a body from bit `p` on, where member number `index` has
/// produced `m` so far. On success: how many bytes of the body were decoded.
#[verifier::opaque]
pub open spec fn serial_from(body: Seq<u8>, offset: int, p: int, m: Seq<u8>, index: u32) -> Rest
    decreases bit_len(body) - p,
{
    proof {
        lemma_until_advances(body, p, bit_len(body) + 1, m);
    }
    let d = until(body, p, bit_len(body) + 1, m);
    let out = d.out.skip(m.len() as int);
    match d.end {
        Err(e) => Rest { out, end: Err(Error::Deflate(e)) },
        Ok((q, _)) => {
            let r = after_stream(body, offset, q, d.out, index);
            Rest { out: out + r.out, end: r.end }
        },
    }
}

/// The rest of a body after a stream that ends at bit `q` and holds the member
/// `m`: checks the trailer and goes on with the next member.
#[verifier::opaque]
pub open spec fn after_stream(body: Seq<u8>, offset: int, q: int, m: Seq<u8>, index: u32) -> Rest
    decreases bit_len(body) - q,
{
    proof {
        lemma_next_stream(body, q);
    }
    let t = align_up(q) / 8;
    if q < 0 || t + 8 > body.len() {
        Rest { out: Seq::empty(), end: Err(Error::Gzip(GzipError::Truncated)) }
    } else {
        match tally_end(tally_of(m, index), trailer_of(body, offset, t)) {
            Err(e) => Rest { out: Seq::empty(), end: Err(Error::Gzip(e)) },
            Ok(next) => if t + 8 == body.len() {
                Rest { out: Seq::empty(), end: Ok(t + 8) }
            } else {
                match header_len(body.skip(t + 8)) {
                    Err(e) => Rest { out: Seq::empty(), end: Err(Error::Gzip(e)) },
                    Ok(h) => serial_from(body, offset, 8 * (t + 8 + h), Seq::empty(), next.index),
                }
            },
        }
    }
}

/// The next member's stream starts after the last one's, inside the body.
pub proof fn lemma_next_stream(body: Seq<u8>, q: int)
    ensures
        ({
            let t = align_up(q) / 8;
            0 <= q && t + 8 < body.len() ==> match header_len(body.skip(t + 8)) {
                Ok(h) => q < 8 * (t + 8 + h) <= bit_len(body),
                Err(_) => true,
            }
        }),
{
    law_header_len_bounds(body.skip(align_up(q) / 8 + 8));
}

/// Where decoding in order stands: at bit `p` of the body, with `held` decoded
/// and not handed on yet, after `m` was handed on of member number `index`.
pub ghost struct SerialState {
    pub p: int,
    pub held: Seq<u8>,
    pub m: Seq<u8>,
    pub index: u32,
    pub at_trailer: bool,
}

/// What comes next of a body that is decoded in order.
pub ghost enum SerialNext {
    Chunk(Seq<u8>, SerialState),
    Done(int),
    Fail(Error),
}

/// Before the first block of a member that starts at bit `p`.
pub open spec fn member_from(p: int, index: u32) -> SerialState {
    SerialState { p, held: Seq::empty(), m: Seq::empty(), index, at_trailer: false }
}

/// The next piece of a body: what has been decoded when a block ends with at
/// least `target` bytes besides the last 32 KiB, but for these, or else what
/// has been decoded when a member ends.
#[verifier::opaque]
pub open spec fn serial_next(body: Seq<u8>, offset: int, target: int, s: SerialState) -> SerialNext
    decreases bit_len(body) - s.p,
{
    proof {
        lemma_next_stream(body, s.p);
        lemma_block_advances(body, s.p, s.held);
    }
    if s.at_trailer {
        let t = align_up(s.p) / 8;
        if s.p < 0 || t + 8 > body.len() {
            SerialNext::Fail(Error::Gzip(GzipError::Truncated))
        } else {
            match tally_end(tally_of(s.m, s.index), trailer_of(body, offset, t)) {
                Err(e) => SerialNext::Fail(Error::Gzip(e)),
                Ok(next) => if t + 8 == body.len() {
                    SerialNext::Done(t + 8)
                } else {
                    match header_len(body.skip(t + 8)) {
                        Err(e) => SerialNext::Fail(Error::Gzip(e)),
                        Ok(h) => serial_next(body, offset, target, member_from(8 * (t + 8 + h), next.index)),
                    }
                },
            }
        }
    } else {
        let b = block(body, s.p, s.held);
        match b.end {
            Err(e) => SerialNext::Fail(Error::Deflate(e)),
            Ok((q, false)) => if b.out.len() >= target + WINDOW {
                let n = b.out.len() - WINDOW;
                SerialNext::Chunk(
                    b.out.take(n),
                    SerialState { p: q, held: b.out.skip(n), m: s.m + b.out.take(n), ..s },
                )
            } else {
                serial_next(body, offset, target, SerialState { p: q, held: b.out, ..s })
            },
            Ok((q, true)) => {
                let done = SerialState { p: q, held: Seq::empty(), m: s.m + b.out, index: s.index, at_trailer: true };
                if b.out.len() > 0 {
                    SerialNext::Chunk(b.out, done)
                } else {
                    serial_next(body, offset, target, done)
                }
            },
        }
    }
}

/// The pieces of a body, and how it ends.
pub ghost struct Pieces {
    pub chunks: Seq<Seq<u8>>,
    pub end: Result<int, Error>,
}

/// The pieces of a body from some state on, after the pieces `chunks`.
pub open spec fn serial_pieces(body: Seq<u8>, offset: int, target: int, s: SerialState, chunks: Seq<Seq<u8>>) -> Pieces
    decreases bit_len(body) - s.p,
{
    proof {
        lemma_serial_next_advances(body, offset, target, s);
    }
    match serial_next(body, offset, target, s) {
        SerialNext::Chunk(c, next) => serial_pieces(body, offset, target, next, chunks.push(c)),
        SerialNext::Done(n) => Pieces { chunks, end: Ok(n) },
        SerialNext::Fail(e) => Pieces { chunks, end: Err(e) },
    }
}

proof fn lemma_serial_next_block(body: Seq<u8>, offset: int, target: int, s: SerialState)
    requires
        !s.at_trailer,
    ensures
        ({
            let b = block(body, s.p, s.held);
            serial_next(body, offset, target, s) == match b.end {
                Err(e) => SerialNext::Fail(Error::Deflate(e)),
                Ok((q, false)) => if b.out.len() >= target + WINDOW {
                    let n = b.out.len() - WINDOW;
                    SerialNext::Chunk(
                        b.out.take(n),
                        SerialState { p: q, held: b.out.skip(n), m: s.m + b.out.take(n), ..s },
                    )
                } else {
                    serial_next(body, offset, target, SerialState { p: q, held: b.out, ..s })
                },
                Ok((q, true)) => {
                    let done = SerialState {
                        p: q,
                        held: Seq::empty(),
                        m: s.m + b.out,
                        index: s.index,
                        at_trailer: true,
                    };
                    if b.out.len() > 0 {
                        SerialNext::Chunk(b.out, done)
                    } else {
                        serial_next(body, offset, target, done)
                    }
                },
            }
        }),
{
    reveal(serial_next);
}

pub proof fn lemma_serial_next_advances(body: Seq<u8>, offset: int, target: int, s: SerialState)
    ensures
        match serial_next(body, offset, target, s) {
            SerialNext::Chunk(_, next) => s.p < next.p <= bit_len(body),
            _ => true,
        },
    decreases bit_len(body) - s.p,
{
    reveal(serial_next);
    lemma_next_stream(body, s.p);
    lemma_block_advances(body, s.p, s.held);
    if s.at_trailer {
        let t = align_up(s.p) / 8;
        if s.p >= 0 && t + 8 < body.len() {
            if let Ok(next) = tally_end(tally_of(s.m, s.index), trailer_of(body, offset, t)) {
                if let Ok(h) = header_len(body.skip(t + 8)) {
                    lemma_serial_next_advances(body, offset, target, member_from(8 * (t + 8 + h), next.index));
                }
            }
        }
    } else {
        let b = block(body, s.p, s.held);
        match b.end {
            Ok((q, false)) => {
                lemma_serial_next_advances(body, offset, target, SerialState { p: q, held: b.out, ..s });
            },
            Ok((q, true)) => {
                let done = SerialState { p: q, held: Seq::empty(), m: s.m + b.out, index: s.index, at_trailer: true };
                lemma_serial_next_advances(body, offset, target, done);
            },
            _ => {},
        }
    }
}

/// The least number of bytes in a piece that is not the last of its member.
pub open spec fn piece_target(chunk_size_bytes: int) -> int {
    if chunk_size_bytes > 65536 {
        chunk_size_bytes
    } else {
        65536
    }
}

/// What a step of a [`SerialDecoder`] gave.
pub enum SerialStep {
    /// The next piece of output.
    Chunk(Vec<u8>),
    /// The body has been decoded; it has so many bytes.
    Done(usize),
}

/// Decodes a body in order and hands its output on in pieces. Between two
/// pieces it keeps the last 32 KiB, from which matches copy.
pub struct SerialDecoder<'a> {
    body: &'a [u8],
    body_offset: usize,
    chunk_target: usize,
    br: BitReader<'a>,
    /// Output of the current member that was not handed on yet.
    out: Vec<u8>,
    /// The tally of what was handed on of the current member.
    tally: MemberTally,
    at_trailer: bool,
    /// A buffer for what is kept when output is handed on.
    spare: Vec<u8>,
    emitted: Ghost<Seq<u8>>,
}

impl<'a> SerialDecoder<'a> {
    pub closed spec fn wf(&self) -> bool {
        &&& addressable(self.body@)
        &&& self.body_offset + self.body@.len() <= u64::MAX
        &&& 65536 <= self.chunk_target
        &&& self.chunk_target + WINDOW <= usize::MAX
        &&& self.br.wf()
        &&& self.br.stream() == self.body@
        &&& self.tally == tally_of(self.emitted@, self.tally.index)
        &&& self.at_trailer ==> self.out@.len() == 0
        &&& !self.at_trailer && self.emitted@.len() > 0 ==> self.out@.len() >= WINDOW
    }

    /// Where the decoder stands.
    pub closed spec fn state(&self) -> SerialState {
        SerialState {
            p: self.br.pos(),
            held: self.out@,
            m: self.emitted@,
            index: self.tally.index,
            at_trailer: self.at_trailer,
        }
    }

    pub closed spec fn input(&self) -> Seq<u8> {
        self.body@
    }

    pub closed spec fn offset(&self) -> int {
        self.body_offset as int
    }

    pub closed spec fn target(&self) -> int {
        self.chunk_target as int
    }

    /// What comes next.
    pub open spec fn upcoming(&self) -> SerialNext {
        serial_next(self.input(), self.offset(), self.target(), self.state())
    }

    /// What is still to be handed on, and how it ends.
    pub closed spec fn remaining(&self) -> Rest {
        if self.at_trailer {
            after_stream(self.body@, self.body_offset as int, self.br.pos(), self.emitted@, self.tally.index)
        } else {
            let r = serial_from(
                self.body@,
                self.body_offset as int,
                self.br.pos(),
                self.emitted@ + self.out@,
                self.tally.index,
            );
            Rest { out: self.out@ + r.out, end: r.end }
        }
    }

    /// A decoder of `body`, which starts at byte `body_offset` of the file, in
    /// pieces of at least `chunk_size_bytes`, but no less than 64 KiB.
    pub fn new(body: &'a [u8], body_offset: usize, chunk_size_bytes: usize) -> (d: SerialDecoder<'a>)
        requires
            addressable(body@),
            body_offset + body@.len() <= u64::MAX,
            chunk_size_bytes + WINDOW <= usize::MAX,
        ensures
            d.wf(),
            d.input() == body@,
            d.offset() == body_offset,
            d.target() == piece_target(chunk_size_bytes as int),
            d.state() == member_from(0, 0),
            d.remaining() == serial_from(body@, body_offset as int, 0, Seq::empty(), 0),
    {
        let chunk_target: usize = if chunk_size_bytes > 65536 {
            chunk_size_bytes
        } else {
            65536
        };
        let d = SerialDecoder {
            body,
            body_offset,
            chunk_target,
            br: BitReader::new(body),
            out: Vec::new(),
            tally: MemberTally::new(),
            at_trailer: false,
            spare: Vec::new(),
            emitted: Ghost(Seq::empty()),
        };
        proof {
            lemma_crc32_empty();
            let r = serial_from(body@, body_offset as int, 0, Seq::empty(), 0);
            assert(d.emitted@ + d.out@ =~= Seq::<u8>::empty());
            assert(d.out@ + r.out =~= r.out);
            assert(d.out@ =~= Seq::<u8>::empty());
        }
        d
    }

    /// Takes a buffer in that is no longer needed, to use its memory again.
    pub fn recycle(&mut self, buf: Vec<u8>)
        requires
            old(self).wf(),
        ensures
            final(self).wf(),
            final(self).state() == old(self).state(),
            final(self).input() == old(self).input(),
            final(self).offset() == old(self).offset(),
            final(self).target() == old(self).target(),
            final(self).remaining() == old(self).remaining(),
    {
        self.spare = buf;
    }

    /// Hands the first `n` bytes of the pending output on.
    fn emit(&mut self, n: usize) -> (chunk: Vec<u8>)
        requires
            n <= old(self).out@.len(),
            old(self).tally == tally_of(old(self).emitted@, old(self).tally.index),
        ensures
            chunk@ == old(self).out@.take(n as int),
            final(self).out@ == old(self).out@.skip(n as int),
            final(self).emitted@ == old(self).emitted@ + chunk@,
            final(self).tally == tally_of(final(self).emitted@, old(self).tally.index),
            final(self).body == old(self).body,
            final(self).body_offset == old(self).body_offset,
            final(self).chunk_target == old(self).chunk_target,
            final(self).br == old(self).br,
            final(self).at_trailer == old(self).at_trailer,
    {
        let mut keep: Vec<u8> = Vec::new();
        core::mem::swap(&mut self.spare, &mut keep);
        keep.clear();
        keep.extend_from_slice(vstd::slice::slice_subrange(self.out.as_slice(), n, self.out.len()));
        assert(keep@ =~= self.out@.skip(n as int));
        core::mem::swap(&mut self.out, &mut keep);
        keep.truncate(n);
        assert(keep@ =~= old(self).out@.take(n as int));
        self.tally.update(keep.as_slice());
        proof {
            law_tally_append(self.emitted@, keep@, self.tally.index);
        }
        self.emitted = Ghost(self.emitted@ + keep@);
        keep
    }

    /// Checks the trailer of a finished member and moves to the next one.
    /// Returns how many bytes were decoded if there is none.
    fn next_member(&mut self) -> (r: Result<Option<usize>, Error>)
        requires
            old(self).wf(),
            old(self).at_trailer,
        ensures
            match r {
                Ok(Some(n)) => old(self).remaining() == (Rest { out: Seq::empty(), end: Ok(n as int) })
                    && old(self).upcoming() == SerialNext::Done(n as int),
                Ok(None) => {
                    &&& final(self).wf()
                    &&& !final(self).at_trailer
                    &&& final(self).remaining() == old(self).remaining()
                    &&& final(self).upcoming() == old(self).upcoming()
                    &&& final(self).body == old(self).body
                    &&& final(self).body_offset == old(self).body_offset
                    &&& final(self).chunk_target == old(self).chunk_target
                    &&& final(self).br.pos() > old(self).br.pos()
                },
                Err(e) => old(self).remaining() == (Rest { out: Seq::empty(), end: Err(e) })
                    && old(self).upcoming() == SerialNext::Fail(e),
            },
    {
        let ghost q = self.br.pos();
        proof {
            self.br.lemma_wf();
            reveal(after_stream);
            reveal(serial_from);
            reveal(serial_next);
            lemma_next_stream(self.body@, q);
        }
        let len: usize = self.body.len();
        self.br.byte_align();
        proof {
            self.br.lemma_wf();
        }
        let trailer_byte: usize = (self.br.tell_bit() / 8) as usize;
        if len - trailer_byte < 8 {
            return Err(Error::Gzip(GzipError::Truncated));
        }
        let trailer: MemberBoundary = read_trailer_of(self.body, self.body_offset, trailer_byte);
        match self.tally.finish_member(&trailer) {
            Ok(()) => {},
            Err(e) => {
                return Err(Error::Gzip(e));
            },
        }
        let after_trailer: usize = trailer_byte + 8;
        if after_trailer >= len {
            return Ok(Some(after_trailer));
        }
        let rest: &[u8] = vstd::slice::slice_subrange(self.body, after_trailer, len);
        assert(rest@ =~= self.body@.skip(after_trailer as int));
        proof {
            law_header_len_bounds(rest@);
        }
        let header: usize = match parse_header(rest) {
            Ok(h) => h,
            Err(e) => {
                return Err(Error::Gzip(e));
            },
        };
        match self.br.seek_to_bit((after_trailer + header) as u64 * 8) {
            Ok(()) => {},
            Err(e) => {
                return Err(Error::Deflate(e));
            },
        }
        self.emitted = Ghost(Seq::empty());
        self.at_trailer = false;
        proof {
            lemma_crc32_empty();
            assert(self.emitted@ + self.out@ =~= Seq::<u8>::empty());
            let r = serial_from(self.body@, self.body_offset as int, self.br.pos(), Seq::empty(), self.tally.index);
            assert(self.out@ + r.out =~= r.out);
            assert(self.out@ =~= Seq::<u8>::empty());
        }
        Ok(None)
    }

    /// Decodes until the next piece is ready.
    pub fn next(&mut self) -> (r: Result<SerialStep, Error>)
        requires
            old(self).wf(),
        ensures
            match r {
                Ok(SerialStep::Chunk(c)) => {
                    &&& final(self).wf()
                    &&& final(self).input() == old(self).input()
                    &&& final(self).offset() == old(self).offset()
                    &&& final(self).target() == old(self).target()
                    &&& old(self).upcoming() == SerialNext::Chunk(c@, final(self).state())
                    &&& c@.len() > 0
                    &&& old(self).remaining().out == c@ + final(self).remaining().out
                    &&& old(self).remaining().end == final(self).remaining().end
                },
                Ok(SerialStep::Done(n)) => old(self).upcoming() == SerialNext::Done(n as int) && old(self).remaining() == (
                Rest { out: Seq::empty(), end: Ok(n as int) }),
                Err(e) => old(self).upcoming() == SerialNext::Fail(e) && old(self).remaining().end == Err::<int, Error>(e),
            },
    {
        loop
            invariant
                self.wf(),
                self.body == old(self).body,
                self.body_offset == old(self).body_offset,
                self.chunk_target == old(self).chunk_target,
                self.upcoming() == old(self).upcoming(),
                self.remaining() == old(self).remaining(),
            decreases bit_len(self.body@) - self.br.pos(),
        {
            proof {
                self.br.lemma_wf();
            }
            if self.at_trailer {
                match self.next_member() {
                    Ok(Some(n)) => {
                        return Ok(SerialStep::Done(n));
                    },
                    Ok(None) => {
                        proof {
                            self.br.lemma_wf();
                        }
                    },
                    Err(e) => {
                        return Err(e);
                    },
                }
            } else {
                let ghost before = *self;
                proof {
                    lemma_serial_next_block(self.input(), self.offset(), self.target(), self.state());
                    lemma_serial_block(
                        self.body@,
                        self.body_offset as int,
                        self.br.pos(),
                        self.emitted@,
                        self.out@,
                        self.tally.index,
                    );
                    lemma_block_advances(self.body@, self.br.pos(), self.out@);
                    lemma_block_extends(self.body@, self.br.pos(), self.out@);
                }
                let bfinal: bool = match decode_one_block(&mut self.br, &mut self.out) {
                    Ok(b) => b,
                    Err(e) => {
                        return Err(Error::Deflate(e));
                    },
                };
                if !bfinal {
                    if self.out.len() >= self.chunk_target + WINDOW {
                        let n: usize = self.out.len() - WINDOW;
                        let ghost pending = self.out@;
                        let ghost m = self.emitted@;
                        let chunk: Vec<u8> = self.emit(n);
                        proof {
                            assert(m + pending =~= self.emitted@ + self.out@);
                            assert(pending =~= chunk@ + self.out@);
                            assert(self.state() == (SerialState {
                                p: self.br.pos(),
                                held: pending.skip(n as int),
                                m: m + pending.take(n as int),
                                ..before.state()
                            }));
                            let r = serial_from(
                                self.body@,
                                self.body_offset as int,
                                self.br.pos(),
                                m + pending,
                                self.tally.index,
                            );
                            assert(pending + r.out =~= chunk@ + (self.out@ + r.out));
                        }
                        return Ok(SerialStep::Chunk(chunk));
                    }
                } else {
                    let ghost pending = self.out@;
                    let ghost m = self.emitted@;
                    self.at_trailer = true;
                    if self.out.len() > 0 {
                        let n: usize = self.out.len();
                        let chunk: Vec<u8> = self.emit(n);
                        proof {
                            assert(chunk@ =~= pending);
                            assert(self.out@ =~= Seq::<u8>::empty());
                            assert(self.emitted@ == m + pending);
                            assert(chunk@.len() == n);
                        }
                        return Ok(SerialStep::Chunk(chunk));
                    }
                    proof {
                        assert(m + pending =~= m);
                        assert(pending =~= Seq::<u8>::empty());
                        let r = self.remaining();
                        assert(pending + r.out =~= r.out);
                    }
                }
            }
        }
    }
}

/// One block of the current member, of which `m` was handed on and `out` is pending.
proof fn lemma_serial_block(body: Seq<u8>, offset: int, p: int, m: Seq<u8>, out: Seq<u8>, index: u32)
    requires
        m.len() > 0 ==> out.len() >= WINDOW,
    ensures
        ({
            let b = block(body, p, out);
            let r = serial_from(body, offset, p, m + out, index);
            match b.end {
                Err(e) => r.end == Err::<int, Error>(Error::Deflate(e)),
                Ok((q, true)) => {
                    let a = after_stream(body, offset, q, m + b.out, index);
                    out + r.out == b.out + a.out && r.end == a.end
                },
                Ok((q, false)) => {
                    let a = serial_from(body, offset, q, m + b.out, index);
                    out + r.out == b.out + a.out && r.end == a.end
                },
            }
        }),
{
    let far = bit_len(body) + 1;
    let b = block(body, p, out);
    if m.len() > 0 {
        lemma_block_window(body, p, m, out);
    } else {
        assert(m + out =~= out);
        assert(m + b.out =~= b.out);
    }
    lemma_until_step(body, p, far, m + out);
    lemma_block_advances(body, p, out);
    lemma_block_extends(body, p, out);
    lemma_serial_parts(body, offset, p, m + out, index);
    match b.end {
        Ok((q, true)) => {
            let r = serial_from(body, offset, p, m + out, index);
            let a = after_stream(body, offset, q, m + b.out, index);
            assert(until(body, p, far, m + out).out == m + b.out);
            assert(m + (out + r.out) =~= (m + out) + r.out);
            assert(m + (b.out + a.out) =~= (m + b.out) + a.out);
            lemma_cancel_left(m, out + r.out, b.out + a.out);
        },
        Ok((q, false)) => {
            lemma_serial_parts(body, offset, q, m + b.out, index);
            let r = serial_from(body, offset, p, m + out, index);
            let a = serial_from(body, offset, q, m + b.out, index);
            assert(until(body, p, far, m + out) == until(
                body,
                q,
                far,
                m + b.out,
            ));
            assert(m + (out + r.out) =~= (m + out) + r.out);
            assert(m + (b.out + a.out) =~= (m + b.out) + a.out);
            lemma_cancel_left(m, out + r.out, b.out + a.out);
        },
        _ => {},
    }
}

pub proof fn lemma_cancel_left(m: Seq<u8>, a: Seq<u8>, b: Seq<u8>)
    requires
        m + a == m + b,
    ensures
        a == b,
{
    assert((m + a).len() == m.len() + a.len());
    assert((m + b).len() == m.len() + b.len());
    assert forall|i: int| 0 <= i < a.len() implies a[i] == b[i] by {
        assert((m + a)[m.len() + i] == a[i]);
        assert((m + b)[m.len() + i] == b[i]);
    }
    assert(a =~= b);
}

/// The rest of a body in two parts: the current member, and what follows it.
pub proof fn lemma_serial_parts(body: Seq<u8>, offset: int, p: int, m: Seq<u8>, index: u32)
    ensures
        ({
            let d = until(body, p, bit_len(body) + 1, m);
            let r = serial_from(body, offset, p, m, index);
            match d.end {
                Err(e) => m + r.out == d.out && r.end == Err::<int, Error>(Error::Deflate(e)),
                Ok((q, _)) => {
                    let a = after_stream(body, offset, q, d.out, index);
                    m + r.out == d.out + a.out && r.end == a.end
                },
            }
        }),
{
    reveal(serial_from);
    reveal(after_stream);
    let d = until(body, p, bit_len(body) + 1, m);
    let r = serial_from(body, offset, p, m, index);
    law_decoding_appends(body, p, bit_len(body) + 1, m);
    assert(m + d.out.skip(m.len() as int) =~= d.out);
    if let Ok((q, _)) = d.end {
        let a = after_stream(body, offset, q, d.out, index);
        assert(m + (d.out.skip(m.len() as int) + a.out) =~= d.out + a.out);
    }
}

/// A piece that is not the last of its member has at least the target size, and the
/// last 32 KiB before it are kept back; with the last one nothing is kept back.
pub proof fn law_piece_sizes(body: Seq<u8>, offset: int, target: int, s: SerialState)
    requires
        target >= 0,
    ensures
        match serial_next(body, offset, target, s) {
            SerialNext::Chunk(c, next) => if next.at_trailer {
                c.len() > 0 && next.held.len() == 0
            } else {
                c.len() >= target && next.held.len() == 32768
            },
            _ => true,
        },
    decreases bit_len(body) - s.p,
{
    reveal(serial_next);
    lemma_next_stream(body, s.p);
    lemma_block_advances(body, s.p, s.held);
    if s.at_trailer {
        let t = align_up(s.p) / 8;
        if 0 <= s.p && t + 8 < body.len() {
            if let Ok(next) = tally_end(tally_of(s.m, s.index), trailer_of(body, offset, t)) {
                if let Ok(h) = header_len(body.skip(t + 8)) {
                    law_piece_sizes(body, offset, target, member_from(8 * (t + 8 + h), next.index));
                }
            }
        }
    } else {
        let b = block(body, s.p, s.held);
        match b.end {
            Ok((q, false)) => {
                if b.out.len() < target + WINDOW {
                    law_piece_sizes(body, offset, target, SerialState { p: q, held: b.out, ..s });
                }
            },
            Ok((q, true)) => {
                let done = SerialState { p: q, held: Seq::empty(), m: s.m + b.out, index: s.index, at_trailer: true };
                if b.out.len() == 0 {
                    law_piece_sizes(body, offset, target, done);
                }
            },
            Err(_) => {},
        }
    }
}

/// Pieces have the chunk size, but no less than 64 KiB.
pub proof fn law_piece_target(chunk_size_bytes: int)
    ensures
        piece_target(chunk_size_bytes) >= 65536,
        piece_target(chunk_size_bytes) >= chunk_size_bytes,
        piece_target(chunk_size_bytes) > 65536 ==> piece_target(chunk_size_bytes) == chunk_size_bytes,
{
}

/// A piece ends with the first block that makes it long enough: before that block
/// there was less than the target size besides the last 32 KiB.
pub proof fn law_piece_ends_soon(body: Seq<u8>, offset: int, target: int, s: SerialState) -> (before: SerialState)
    requires
        target >= 0,
        s.held.len() < target + 32768,
    ensures
        match serial_next(body, offset, target, s) {
            SerialNext::Chunk(c, next) => {
                &&& before.held.len() < target + 32768
                &&& block(body, before.p, before.held).out == c + next.held
                &&& block(body, before.p, before.held).end == Ok::<(int, bool), DeflateError>((next.p, next.at_trailer))
            },
            _ => true,
        },
    decreases bit_len(body) - s.p,
{
    reveal(serial_next);
    lemma_next_stream(body, s.p);
    lemma_block_advances(body, s.p, s.held);
    if s.at_trailer {
        let t = align_up(s.p) / 8;
        match (tally_end(tally_of(s.m, s.index), trailer_of(body, offset, t)), header_len(body.skip(t + 8))) {
            (Ok(next), Ok(h)) => if 0 <= s.p && t + 8 < body.len() {
                law_piece_ends_soon(body, offset, target, member_from(8 * (t + 8 + h), next.index))
            } else {
                s
            },
            _ => s,
        }
    } else {
        let b = block(body, s.p, s.held);
        match b.end {
            Ok((q, false)) => if b.out.len() < target + WINDOW {
                law_piece_ends_soon(body, offset, target, SerialState { p: q, held: b.out, ..s })
            } else {
                let n = b.out.len() - WINDOW;
                assert(b.out =~= b.out.take(n) + b.out.skip(n));
                s
            },
            Ok((q, true)) => if b.out.len() == 0 {
                let done = SerialState { p: q, held: Seq::empty(), m: s.m + b.out, index: s.index, at_trailer: true };
                law_piece_ends_soon(body, offset, target, done)
            } else {
                assert(b.out + Seq::<u8>::empty() =~= b.out);
                s
            },
            Err(_) => s,
        }
    }
}

} // verus!
