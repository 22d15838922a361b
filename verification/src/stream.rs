//! Decoding a file that comes in pieces, such as from a pipe.
//!
//! Compressed bytes are kept until the block that they belong to is complete.
//! A block that is not complete yet is decoded again, from its start, when
//! more bytes have come.
use vstd::prelude::*;
use crate::Error;
use crate::checksum::lemma_crc32_empty;
use crate::deflate::DeflateError;
use crate::deflate::bit_reader::{BitReader, addressable};
use crate::deflate::bits::{align_up, bit_len};
use crate::deflate::cells::lemma_block_window;
use crate::deflate::embed::{embedded, lemma_block_embedded, law_until_embedded};
use crate::deflate::format::{
    WINDOW, block, until, law_decoding_appends, lemma_block_advances, lemma_block_extends, lemma_until_advances,
    lemma_until_step,
};
use crate::deflate::inflate::inflate_block;
use crate::gzip::{
    GzipError, after_zero, after_extra, after_string, header_len, parse_header, read_le32, lemma_after_zero,
    law_header_len_bounds, FNAME, FEXTRA,
};
use crate::members::{MemberTally, tally_end, tally_of, law_tally_append};
use crate::pipeline::MemberBoundary;
use crate::serial::{Rest, trailer_of, lemma_cancel_left};

verus! {

/// How a failure to decode is reported: input that runs out is a truncated file.
pub open spec fn stream_error(e: DeflateError) -> Error {
    if e == DeflateError::UnexpectedEof {
        Error::Gzip(GzipError::Truncated)
    } else {
        Error::Deflate(e)
    }
}

/// Decodes a part of a file that starts at byte `base` of it, from byte `a` on,
/// where a member starts or the file ends. On success: how many members there were.
#[verifier::opaque]
pub open spec fn gunzip_member(s: Seq<u8>, base: int, a: int, index: u32, any: bool) -> Rest
    decreases bit_len(s) - 8 * a,
{
    proof {
        law_header_len_bounds(s.skip(a));
    }
    if a < 0 || a >= s.len() {
        Rest {
            out: Seq::empty(),
            end: if any {
                Ok(index as int)
            } else {
                Err(Error::Gzip(GzipError::Truncated))
            },
        }
    } else {
        match header_len(s.skip(a)) {
            Err(e) => Rest { out: Seq::empty(), end: Err(Error::Gzip(e)) },
            Ok(h) => gunzip_blocks(s, base, 8 * (a + h), Seq::empty(), index),
        }
    }
}

/// Decodes a file from bit `p` on, inside a member that has produced `m` so far.
#[verifier::opaque]
pub open spec fn gunzip_blocks(s: Seq<u8>, base: int, p: int, m: Seq<u8>, index: u32) -> Rest
    decreases bit_len(s) - p,
{
    proof {
        lemma_until_advances(s, p, bit_len(s) + 1, m);
    }
    let d = until(s, p, bit_len(s) + 1, m);
    let out = d.out.skip(m.len() as int);
    match d.end {
        Err(e) => Rest { out, end: Err(stream_error(e)) },
        Ok((q, _)) => {
            let r = gunzip_trailer(s, base, align_up(q) / 8, d.out, index);
            Rest { out: out + r.out, end: r.end }
        },
    }
}

/// Decodes a file from byte `t` on, where the trailer of the member `m` starts.
#[verifier::opaque]
pub open spec fn gunzip_trailer(s: Seq<u8>, base: int, t: int, m: Seq<u8>, index: u32) -> Rest
    decreases bit_len(s) - 8 * t,
{
    if t + 8 > s.len() {
        Rest { out: Seq::empty(), end: Err(Error::Gzip(GzipError::Truncated)) }
    } else {
        match tally_end(tally_of(m, index), trailer_of(s, base, t)) {
            Err(e) => Rest { out: Seq::empty(), end: Err(Error::Gzip(e)) },
            Ok(next) => gunzip_member(s, base, t + 8, next.index, true),
        }
    }
}

/// What a gzip file decodes to. On success: how many members it has.
pub open spec fn gunzip(s: Seq<u8>) -> Rest {
    gunzip_member(s, 0, 0, 0, false)
}

/// A header that is complete stays the same when more bytes follow.
pub proof fn law_header_stable(s: Seq<u8>, more: Seq<u8>)
    requires
        header_len(s) != Err::<int, GzipError>(GzipError::Truncated),
    ensures
        header_len(s + more) == header_len(s),
{
    reveal(header_len);
    let t = s + more;
    if s.len() >= 10 {
        assert(t[0] == s[0] && t[1] == s[1] && t[2] == s[2] && t[3] == s[3]);
        if after_extra(s, s[3], 10) is Ok {
            assert(after_extra(t, s[3], 10) == after_extra(s, s[3], 10)) by {
                if s[3] & FEXTRA != 0 {
                    assert(t[10] == s[10] && t[11] == s[11]);
                }
            }
            let a = after_extra(s, s[3], 10)->Ok_0;
            lemma_after_zero_stable(s, more, a);
            lemma_after_zero(s, a);
            if after_string(s, s[3] & FNAME != 0, a) is Ok {
                let b = after_string(s, s[3] & FNAME != 0, a)->Ok_0;
                lemma_after_zero_stable(s, more, b);
                lemma_after_zero(s, b);
            }
        }
    }
}

proof fn lemma_after_zero_stable(s: Seq<u8>, more: Seq<u8>, from: int)
    ensures
        after_zero(s, from) is Ok ==> after_zero(s + more, from) == after_zero(s, from),
    decreases s.len() - from,
{
    if 0 <= from < s.len() {
        assert((s + more)[from] == s[from]);
        if s[from] != 0 {
            lemma_after_zero_stable(s, more, from + 1);
        }
    }
}

proof fn lemma_skip_embedded(s: Seq<u8>, k: int)
    requires
        0 <= k <= s.len(),
    ensures
        embedded(s.skip(k), s, k),
{
    assert(s.skip(k) =~= s.subrange(k, k + s.skip(k).len()));
}

/// Dropping bytes that were decoded does not change what follows them.
pub proof fn lemma_member_shift(s: Seq<u8>, base: int, k: int, a: int, index: u32, any: bool)
    requires
        0 <= k <= s.len(),
        0 <= a,
    ensures
        gunzip_member(s.skip(k), base + k, a, index, any) == gunzip_member(s, base, a + k, index, any),
    decreases bit_len(s.skip(k)) - 8 * a,
{
    reveal(gunzip_member);
    reveal(gunzip_blocks);
    reveal(gunzip_trailer);
    let t = s.skip(k);
    if a < t.len() {
        assert(t.skip(a) =~= s.skip(a + k));
        law_header_len_bounds(t.skip(a));
        if let Ok(h) = header_len(t.skip(a)) {
            lemma_blocks_shift(s, base, k, 8 * (a + h), Seq::empty(), index);
        }
    }
}

pub proof fn lemma_blocks_shift(s: Seq<u8>, base: int, k: int, p: int, m: Seq<u8>, index: u32)
    requires
        0 <= k <= s.len(),
        0 <= p,
    ensures
        gunzip_blocks(s.skip(k), base + k, p, m, index) == gunzip_blocks(s, base, p + 8 * k, m, index),
    decreases bit_len(s.skip(k)) - p,
{
    reveal(gunzip_member);
    reveal(gunzip_blocks);
    reveal(gunzip_trailer);
    let t = s.skip(k);
    let far = bit_len(t) + 1;
    lemma_skip_embedded(s, k);
    law_until_embedded(t, s, k, p, far, m);
    lemma_until_advances(t, p, far, m);
    assert(far + 8 * k == bit_len(s) + 1);
    let d = until(t, p, far, m);
    if let Ok((q, _)) = d.end {
        let u = align_up(q) / 8;
        assert(align_up(q + 8 * k) / 8 == u + k);
        lemma_trailer_shift(s, base, k, u, d.out, index);
    }
}

proof fn lemma_trailer_shift(s: Seq<u8>, base: int, k: int, u: int, m: Seq<u8>, index: u32)
    requires
        0 <= k <= s.len(),
        0 <= u,
    ensures
        gunzip_trailer(s.skip(k), base + k, u, m, index) == gunzip_trailer(s, base, u + k, m, index),
    decreases bit_len(s.skip(k)) - 8 * u,
{
    reveal(gunzip_member);
    reveal(gunzip_blocks);
    reveal(gunzip_trailer);
    let t = s.skip(k);
    if u + 8 <= t.len() {
        assert(trailer_of(t, base + k, u) == trailer_of(s, base, u + k));
        if let Ok(next) = tally_end(tally_of(m, index), trailer_of(t, base + k, u)) {
            lemma_member_shift(s, base, k, u + 8, next.index, true);
        }
    }
}

/// Something that may have to wait for more input.
#[derive(Debug)]
pub enum Polled<T> {
    /// More input is needed; nothing has changed.
    NeedInput,
    Ready(T),
}

/// Compressed bytes that came and were not decoded yet.
pub struct StreamBuf {
    buf: Vec<u8>,
    /// The first bit of `buf` that was not decoded yet.
    bit_off: u64,
    src_eof: bool,
    /// Where `buf` stands in the file, modulo 2^64.
    dropped: u64,
    at: Ghost<int>,
}

impl StreamBuf {
    pub closed spec fn bytes(&self) -> Seq<u8> {
        self.buf@
    }

    pub closed spec fn bit(&self) -> int {
        self.bit_off as int
    }

    /// Where the bytes stand in the file.
    pub closed spec fn at(&self) -> int {
        self.at@
    }

    /// Where the bytes stand in the file is known modulo 2^64.
    closed spec fn placed(&self) -> bool {
        0 <= self.at@ && self.dropped == self.at@ % 0x1_0000_0000_0000_0000
    }

    /// All input has come.
    pub closed spec fn eof(&self) -> bool {
        self.src_eof
    }

    pub closed spec fn wf(&self) -> bool {
        &&& self.placed()
        &&& addressable(self.bytes())
        &&& 0 <= self.bit() < 8
        &&& self.bit() <= bit_len(self.bytes())
    }

    pub fn new() -> (b: StreamBuf)
        ensures
            b.wf(),
            b.bytes() == Seq::<u8>::empty(),
            b.bit() == 0,
            b.at() == 0,
            !b.eof(),
    {
        StreamBuf { buf: Vec::new(), bit_off: 0, src_eof: false, dropped: 0, at: Ghost(0) }
    }

    /// Takes in what a read gave: some bytes, or none at the end of the input.
    pub fn feed(&mut self, bytes: &[u8])
        requires
            old(self).wf(),
            addressable(old(self).bytes() + bytes@),
        ensures
            final(self).wf(),
            final(self).bytes() == old(self).bytes() + bytes@,
            final(self).bit() == old(self).bit(),
            final(self).at() == old(self).at(),
            final(self).eof() == (old(self).eof() || bytes@.len() == 0),
    {
        if bytes.len() == 0 {
            self.src_eof = true;
        }
        self.buf.extend_from_slice(bytes);
        assert(self.buf@ =~= old(self).buf@ + bytes@);
    }

    /// True if no byte waits.
    pub fn is_empty(&self) -> (b: bool)
        ensures
            b == (self.bytes().len() == 0),
    {
        self.buf.len() == 0
    }

    /// True if all input has come.
    pub fn is_eof(&self) -> (b: bool)
        ensures
            b == self.eof(),
    {
        self.src_eof
    }

    /// Drops the first `n` bytes.
    fn drop_front(&mut self, n: usize)
        requires
            n <= old(self).buf@.len(),
            old(self).placed(),
        ensures
            final(self).placed(),
            final(self).at() == old(self).at() + n,
            final(self).buf@ == old(self).buf@.skip(n as int),
            final(self).bit_off == old(self).bit_off,
            final(self).src_eof == old(self).src_eof,
    {
        if n > 0 {
            self.buf = vstd::slice::slice_to_vec(
                vstd::slice::slice_subrange(self.buf.as_slice(), n, self.buf.len()),
            );
        }
        self.dropped = self.dropped.wrapping_add(n as u64);
        proof {
            self.at@ = self.at@ + n;
        }
        assert(self.buf@ =~= old(self).buf@.skip(n as int));
    }

    /// Decodes the next block, if all of it has come; true if it is the last
    /// of its stream.
    pub fn decode_block(&mut self, out: &mut Vec<u8>) -> (r: Result<Polled<bool>, Error>)
        requires
            old(self).wf(),
        ensures
            ({
                let b = block(old(self).bytes(), old(self).bit(), old(out)@);
                match b.end {
                    Ok((q, last)) => {
                        &&& r == Ok::<Polled<bool>, Error>(Polled::Ready(last))
                        &&& final(out)@ == b.out
                        &&& final(self).wf()
                        &&& final(self).bytes() == old(self).bytes().skip(q / 8)
                        &&& final(self).bit() == q % 8
                        &&& final(self).at() == old(self).at() + q / 8
                        &&& final(self).eof() == old(self).eof()
                    },
                    Err(e) => if e != DeflateError::UnexpectedEof {
                        r == Err::<Polled<bool>, Error>(Error::Deflate(e)) && final(out)@ == b.out
                    } else if old(self).eof() {
                        r == Err::<Polled<bool>, Error>(Error::Gzip(GzipError::Truncated)) && final(out)@ == old(out)@
                    } else {
                        &&& r == Ok::<Polled<bool>, Error>(Polled::NeedInput)
                        &&& final(out)@ == old(out)@
                        &&& *final(self) == *old(self)
                    },
                }
            }),
    {
        let start_len: usize = out.len();
        proof {
            lemma_block_extends(self.bytes(), self.bit(), out@);
            lemma_block_advances(self.bytes(), self.bit(), out@);
        }
        let mut br = BitReader::new(self.buf.as_slice());
        match br.seek_to_bit(self.bit_off) {
            Ok(()) => {},
            Err(e) => {
                return Err(Error::Deflate(e));
            },
        }
        match inflate_block(&mut br, out) {
            Ok(last) => {
                let pos: u64 = br.tell_bit();
                let len: usize = self.buf.len();
                let consumed: usize = (pos / 8) as usize;
                self.drop_front(consumed);
                self.bit_off = pos % 8;
                Ok(Polled::Ready(last))
            },
            Err(DeflateError::UnexpectedEof) => {
                out.truncate(start_len);
                assert(out@ =~= old(out)@);
                if self.src_eof {
                    return Err(Error::Gzip(GzipError::Truncated));
                }
                Ok(Polled::NeedInput)
            },
            Err(e) => Err(Error::Deflate(e)),
        }
    }

    /// Steps to the next byte boundary.
    pub fn byte_align(&mut self)
        requires
            old(self).wf(),
        ensures
            final(self).wf(),
            final(self).bytes() == old(self).bytes().skip(align_up(old(self).bit()) / 8),
            final(self).bit() == 0,
            final(self).at() == old(self).at() + align_up(old(self).bit()) / 8,
            final(self).eof() == old(self).eof(),
    {
        if self.bit_off > 0 {
            self.drop_front(1);
            self.bit_off = 0;
        }
        assert(self.bytes() =~= old(self).bytes().skip(align_up(old(self).bit()) / 8));
    }

    /// Reads the trailer of a member: its checksum, its size, and where it stands.
    pub fn read_trailer(&mut self) -> (r: Result<Polled<MemberBoundary>, Error>)
        requires
            old(self).wf(),
            old(self).bit() == 0,
        ensures
            if old(self).bytes().len() >= 8 {
                &&& r == Ok::<Polled<MemberBoundary>, Error>(
                    Polled::Ready(trailer_of(old(self).bytes(), old(self).at(), 0)),
                )
                &&& final(self).wf()
                &&& final(self).bytes() == old(self).bytes().skip(8)
                &&& final(self).bit() == 0
                &&& final(self).at() == old(self).at() + 8
                &&& final(self).eof() == old(self).eof()
            } else if old(self).eof() {
                r == Err::<Polled<MemberBoundary>, Error>(Error::Gzip(GzipError::Truncated))
            } else {
                &&& r == Ok::<Polled<MemberBoundary>, Error>(Polled::NeedInput)
                &&& *final(self) == *old(self)
            },
    {
        if self.buf.len() < 8 {
            if self.src_eof {
                return Err(Error::Gzip(GzipError::Truncated));
            }
            return Ok(Polled::NeedInput);
        }
        let trailer = MemberBoundary {
            byte_offset_in_chunk: 0,
            crc_expected: read_le32(self.buf.as_slice(), 0),
            isize_expected: read_le32(self.buf.as_slice(), 4),
            trailer_input_byte: self.dropped,
        };
        self.drop_front(8);
        Ok(Polled::Ready(trailer))
    }

    /// Reads the header of a member.
    pub fn read_gzip_header(&mut self) -> (r: Result<Polled<()>, Error>)
        requires
            old(self).wf(),
            old(self).bit() == 0,
        ensures
            match header_len(old(self).bytes()) {
                Ok(h) => {
                    &&& r == Ok::<Polled<()>, Error>(Polled::Ready(()))
                    &&& final(self).wf()
                    &&& final(self).bytes() == old(self).bytes().skip(h)
                    &&& final(self).bit() == 0
                    &&& final(self).at() == old(self).at() + h
                    &&& final(self).eof() == old(self).eof()
                },
                Err(e) => if e != GzipError::Truncated || old(self).eof() {
                    r == Err::<Polled<()>, Error>(Error::Gzip(e))
                } else {
                    &&& r == Ok::<Polled<()>, Error>(Polled::NeedInput)
                    &&& *final(self) == *old(self)
                },
            },
    {
        proof {
            law_header_len_bounds(self.bytes());
        }
        match parse_header(self.buf.as_slice()) {
            Ok(h) => {
                self.drop_front(h);
                Ok(Polled::Ready(()))
            },
            Err(GzipError::Truncated) => {
                if self.src_eof {
                    return Err(Error::Gzip(GzipError::Truncated));
                }
                Ok(Polled::NeedInput)
            },
            Err(e) => Err(Error::Gzip(e)),
        }
    }
}

/// Where in a member a [`StreamDecoder`] stands.
#[derive(Debug, Clone, Copy, PartialEq, Eq, Structural)]
pub enum Phase {
    Header,
    Blocks,
    Trailer,
}

/// The state of a [`StreamDecoder`]: the bytes that wait, which stand at byte `at`
/// of the file, from bit `bit` on, and
/// whether they are the last; the output of the current member that is held
/// back, and what was handed on of it; its number, and whether one came before it.
pub ghost struct StreamState {
    pub at: int,
    pub buf: Seq<u8>,
    pub bit: int,
    pub eof: bool,
    pub phase: Phase,
    pub held: Seq<u8>,
    pub m: Seq<u8>,
    pub index: u32,
    pub any: bool,
}

impl StreamState {
    /// The decoder stands in the first byte that waits, and on a byte boundary
    /// before a header.
    pub open spec fn wf(self) -> bool {
        &&& 0 <= self.bit < 8
        &&& self.bit <= bit_len(self.buf)
        &&& self.phase == Phase::Header ==> self.bit == 0
    }
}

/// What a [`StreamDecoder`] does next.
pub ghost enum StreamNext {
    NeedInput(StreamState),
    Chunk(Seq<u8>, StreamState),
    Done,
    Fail(Error),
}

/// How many bytes are handed on after a block, of `len` that are held back: all
/// at the end of a member, and else all but the last 32 KiB.
pub open spec fn handed_on(len: int, last: bool) -> int {
    if last {
        len
    } else if len > WINDOW {
        len - WINDOW
    } else {
        0
    }
}

/// What comes next of the bytes that wait: the output that the first block gives
/// that gives any, unless more input is needed before that.
#[verifier::opaque]
pub open spec fn stream_next(s: StreamState) -> StreamNext
    decreases bit_len(s.buf) - s.bit,
{
    proof {
        law_header_len_bounds(s.buf);
        lemma_block_advances(s.buf, s.bit, s.held);
    }
    if !s.wf() {
        StreamNext::NeedInput(s)
    } else {
        match s.phase {
            Phase::Header => if s.buf.len() == 0 {
                if !s.eof {
                    StreamNext::NeedInput(s)
                } else if s.any {
                    StreamNext::Done
                } else {
                    StreamNext::Fail(Error::Gzip(GzipError::Truncated))
                }
            } else {
                match header_len(s.buf) {
                    Ok(h) => stream_next(
                        StreamState { at: s.at + h, buf: s.buf.skip(h), phase: Phase::Blocks, ..s },
                    ),
                    Err(e) => if e == GzipError::Truncated && !s.eof {
                        StreamNext::NeedInput(s)
                    } else {
                        StreamNext::Fail(Error::Gzip(e))
                    },
                }
            },
            Phase::Blocks => {
                let b = block(s.buf, s.bit, s.held);
                match b.end {
                    Err(e) => if e == DeflateError::UnexpectedEof && !s.eof {
                        StreamNext::NeedInput(s)
                    } else {
                        StreamNext::Fail(stream_error(e))
                    },
                    Ok((q, last)) => {
                        let n = handed_on(b.out.len() as int, last);
                        let next = StreamState {
                            at: s.at + q / 8,
                            buf: s.buf.skip(q / 8),
                            bit: q % 8,
                            phase: if last {
                                Phase::Trailer
                            } else {
                                Phase::Blocks
                            },
                            held: b.out.skip(n),
                            m: s.m + b.out.take(n),
                            ..s
                        };
                        if n > 0 {
                            StreamNext::Chunk(b.out.take(n), next)
                        } else {
                            stream_next(next)
                        }
                    },
                }
            },
            Phase::Trailer => {
                let k = align_up(s.bit) / 8;
                let buf = s.buf.skip(k);
                if buf.len() < 8 {
                    if s.eof {
                        StreamNext::Fail(Error::Gzip(GzipError::Truncated))
                    } else {
                        StreamNext::NeedInput(StreamState { at: s.at + k, buf, bit: 0, ..s })
                    }
                } else {
                    match tally_end(tally_of(s.m, s.index), trailer_of(buf, s.at + k, 0)) {
                        Err(e) => StreamNext::Fail(Error::Gzip(e)),
                        Ok(next) => stream_next(
                            StreamState {
                                at: s.at + k + 8,
                                buf: buf.skip(8),
                                bit: 0,
                                phase: Phase::Header,
                                m: Seq::empty(),
                                index: next.index,
                                any: true,
                                ..s
                            },
                        ),
                    }
                }
            },
        }
    }
}

/// What a step of a [`StreamDecoder`] gave.
pub enum StreamStep {
    /// More input is needed.
    NeedInput,
    /// The next piece of output.
    Chunk(Vec<u8>),
    /// The whole file has been decoded.
    Done,
}

/// Decodes a gzip file as it comes in. Between two pieces of output it keeps
/// the last 32 KiB, from which matches copy.
pub struct StreamDecoder {
    sb: StreamBuf,
    phase: Phase,
    /// Output of the current member that was not handed on yet.
    out: Vec<u8>,
    /// The tally of what was handed on of the current member.
    tally: MemberTally,
    any_member: bool,
    emitted: Ghost<Seq<u8>>,
}

impl StreamDecoder {
    pub closed spec fn wf(&self) -> bool {
        &&& self.sb.wf()
        &&& self.tally == tally_of(self.emitted@, self.tally.index)
        &&& self.phase != Phase::Blocks ==> self.out@.len() == 0
        &&& self.phase == Phase::Header ==> self.sb.bit() == 0 && self.emitted@.len() == 0
        &&& self.phase == Phase::Blocks && self.emitted@.len() > 0 ==> self.out@.len() >= WINDOW
    }

    /// The compressed bytes that wait.
    pub closed spec fn waiting(&self) -> Seq<u8> {
        self.sb.bytes()
    }

    /// All input has come.
    pub closed spec fn eof(&self) -> bool {
        self.sb.eof()
    }

    pub closed spec fn state(&self) -> StreamState {
        StreamState {
            at: self.sb.at(),
            buf: self.sb.bytes(),
            bit: self.sb.bit(),
            eof: self.sb.eof(),
            phase: self.phase,
            held: self.out@,
            m: self.emitted@,
            index: self.tally.index,
            any: self.any_member,
        }
    }

    /// What is still to be handed on if `more` is all that is still to come,
    /// and how it ends.
    pub closed spec fn remaining(&self, more: Seq<u8>) -> Rest {
        let s = self.sb.bytes() + more;
        let base = self.sb.at();
        match self.phase {
            Phase::Header => gunzip_member(s, base, 0, self.tally.index, self.any_member),
            Phase::Blocks => {
                let r = gunzip_blocks(s, base, self.sb.bit(), self.emitted@ + self.out@, self.tally.index);
                Rest { out: self.out@ + r.out, end: r.end }
            },
            Phase::Trailer => gunzip_trailer(s, base, align_up(self.sb.bit()) / 8, self.emitted@, self.tally.index),
        }
    }

    /// A decoder at the start of a file.
    pub fn new() -> (d: StreamDecoder)
        ensures
            d.wf(),
            d.waiting() == Seq::<u8>::empty(),
            !d.eof(),
            d.state() == (StreamState {
                at: 0,
                buf: Seq::empty(),
                bit: 0,
                eof: false,
                phase: Phase::Header,
                held: Seq::empty(),
                m: Seq::empty(),
                index: 0,
                any: false,
            }),
            forall|s: Seq<u8>| #[trigger] d.remaining(s) == gunzip(s),
    {
        let d = StreamDecoder {
            sb: StreamBuf::new(),
            phase: Phase::Header,
            out: Vec::new(),
            tally: MemberTally::new(),
            any_member: false,
            emitted: Ghost(Seq::empty()),
        };
        proof {
            lemma_crc32_empty();
            assert(d.out@ =~= Seq::<u8>::empty());
            assert forall|s: Seq<u8>| #[trigger] d.remaining(s) == gunzip(s) by {
                assert(d.sb.bytes() + s =~= s);
            }
        }
        d
    }

    /// Takes in what a read gave: some bytes, or none at the end of the input.
    pub fn feed(&mut self, bytes: &[u8])
        requires
            old(self).wf(),
            addressable(old(self).waiting() + bytes@),
        ensures
            final(self).wf(),
            final(self).waiting() == old(self).waiting() + bytes@,
            final(self).eof() == (old(self).eof() || bytes@.len() == 0),
            final(self).state() == (StreamState {
                buf: old(self).state().buf + bytes@,
                eof: old(self).state().eof || bytes@.len() == 0,
                ..old(self).state()
            }),
            forall|more: Seq<u8>| #[trigger] final(self).remaining(more) == old(self).remaining(bytes@ + more),
    {
        self.sb.feed(bytes);
        assert forall|more: Seq<u8>| #[trigger] self.remaining(more) == old(self).remaining(bytes@ + more) by {
            assert(self.sb.bytes() + more =~= old(self).sb.bytes() + (bytes@ + more));
        }
    }
}

/// A file from some bit inside a member on: the current member, and what follows it.
proof fn lemma_blocks_parts(s: Seq<u8>, base: int, p: int, m: Seq<u8>, index: u32)
    ensures
        ({
            let d = until(s, p, bit_len(s) + 1, m);
            let r = gunzip_blocks(s, base, p, m, index);
            match d.end {
                Err(e) => m + r.out == d.out && r.end == Err::<int, Error>(stream_error(e)),
                Ok((q, _)) => {
                    let a = gunzip_trailer(s, base, align_up(q) / 8, d.out, index);
                    m + r.out == d.out + a.out && r.end == a.end
                },
            }
        }),
{
    reveal(gunzip_member);
    reveal(gunzip_blocks);
    reveal(gunzip_trailer);
    let d = until(s, p, bit_len(s) + 1, m);
    law_decoding_appends(s, p, bit_len(s) + 1, m);
    assert(m + d.out.skip(m.len() as int) =~= d.out);
    if let Ok((q, _)) = d.end {
        let a = gunzip_trailer(s, base, align_up(q) / 8, d.out, index);
        assert(m + (d.out.skip(m.len() as int) + a.out) =~= d.out + a.out);
    }
}

/// One block of the current member, of which `m` was handed on and `out` is pending.
proof fn lemma_gunzip_block(s: Seq<u8>, base: int, p: int, m: Seq<u8>, out: Seq<u8>, index: u32)
    requires
        m.len() > 0 ==> out.len() >= WINDOW,
    ensures
        ({
            let b = block(s, p, out);
            let r = gunzip_blocks(s, base, p, m + out, index);
            match b.end {
                Err(e) => r.end == Err::<int, Error>(stream_error(e)),
                Ok((q, true)) => {
                    let a = gunzip_trailer(s, base, align_up(q) / 8, m + b.out, index);
                    out + r.out == b.out + a.out && r.end == a.end
                },
                Ok((q, false)) => {
                    let a = gunzip_blocks(s, base, q, m + b.out, index);
                    out + r.out == b.out + a.out && r.end == a.end
                },
            }
        }),
{
    let far = bit_len(s) + 1;
    let b = block(s, p, out);
    if m.len() > 0 {
        lemma_block_window(s, p, m, out);
    } else {
        assert(m + out =~= out);
        assert(m + b.out =~= b.out);
    }
    lemma_until_step(s, p, far, m + out);
    lemma_block_advances(s, p, out);
    lemma_block_extends(s, p, out);
    lemma_blocks_parts(s, base, p, m + out, index);
    match b.end {
        Ok((q, true)) => {
            let r = gunzip_blocks(s, base, p, m + out, index);
            let a = gunzip_trailer(s, base, align_up(q) / 8, m + b.out, index);
            assert(until(s, p, far, m + out).out == m + b.out);
            assert(m + (out + r.out) =~= (m + out) + r.out);
            assert(m + (b.out + a.out) =~= (m + b.out) + a.out);
            lemma_cancel_left(m, out + r.out, b.out + a.out);
        },
        Ok((q, false)) => {
            lemma_blocks_parts(s, base, q, m + b.out, index);
            let r = gunzip_blocks(s, base, p, m + out, index);
            let a = gunzip_blocks(s, base, q, m + b.out, index);
            assert(until(s, p, far, m + out) == until(s, q, far, m + b.out));
            assert(m + (out + r.out) =~= (m + out) + r.out);
            assert(m + (b.out + a.out) =~= (m + b.out) + a.out);
            lemma_cancel_left(m, out + r.out, b.out + a.out);
        },
        _ => {},
    }
}

proof fn lemma_prefix_embedded(s: Seq<u8>, more: Seq<u8>)
    ensures
        embedded(s, s + more, 0),
{
    assert(s =~= (s + more).subrange(0, s.len() as int));
}

/// What a block that is complete does to the rest of the file.
proof fn lemma_block_taken(buf: Seq<u8>, base: int, more: Seq<u8>, bit: int, m: Seq<u8>, out: Seq<u8>, index: u32)
    requires
        0 <= bit < 8,
        m.len() > 0 ==> out.len() >= WINDOW,
        block(buf, bit, out).end != Err::<(int, bool), DeflateError>(DeflateError::UnexpectedEof) || more.len() == 0,
    ensures
        ({
            let b = block(buf, bit, out);
            let r = gunzip_blocks(buf + more, base, bit, m + out, index);
            match b.end {
                Err(e) => r.end == Err::<int, Error>(stream_error(e)),
                Ok((q, true)) => {
                    let a = gunzip_trailer(buf.skip(q / 8) + more, base + q / 8, align_up(q % 8) / 8, m + b.out, index);
                    out + r.out == b.out + a.out && r.end == a.end
                },
                Ok((q, false)) => {
                    let a = gunzip_blocks(buf.skip(q / 8) + more, base + q / 8, q % 8, m + b.out, index);
                    out + r.out == b.out + a.out && r.end == a.end
                },
            }
        }),
{
    let s = buf + more;
    lemma_prefix_embedded(buf, more);
    lemma_block_embedded(buf, s, 0, bit, out);
    lemma_block_advances(buf, bit, out);
    let b = block(buf, bit, out);
    assert(block(s, bit, out).out == b.out);
    assert(block(s, bit, out).end == b.end);
    lemma_gunzip_block(s, base, bit, m, out, index);
    match b.end {
        Ok((q, true)) => {
            assert(s.skip(q / 8) =~= buf.skip(q / 8) + more);
            lemma_trailer_shift(s, base, q / 8, align_up(q % 8) / 8, m + b.out, index);
            assert(align_up(q) / 8 == align_up(q % 8) / 8 + q / 8);
        },
        Ok((q, false)) => {
            assert(s.skip(q / 8) =~= buf.skip(q / 8) + more);
            lemma_blocks_shift(s, base, q / 8, q % 8, m + b.out, index);
            assert(q % 8 + 8 * (q / 8) == q);
        },
        _ => {},
    }
}

/// What a header that is complete does to the rest of the file.
proof fn lemma_header_taken(buf: Seq<u8>, base: int, more: Seq<u8>, index: u32, any: bool)
    requires
        buf.len() > 0,
        header_len(buf) != Err::<int, GzipError>(GzipError::Truncated) || more.len() == 0,
    ensures
        ({
            let r = gunzip_member(buf + more, base, 0, index, any);
            match header_len(buf) {
                Ok(h) => r == gunzip_blocks(buf.skip(h) + more, base + h, 0, Seq::empty(), index),
                Err(e) => r.end == Err::<int, Error>(Error::Gzip(e)),
            }
        }),
{
    reveal(gunzip_member);
    reveal(gunzip_blocks);
    reveal(gunzip_trailer);
    let s = buf + more;
    assert(s.skip(0) =~= s);
    if more.len() == 0 {
        assert(s =~= buf);
    } else {
        law_header_stable(buf, more);
    }
    law_header_len_bounds(buf);
    if let Ok(h) = header_len(buf) {
        assert(s.skip(h) =~= buf.skip(h) + more);
        lemma_blocks_shift(s, base, h, 0, Seq::empty(), index);
    }
}

/// What a trailer that is complete does to the rest of the file.
proof fn lemma_trailer_taken(buf: Seq<u8>, base: int, more: Seq<u8>, m: Seq<u8>, index: u32)
    requires
        buf.len() >= 8 || more.len() == 0,
    ensures
        ({
            let r = gunzip_trailer(buf + more, base, 0, m, index);
            if buf.len() < 8 {
                r.end == Err::<int, Error>(Error::Gzip(GzipError::Truncated))
            } else {
                match tally_end(tally_of(m, index), trailer_of(buf, base, 0)) {
                    Err(e) => r.end == Err::<int, Error>(Error::Gzip(e)),
                    Ok(next) => r == gunzip_member(buf.skip(8) + more, base + 8, 0, next.index, true),
                }
            }
        }),
{
    reveal(gunzip_member);
    reveal(gunzip_blocks);
    reveal(gunzip_trailer);
    let s = buf + more;
    if buf.len() >= 8 {
        assert(trailer_of(s, base, 0) == trailer_of(buf, base, 0));
        if let Ok(next) = tally_end(tally_of(m, index), trailer_of(buf, base, 0)) {
            assert(s.skip(8) =~= buf.skip(8) + more);
            lemma_member_shift(s, base, 8, 0, next.index, true);
        }
    }
}

impl StreamDecoder {
    /// `more` may still come.
    pub open spec fn possible(&self, more: Seq<u8>) -> bool {
        self.eof() ==> more.len() == 0
    }

    /// Bits that wait.
    closed spec fn bits_left(&self) -> int {
        bit_len(self.sb.bytes()) - self.sb.bit()
    }

    /// Reads a header, or finds the end of the file; true at the end.
    fn step_header(&mut self) -> (r: Result<Polled<bool>, Error>)
        requires
            old(self).wf(),
            old(self).phase == Phase::Header,
        ensures
            match r {
                Ok(Polled::NeedInput) => *final(self) == *old(self) && !old(self).eof() && stream_next(old(self).state())
                    == StreamNext::NeedInput(old(self).state()),
                Ok(Polled::Ready(true)) => old(self).eof() && old(self).remaining(Seq::empty()).out == Seq::<u8>::empty()
                    && old(self).remaining(Seq::empty()).end is Ok && stream_next(old(self).state()) == StreamNext::Done,
                Ok(Polled::Ready(false)) => {
                    &&& final(self).wf()
                    &&& stream_next(final(self).state()) == stream_next(old(self).state())
                    &&& final(self).eof() == old(self).eof()
                    &&& final(self).bits_left() < old(self).bits_left()
                    &&& forall|more: Seq<u8>|
                        old(self).possible(more) ==> #[trigger] final(self).remaining(more) == old(self).remaining(more)
                },
                Err(e) => stream_next(old(self).state()) == StreamNext::Fail(e) && forall|more: Seq<u8>|
                    old(self).possible(more) ==> (#[trigger] old(self).remaining(more)).end == Err::<int, Error>(e),
            },
    {
        proof {
            reveal(stream_next);
        }
        if self.sb.is_empty() {
            if !self.sb.is_eof() {
                return Ok(Polled::NeedInput);
            }
            proof {
                reveal(gunzip_member);
                reveal(gunzip_blocks);
                reveal(gunzip_trailer);
                assert forall|more: Seq<u8>| old(self).possible(more) implies (#[trigger] old(self).remaining(more))
                    == old(self).remaining(Seq::empty()) by {
                    assert(more =~= Seq::<u8>::empty());
                }
            }
            if self.any_member {
                return Ok(Polled::Ready(true));
            }
            return Err(Error::Gzip(GzipError::Truncated));
        }
        let ghost buf = self.sb.bytes();
        let ghost base = self.sb.at();
        let ghost index = self.tally.index;
        let ghost any = self.any_member;
        proof {
            law_header_len_bounds(buf);
            assert forall|more: Seq<u8>|
                old(self).possible(more) && (header_len(buf) != Err::<int, GzipError>(GzipError::Truncated)
                    || old(self).eof()) implies match header_len(buf) {
                Ok(h) => (#[trigger] old(self).remaining(more)) == gunzip_blocks(
                    buf.skip(h) + more,
                    base + h,
                    0,
                    Seq::empty(),
                    index,
                ),
                Err(e) => old(self).remaining(more).end == Err::<int, Error>(Error::Gzip(e)),
            } by {
                lemma_header_taken(buf, base, more, index, any);
            }
        }
        match self.sb.read_gzip_header() {
            Ok(Polled::NeedInput) => Ok(Polled::NeedInput),
            Ok(Polled::Ready(())) => {
                self.phase = Phase::Blocks;
                proof {
                    assert forall|more: Seq<u8>| old(self).possible(more) implies #[trigger] self.remaining(more)
                        == old(self).remaining(more) by {
                        assert(self.emitted@ + self.out@ =~= Seq::<u8>::empty());
                        let r = gunzip_blocks(self.sb.bytes() + more, self.sb.at(), 0, Seq::empty(), index);
                        assert(self.out@ + r.out =~= r.out);
                    }
                }
                Ok(Polled::Ready(false))
            },
            Err(e) => Err(e),
        }
    }

    /// Reads a trailer and checks the member that it ends.
    fn step_trailer(&mut self) -> (r: Result<Polled<()>, Error>)
        requires
            old(self).wf(),
            old(self).phase == Phase::Trailer,
        ensures
            match r {
                Ok(Polled::NeedInput) => {
                    &&& final(self).wf()
                    &&& !old(self).eof()
                    &&& !final(self).eof()
                    &&& stream_next(old(self).state()) == StreamNext::NeedInput(final(self).state())
                    &&& final(self).waiting().len() <= old(self).waiting().len()
                    &&& forall|more: Seq<u8>| #[trigger] final(self).remaining(more) == old(self).remaining(more)
                },
                Ok(Polled::Ready(())) => {
                    &&& final(self).wf()
                    &&& stream_next(final(self).state()) == stream_next(old(self).state())
                    &&& final(self).eof() == old(self).eof()
                    &&& final(self).bits_left() < old(self).bits_left()
                    &&& forall|more: Seq<u8>|
                        old(self).possible(more) ==> #[trigger] final(self).remaining(more) == old(self).remaining(more)
                },
                Err(e) => stream_next(old(self).state()) == StreamNext::Fail(e) && forall|more: Seq<u8>|
                    old(self).possible(more) ==> (#[trigger] old(self).remaining(more)).end == Err::<int, Error>(e),
            },
    {
        proof {
            reveal(stream_next);
        }
        let ghost buf0 = self.sb.bytes();
        let ghost base0 = self.sb.at();
        let ghost k = align_up(self.sb.bit()) / 8;
        let ghost m = self.emitted@;
        let ghost index = self.tally.index;
        self.sb.byte_align();
        let ghost buf = self.sb.bytes();
        let ghost base = self.sb.at();
        proof {
            assert forall|more: Seq<u8>| #[trigger] old(self).remaining(more) == gunzip_trailer(
                buf + more,
                base,
                0,
                m,
                index,
            ) by {
                assert((buf0 + more).skip(k) =~= buf + more);
                lemma_trailer_shift(buf0 + more, base0, k, 0, m, index);
            }
            assert forall|more: Seq<u8>|
                old(self).possible(more) && (buf.len() >= 8 || old(self).eof()) implies (if buf.len() < 8 {
                (#[trigger] old(self).remaining(more)).end == Err::<int, Error>(Error::Gzip(GzipError::Truncated))
            } else {
                match tally_end(tally_of(m, index), trailer_of(buf, base, 0)) {
                    Err(e) => old(self).remaining(more).end == Err::<int, Error>(Error::Gzip(e)),
                    Ok(next) => old(self).remaining(more) == gunzip_member(buf.skip(8) + more, base + 8, 0, next.index, true),
                }
            }) by {
                lemma_trailer_taken(buf, base, more, m, index);
            }
        }
        let trailer: MemberBoundary = match self.sb.read_trailer() {
            Ok(Polled::NeedInput) => {
                return Ok(Polled::NeedInput);
            },
            Ok(Polled::Ready(v)) => v,
            Err(e) => {
                return Err(e);
            },
        };
        match self.tally.finish_member(&trailer) {
            Ok(()) => {},
            Err(e) => {
                return Err(Error::Gzip(e));
            },
        }
        self.any_member = true;
        self.emitted = Ghost(Seq::empty());
        self.phase = Phase::Header;
        proof {
            lemma_crc32_empty();
        }
        Ok(Polled::Ready(()))
    }

    /// Hands the first `n` bytes of the pending output on.
    fn emit(&mut self, n: usize) -> (chunk: Vec<u8>)
        requires
            n <= old(self).out@.len(),
            old(self).tally == tally_of(old(self).emitted@, old(self).tally.index),
        ensures
            chunk@ == old(self).out@.take(n as int),
            final(self).out@ == old(self).out@.skip(n as int),
            final(self).emitted@ == old(self).emitted@ + chunk@,
            final(self).tally == tally_of(final(self).emitted@, old(self).tally.index),
            final(self).sb == old(self).sb,
            final(self).phase == old(self).phase,
            final(self).any_member == old(self).any_member,
    {
        let mut keep: Vec<u8> = vstd::slice::slice_to_vec(
            vstd::slice::slice_subrange(self.out.as_slice(), n, self.out.len()),
        );
        assert(keep@ =~= self.out@.skip(n as int));
        core::mem::swap(&mut self.out, &mut keep);
        keep.truncate(n);
        assert(keep@ =~= old(self).out@.take(n as int));
        self.tally.update(keep.as_slice());
        proof {
            law_tally_append(self.emitted@, keep@, self.tally.index);
        }
        self.emitted = Ghost(self.emitted@ + keep@);
        keep
    }

    /// Decodes a block; the piece of output that it completes, if any.
    fn step_block(&mut self) -> (r: Result<Polled<Option<Vec<u8>>>, Error>)
        requires
            old(self).wf(),
            old(self).phase == Phase::Blocks,
        ensures
            match r {
                Ok(Polled::NeedInput) => {
                    &&& final(self).wf()
                    &&& !old(self).eof()
                    &&& !final(self).eof()
                    &&& stream_next(old(self).state()) == StreamNext::NeedInput(final(self).state())
                    &&& final(self).waiting() == old(self).waiting()
                    &&& forall|more: Seq<u8>| #[trigger] final(self).remaining(more) == old(self).remaining(more)
                },
                Ok(Polled::Ready(chunk)) => {
                    &&& final(self).wf()
                    &&& match chunk {
                        Some(c) => stream_next(old(self).state()) == StreamNext::Chunk(c@, final(self).state()),
                        None => stream_next(old(self).state()) == stream_next(final(self).state()),
                    }
                    &&& final(self).eof() == old(self).eof()
                    &&& final(self).bits_left() < old(self).bits_left()
                    &&& forall|more: Seq<u8>|
                        old(self).possible(more) ==> (#[trigger] final(self).remaining(more)).end == old(
                            self
                        ).remaining(more).end && old(self).remaining(more).out == match chunk {
                            Some(c) => c@,
                            None => Seq::<u8>::empty(),
                        } + final(self).remaining(more).out
                    &&& chunk is Some ==> chunk->Some_0@.len() > 0
                },
                Err(e) => stream_next(old(self).state()) == StreamNext::Fail(e) && forall|more: Seq<u8>|
                    old(self).possible(more) ==> (#[trigger] old(self).remaining(more)).end == Err::<int, Error>(e),
            },
    {
        let ghost buf = self.sb.bytes();
        let ghost base = self.sb.at();
        let ghost bit = self.sb.bit();
        let ghost m = self.emitted@;
        let ghost pending = self.out@;
        let ghost index = self.tally.index;
        let ghost b = block(buf, bit, pending);
        proof {
            reveal(stream_next);
            lemma_block_advances(buf, bit, pending);
            lemma_block_extends(buf, bit, pending);
            assert forall|more: Seq<u8>|
                old(self).possible(more) && (b.end != Err::<(int, bool), DeflateError>(DeflateError::UnexpectedEof)
                    || old(self).eof()) implies match b.end {
                Err(e) => (#[trigger] old(self).remaining(more)).end == Err::<int, Error>(stream_error(e)),
                Ok((q, true)) => {
                    let a = gunzip_trailer(buf.skip(q / 8) + more, base + q / 8, align_up(q % 8) / 8, m + b.out, index);
                    old(self).remaining(more).out == b.out + a.out && old(self).remaining(more).end == a.end
                },
                Ok((q, false)) => {
                    let a = gunzip_blocks(buf.skip(q / 8) + more, base + q / 8, q % 8, m + b.out, index);
                    old(self).remaining(more).out == b.out + a.out && old(self).remaining(more).end == a.end
                },
            } by {
                lemma_block_taken(buf, base, more, bit, m, pending, index);
            }
        }
        let last: bool = match self.sb.decode_block(&mut self.out) {
            Ok(Polled::NeedInput) => {
                return Ok(Polled::NeedInput);
            },
            Ok(Polled::Ready(l)) => l,
            Err(e) => {
                return Err(e);
            },
        };
        let n: usize = if last {
            self.out.len()
        } else {
            self.out.len().saturating_sub(WINDOW)
        };
        if last {
            self.phase = Phase::Trailer;
        }
        if n == 0 {
            proof {
                assert(b.out.take(0) =~= Seq::<u8>::empty() && b.out.skip(0) =~= b.out && m + Seq::<u8>::empty() =~= m);
                assert forall|more: Seq<u8>| old(self).possible(more) implies (#[trigger] self.remaining(more)).end
                    == old(self).remaining(more).end && old(self).remaining(more).out == Seq::<u8>::empty()
                    + self.remaining(more).out by {
                    assert(old(self).remaining(more).end == old(self).remaining(more).end);
                    if last {
                        assert(m + b.out =~= m);
                        let r = self.remaining(more);
                        assert(b.out + r.out =~= r.out);
                    }
                    assert(Seq::<u8>::empty() + self.remaining(more).out =~= self.remaining(more).out);
                }
            }
            return Ok(Polled::Ready(None));
        }
        let chunk: Vec<u8> = self.emit(n);
        proof {
            assert(b.out =~= chunk@ + self.out@);
            assert(self.emitted@ + self.out@ =~= m + b.out);
            assert forall|more: Seq<u8>| old(self).possible(more) implies (#[trigger] self.remaining(more)).end == old(
                self
            ).remaining(more).end && old(self).remaining(more).out == chunk@ + self.remaining(more).out by {
                assert(old(self).remaining(more).end == old(self).remaining(more).end);
                if last {
                    assert(chunk@ =~= b.out);
                    assert(self.emitted@ =~= m + b.out);
                } else {
                    let r = gunzip_blocks(self.sb.bytes() + more, self.sb.at(), self.sb.bit(), m + b.out, index);
                    assert(b.out + r.out =~= chunk@ + (self.out@ + r.out));
                }
            }
        }
        Ok(Polled::Ready(Some(chunk)))
    }

    /// Decodes until a piece of output is ready, more input is needed, or the
    /// file ends.
    pub fn next(&mut self) -> (r: Result<StreamStep, Error>)
        requires
            old(self).wf(),
        ensures
            match r {
                Ok(StreamStep::NeedInput) => {
                    &&& final(self).wf()
                    &&& stream_next(old(self).state()) == StreamNext::NeedInput(final(self).state())
                    &&& !final(self).eof()
                    &&& !old(self).eof()
                    &&& final(self).waiting().len() <= old(self).waiting().len()
                    &&& forall|more: Seq<u8>| #[trigger] final(self).remaining(more) == old(self).remaining(more)
                },
                Ok(StreamStep::Chunk(c)) => {
                    &&& final(self).wf()
                    &&& stream_next(old(self).state()) == StreamNext::Chunk(c@, final(self).state())
                    &&& final(self).eof() == old(self).eof()
                    &&& final(self).waiting().len() <= old(self).waiting().len()
                    &&& c@.len() > 0
                    &&& forall|more: Seq<u8>|
                        old(self).possible(more) ==> (#[trigger] final(self).remaining(more)).end == old(
                            self
                        ).remaining(more).end && old(self).remaining(more).out == c@ + final(self).remaining(more).out
                },
                Ok(StreamStep::Done) => {
                    &&& stream_next(old(self).state()) == StreamNext::Done
                    &&& old(self).eof()
                    &&& old(self).remaining(Seq::empty()).out == Seq::<u8>::empty()
                    &&& old(self).remaining(Seq::empty()).end is Ok
                },
                Err(e) => stream_next(old(self).state()) == StreamNext::Fail(e) && forall|more: Seq<u8>|
                    old(self).possible(more) ==> (#[trigger] old(self).remaining(more)).end == Err::<int, Error>(e),
            },
    {
        loop
            invariant
                self.wf(),
                stream_next(self.state()) == stream_next(old(self).state()),
                self.eof() == old(self).eof(),
                self.waiting().len() <= old(self).waiting().len(),
                forall|more: Seq<u8>|
                    old(self).possible(more) ==> #[trigger] self.remaining(more) == old(self).remaining(more),
            decreases self.bits_left(),
        {
            let ghost before = *self;
            match self.phase {
                Phase::Header => match self.step_header() {
                    Ok(Polled::NeedInput) => {
                        return Ok(StreamStep::NeedInput);
                    },
                    Ok(Polled::Ready(done)) => {
                        if done {
                            return Ok(StreamStep::Done);
                        }
                    },
                    Err(e) => {
                        assert forall|more: Seq<u8>| old(self).possible(more) implies (#[trigger] old(self).remaining(
                            more,
                        )).end == Err::<int, Error>(e) by {
                            assert(before.remaining(more) == old(self).remaining(more));
                        }
                        return Err(e);
                    },
                },
                Phase::Blocks => match self.step_block() {
                    Ok(Polled::NeedInput) => {
                        return Ok(StreamStep::NeedInput);
                    },
                    Ok(Polled::Ready(Some(chunk))) => {
                        return Ok(StreamStep::Chunk(chunk));
                    },
                    Ok(Polled::Ready(None)) => {
                    },
                    Err(e) => {
                        assert forall|more: Seq<u8>| old(self).possible(more) implies (#[trigger] old(self).remaining(
                            more,
                        )).end == Err::<int, Error>(e) by {
                            assert(before.remaining(more) == old(self).remaining(more));
                        }
                        return Err(e);
                    },
                },
                Phase::Trailer => match self.step_trailer() {
                    Ok(Polled::NeedInput) => {
                        return Ok(StreamStep::NeedInput);
                    },
                    Ok(Polled::Ready(())) => {
                    },
                    Err(e) => {
                        assert forall|more: Seq<u8>| old(self).possible(more) implies (#[trigger] old(self).remaining(
                            more,
                        )).end == Err::<int, Error>(e) by {
                            assert(before.remaining(more) == old(self).remaining(more));
                        }
                        return Err(e);
                    },
                },
            }
        }
    }
}

/// What is handed on of a member that goes on leaves its last 32 KiB; at its end
/// nothing is left. What is left follows what was handed on.
pub proof fn law_window_kept(s: StreamState)
    ensures
        match stream_next(s) {
            StreamNext::Chunk(c, next) => {
                &&& c.len() > 0
                &&& next.phase == Phase::Trailer ==> next.held.len() == 0
                &&& next.phase != Phase::Trailer ==> next.phase == Phase::Blocks && next.held.len() == 32768
            },
            _ => true,
        },
    decreases bit_len(s.buf) - s.bit,
{
    reveal(stream_next);
    law_header_len_bounds(s.buf);
    lemma_block_advances(s.buf, s.bit, s.held);
    if s.wf() {
        match s.phase {
            Phase::Header => {
                if let Ok(h) = header_len(s.buf) {
                    law_window_kept(StreamState { at: s.at + h, buf: s.buf.skip(h), phase: Phase::Blocks, ..s });
                }
            },
            Phase::Blocks => {
                let b = block(s.buf, s.bit, s.held);
                if let Ok((q, last)) = b.end {
                    let n = handed_on(b.out.len() as int, last);
                    if n == 0 {
                        law_window_kept(
                            StreamState {
                                at: s.at + q / 8,
                                buf: s.buf.skip(q / 8),
                                bit: q % 8,
                                phase: if last {
                                    Phase::Trailer
                                } else {
                                    Phase::Blocks
                                },
                                held: b.out.skip(n),
                                m: s.m + b.out.take(n),
                                ..s
                            },
                        );
                    }
                }
            },
            Phase::Trailer => {
                let k = align_up(s.bit) / 8;
                let buf = s.buf.skip(k);
                if buf.len() >= 8 {
                    if let Ok(next) = tally_end(tally_of(s.m, s.index), trailer_of(buf, s.at + k, 0)) {
                        law_window_kept(
                            StreamState {
                                at: s.at + k + 8,
                                buf: buf.skip(8),
                                bit: 0,
                                phase: Phase::Header,
                                m: Seq::empty(),
                                index: next.index,
                                any: true,
                                ..s
                            },
                        );
                    }
                }
            },
        }
    }
}

} // verus!
