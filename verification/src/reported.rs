//! What is told of files that do not decode: the first member that is wrong, its
//! number, and where in the file.
use vstd::prelude::*;
use crate::Error;
use crate::bgzf::{Span, batch_from};
use crate::checksum::crc32;
use crate::deflate::DeflateError;
use crate::deflate::bits::{align_up, bit_len};
use crate::deflate::cells::{Cell, until_cells, lemma_until_cells_advances};
use crate::deflate::embed::law_until_embedded;
use crate::deflate::format::{inflate, until, lemma_until_advances};
use crate::gzip::{
    GzipError, Gunzipped, error_at, header_len, index_after, le32, member, members, law_header_len_bounds,
};
use crate::members::{
    MemberTally, bounds_in_order, cut_before, tally_add, tally_bounds, tally_chunk, tally_end, tally_of,
    law_tally_append, lemma_tally_stops,
};
use crate::pipeline::{
    MemberBoundary, boundary_at, rebased, segment, segment_from, lemma_next_member, lemma_segment_step,
};
use crate::serial::{Rest, after_stream, serial_from, trailer_of};
use crate::stream::{gunzip, gunzip_blocks, gunzip_member, gunzip_trailer};
use crate::written::{
    Header, Member, file_bytes, file_data, file_wf, four_bytes, law_header_read, law_member_decodes, law_tally_accepts,
    law_trailer_refused, lemma_file_wf, lemma_four_read, lemma_front, lemma_gunzip_step, lemma_member_stream,
};

verus! {

/// A trailer that holds what is expected of `data`.
pub open spec fn fits_data(data: Seq<u8>, crc: u32, size: u32) -> bool {
    crc == crc32(data) && size == data.len() % 0x1_0000_0000
}

/// What is told of a member that holds `data` and whose trailer, at byte `at` of
/// the file, holds something else: a wrong checksum before a wrong size.
pub open spec fn told(data: Seq<u8>, crc: u32, size: u32, number: int, at: int) -> GzipError {
    if crc != crc32(data) {
        GzipError::CrcMismatch {
            expected: crc,
            got: crc32(data),
            member: (number % 0x1_0000_0000) as u32,
            uncompressed: data.len() as u64,
            trailer_byte: at as u64,
        }
    } else {
        GzipError::IsizeMismatch {
            expected: size,
            got: data.len() as u64,
            member: (number % 0x1_0000_0000) as u32,
            trailer_byte: at as u64,
        }
    }
}

proof fn lemma_three(a: Seq<u8>, b: Seq<u8>, c: Seq<u8>)
    ensures
        a + b + c == a + (b + c),
{
    assert(a + b + c =~= a + (b + c));
}

proof fn lemma_none(a: Seq<u8>)
    ensures
        Seq::<u8>::empty() + a == a,
        a + Seq::<u8>::empty() == a,
        a.skip(0) == a,
{
    assert(Seq::<u8>::empty() + a =~= a);
    assert(a + Seq::<u8>::empty() =~= a);
    assert(a.skip(0) =~= a);
}

/// Members that are in order, and then something else.
#[verifier::rlimit(40)]
proof fn lemma_gunzip_past(ms: Seq<Member>, x: Seq<u8>, s: Seq<u8>, base: int, a: int, index: u32, any: bool)
    requires
        file_wf(ms),
        0 <= a <= s.len(),
        s.skip(a) == file_bytes(ms) + x,
    ensures
        ({
            let b = a + file_bytes(ms).len();
            let r = gunzip_member(s, base, b, ((index + ms.len()) % 0x1_0000_0000) as u32, any || ms.len() > 0);
            &&& s.skip(b) == x
            &&& b <= s.len()
            &&& gunzip_member(s, base, a, index, any) == (Rest { out: file_data(ms) + r.out, end: r.end })
        }),
    decreases ms.len(),
{
    if ms.len() == 0 {
        let r = gunzip_member(s, base, a, index, any);
        lemma_none(x);
        lemma_none(r.out);
    } else {
        lemma_file_wf(ms);
        let m = ms[0];
        let more = ms.skip(1);
        let n = m.bytes().len() as int;
        let next = ((index + 1) % 0x1_0000_0000) as u32;
        lemma_three(m.bytes(), file_bytes(more), x);
        lemma_front(s, a, m.bytes(), file_bytes(more) + x);
        lemma_gunzip_step(m, s, base, a, index, any);
        lemma_gunzip_past(more, x, s, base, a + n, next, true);
        vstd::arithmetic::div_mod::lemma_add_mod_noop_right(ms.len() - 1, index + 1, 0x1_0000_0000);
        let b = a + file_bytes(ms).len();
        let r = gunzip_member(s, base, b, ((index + ms.len()) % 0x1_0000_0000) as u32, true);
        assert(b == a + n + file_bytes(more).len());
        lemma_three(m.data(), file_data(more), r.out);
    }
}

/// The members from byte `a` on.
#[verifier::opaque]
spec fn members_at(s: Seq<u8>, a: int, out: Seq<u8>, index: u32) -> Gunzipped {
    members(s, a, out, index)
}

proof fn lemma_members_step(m: Member, x: Seq<u8>, s: Seq<u8>, a: int, out: Seq<u8>, index: u32)
    requires
        m.wf(),
        0 <= a <= s.len(),
        s.skip(a) == m.bytes() + x,
    ensures
        a + m.bytes().len() <= s.len(),
        s.skip(a + m.bytes().len()) == x,
        members_at(s, a, out, index) == members_at(s, a + m.bytes().len(), out + m.data(), index_after(index)),
{
    reveal(members_at);
    lemma_front(s, a, m.bytes(), x);
    law_member_decodes(m, x, out, index);
    assert(m.bytes().len() > 0);
}

#[verifier::rlimit(40)]
proof fn lemma_members_past(ms: Seq<Member>, x: Seq<u8>, s: Seq<u8>, a: int, out: Seq<u8>, index: u32)
    requires
        file_wf(ms),
        0 <= a <= s.len(),
        s.skip(a) == file_bytes(ms) + x,
    ensures
        ({
            let b = a + file_bytes(ms).len();
            &&& s.skip(b) == x
            &&& b <= s.len()
            &&& members_at(s, a, out, index) == members_at(
                s,
                b,
                out + file_data(ms),
                ((index + ms.len()) % 0x1_0000_0000) as u32,
            )
        }),
    decreases ms.len(),
{
    if ms.len() == 0 {
        lemma_none(x);
        lemma_none(out);
    } else {
        lemma_file_wf(ms);
        let m = ms[0];
        let more = ms.skip(1);
        let n = m.bytes().len() as int;
        lemma_three(m.bytes(), file_bytes(more), x);
        lemma_members_step(m, file_bytes(more) + x, s, a, out, index);
        lemma_members_past(more, x, s, a + n, out + m.data(), index_after(index));
        vstd::arithmetic::div_mod::lemma_add_mod_noop_right(ms.len() - 1, index + 1, 0x1_0000_0000);
        lemma_three(out, m.data(), file_data(more));
    }
}

/// The eight bytes of a trailer.
pub open spec fn eight_bytes(crc: u32, size: u32) -> Seq<u8> {
    four_bytes(crc as nat) + four_bytes(size as nat)
}

/// A file that decodes up to a member whose trailer does not hold what is expected
/// is refused there: the member is told by its number, and the trailer by its place
/// in the file. All that was decoded up to there, with that member, was handed on.
pub proof fn law_bad_trailer_told(ms: Seq<Member>, m: Member, crc: u32, size: u32, rest: Seq<u8>)
    requires
        file_wf(ms),
        m.wf(),
        !fits_data(m.data(), crc, size),
        (file_bytes(ms) + (m.front() + (eight_bytes(crc, size) + rest))).len() <= u64::MAX,
        m.data().len() <= u64::MAX,
    ensures
        gunzip(file_bytes(ms) + (m.front() + (eight_bytes(crc, size) + rest))) == (Rest {
            out: file_data(ms) + m.data(),
            end: Err::<int, Error>(
                Error::Gzip(
                    told(m.data(), crc, size, ms.len() as int, (file_bytes(ms).len() + m.front().len()) as int),
                ),
            ),
        }),
{
    let x = m.front() + (eight_bytes(crc, size) + rest);
    let s = file_bytes(ms) + x;
    let a = file_bytes(ms).len() as int;
    lemma_none(s);
    lemma_gunzip_past(ms, x, s, 0, 0, 0, false);
    lemma_front(s, a, m.front(), eight_bytes(crc, size) + rest);
    lemma_front(s, a + m.front().len(), eight_bytes(crc, size), rest);
    lemma_gunzip_bad(m, s, a, ms.len() as int, ms.len() > 0, crc, size);
}

/// A member in the middle of a file is decoded and refused.
proof fn lemma_gunzip_bad(m: Member, s: Seq<u8>, a: int, number: int, any: bool, crc: u32, size: u32)
    requires
        m.wf(),
        0 <= a,
        0 <= number,
        a + m.front().len() + 8 <= s.len() <= u64::MAX,
        s.subrange(a, a + m.front().len()) == m.front(),
        s.subrange(a + m.front().len(), a + m.front().len() + 8) == eight_bytes(crc, size),
        !fits_data(m.data(), crc, size),
        m.data().len() <= u64::MAX,
    ensures
        gunzip_member(s, 0, a, (number % 0x1_0000_0000) as u32, any) == (Rest {
            out: m.data(),
            end: Err::<int, Error>(Error::Gzip(told(m.data(), crc, size, number, a + m.front().len()))),
        }),
{
    lemma_gunzip_front(m, s, 0, a, (number % 0x1_0000_0000) as u32, any);
    lemma_trailer_bad(m.data(), s, a + m.front().len(), number, crc, size);
    lemma_none(m.data());
}

/// A member in the middle of a file, up to its trailer.
proof fn lemma_gunzip_front(m: Member, s: Seq<u8>, base: int, a: int, index: u32, any: bool)
    requires
        m.wf(),
        0 <= a,
        a + m.front().len() <= s.len(),
        s.subrange(a, a + m.front().len()) == m.front(),
    ensures
        ({
            let r = gunzip_trailer(s, base, a + m.front().len(), m.data(), index);
            gunzip_member(s, base, a, index, any) == (Rest { out: m.data() + r.out, end: r.end })
        }),
{
    let e = Seq::<u8>::empty();
    let h = m.header.bytes().len() as int;
    lemma_member_stream(m, s, a, e);
    lemma_none(m.data());
    let r = gunzip_trailer(s, base, a + m.front().len(), m.data(), index);
    let p = 8 * (a + h);
    assert(gunzip_blocks(s, base, p, e, index) == (Rest { out: m.data() + r.out, end: r.end })) by {
        reveal(gunzip_blocks);
        reveal(gunzip_trailer);
        let d = until(s, p, bit_len(s) + 1, e);
        assert(d.out == m.data());
        assert(d.out.skip(e.len() as int) == m.data());
    }
    assert(m.front().len() > 0);
    reveal(gunzip_member);
    reveal(gunzip_blocks);
}

proof fn lemma_trailer_bad(data: Seq<u8>, s: Seq<u8>, t: int, number: int, crc: u32, size: u32)
    requires
        0 <= t,
        0 <= number,
        t + 8 <= s.len() <= u64::MAX,
        s.subrange(t, t + 8) == eight_bytes(crc, size),
        !fits_data(data, crc, size),
        data.len() <= u64::MAX,
    ensures
        gunzip_trailer(s, 0, t, data, (number % 0x1_0000_0000) as u32) == (Rest {
            out: Seq::<u8>::empty(),
            end: Err::<int, Error>(Error::Gzip(told(data, crc, size, number, t))),
        }),
{
    reveal(gunzip_trailer);
    lemma_eight_read(s, t, crc, size);
    law_tally_accepts(data, (number % 0x1_0000_0000) as u32, trailer_of(s, 0, t));
    assert((0 + t) % 0x1_0000_0000_0000_0000 == t);
}

proof fn lemma_eight_read(s: Seq<u8>, t: int, crc: u32, size: u32)
    requires
        0 <= t,
        t + 8 <= s.len(),
        s.subrange(t, t + 8) == eight_bytes(crc, size),
    ensures
        le32(s, t) == crc,
        le32(s, t + 4) == size,
{
    let c = four_bytes(crc as nat);
    let d = four_bytes(size as nat);
    assert(s.subrange(t, t + 4) =~= (c + d).take(4) && (c + d).take(4) =~= c);
    assert(s.subrange(t + 4, t + 8) =~= (c + d).skip(4) && (c + d).skip(4) =~= d);
    lemma_four_read(s, t, crc as nat);
    lemma_four_read(s, t + 4, size as nat);
}

/// The stream of a member, after its header and some output.
proof fn lemma_member_inflates(m: Member, x: Seq<u8>, out: Seq<u8>)
    requires
        m.wf(),
    ensures
        ({
            let s = m.front() + x;
            let h = m.header.bytes().len() as int;
            &&& header_len(s) == Ok::<int, GzipError>(h)
            &&& inflate(s.skip(h), 0, out).out == out + m.data()
            &&& inflate(s.skip(h), 0, out).end is Ok
            &&& h + align_up(inflate(s.skip(h), 0, out).end->Ok_0) / 8 == m.front().len()
        }),
{
    let s = m.front() + x;
    let h = m.header.bytes().len() as int;
    let b = s.skip(h);
    assert(s.subrange(0, 0int + m.front().len()) =~= m.front());
    lemma_member_stream(m, s, 0, out);
    lemma_none(s);
    assert(b =~= s.subrange(h, h + b.len()));
    lemma_until_advances(b, 0, bit_len(b) + 1, out);
    law_until_embedded(b, s, h, 0, bit_len(b) + 1, out);
    assert(bit_len(s) == bit_len(b) + 8 * h);
}

/// The same of a file that is decoded member by member.
pub proof fn law_bad_trailer_told_of_members(ms: Seq<Member>, m: Member, crc: u32, size: u32, rest: Seq<u8>, out: Seq<u8>)
    requires
        file_wf(ms),
        m.wf(),
        !fits_data(m.data(), crc, size),
        (file_bytes(ms) + (m.front() + (eight_bytes(crc, size) + rest))).len() <= u64::MAX,
        m.data().len() <= u64::MAX,
    ensures
        members(file_bytes(ms) + (m.front() + (eight_bytes(crc, size) + rest)), 0, out, 0) == (Gunzipped {
            out: out + file_data(ms) + m.data(),
            end: Err::<int, GzipError>(
                told(m.data(), crc, size, ms.len() as int, (file_bytes(ms).len() + m.front().len()) as int),
            ),
        }),
{
    let y = eight_bytes(crc, size) + rest;
    let x = m.front() + y;
    let s = file_bytes(ms) + x;
    let a = file_bytes(ms).len() as int;
    let before = out + file_data(ms);
    let index = ((0u32 + ms.len()) % 0x1_0000_0000) as u32;
    lemma_none(s);
    lemma_members_past(ms, x, s, 0, out, 0);
    lemma_member_bad(m, crc, size, rest, before, index);
    lemma_told_at(m.data(), crc, size, ms.len() as int, m.front().len() as int, a);
    lemma_members_stop(s, a, before, index);
    assert(members_at(s, 0, out, 0) == members(s, 0, out, 0)) by {
        reveal(members_at);
    }
}

/// A member that is refused ends the file.
proof fn lemma_members_stop(s: Seq<u8>, a: int, out: Seq<u8>, index: u32)
    requires
        0 <= a < s.len(),
        member(s.skip(a), out, index).end is Err,
    ensures
        members_at(s, a, out, index) == (Gunzipped {
            out: member(s.skip(a), out, index).out,
            end: Err::<int, GzipError>(error_at(member(s.skip(a), out, index).end->Err_0, a)),
        }),
{
    reveal(members_at);
}

proof fn lemma_told_at(data: Seq<u8>, crc: u32, size: u32, number: int, at: int, base: int)
    requires
        0 <= number,
        0 <= at,
        0 <= base,
        base + at <= u64::MAX,
    ensures
        error_at(told(data, crc, size, number % 0x1_0000_0000, at), base) == told(data, crc, size, number, base + at),
{
    assert((number % 0x1_0000_0000) % 0x1_0000_0000 == number % 0x1_0000_0000);
    assert((base + at) % 0x1_0000_0000_0000_0000 == base + at);
}

/// A member at the start of some bytes is decoded and refused.
proof fn lemma_member_bad(m: Member, crc: u32, size: u32, rest: Seq<u8>, out: Seq<u8>, index: u32)
    requires
        m.wf(),
        !fits_data(m.data(), crc, size),
        m.data().len() <= u64::MAX,
        m.front().len() <= u64::MAX,
    ensures
        member(m.front() + (eight_bytes(crc, size) + rest), out, index) == (Gunzipped {
            out: out + m.data(),
            end: Err::<int, GzipError>(told(m.data(), crc, size, index as int, m.front().len() as int)),
        }),
{
    let y = eight_bytes(crc, size) + rest;
    let x = m.front() + y;
    let f = m.front().len() as int;
    lemma_member_inflates(m, y, out);
    assert((out + m.data()).skip(out.len() as int) =~= m.data());
    assert(x.subrange(f, f + 8) =~= eight_bytes(crc, size));
    law_trailer_refused(x, f, m.data(), index, crc, size);
}

/// A file that ends inside a trailer is cut off.
pub proof fn law_cut_trailer_told(ms: Seq<Member>, m: Member, part: Seq<u8>, out: Seq<u8>)
    requires
        file_wf(ms),
        m.wf(),
        part.len() < 8,
    ensures
        gunzip(file_bytes(ms) + (m.front() + part)) == (Rest {
            out: file_data(ms) + m.data(),
            end: Err::<int, Error>(Error::Gzip(GzipError::Truncated)),
        }),
        members(file_bytes(ms) + (m.front() + part), 0, out, 0) == (Gunzipped {
            out: out + file_data(ms) + m.data(),
            end: Err::<int, GzipError>(GzipError::Truncated),
        }),
{
    lemma_cut_trailer(ms, m, part);
    let x = m.front() + part;
    let s = file_bytes(ms) + x;
    let a = file_bytes(ms).len() as int;
    let before = out + file_data(ms);
    let index = ((0u32 + ms.len()) % 0x1_0000_0000) as u32;
    lemma_none(s);
    lemma_members_past(ms, x, s, 0, out, 0);
    lemma_member_cut(m, part, before, index);
    assert(m.front().len() > 0);
    lemma_members_stop(s, a, before, index);
    assert(members_at(s, 0, out, 0) == members(s, 0, out, 0)) by {
        reveal(members_at);
    }
}

proof fn lemma_cut_trailer(ms: Seq<Member>, m: Member, part: Seq<u8>)
    requires
        file_wf(ms),
        m.wf(),
        part.len() < 8,
    ensures
        gunzip(file_bytes(ms) + (m.front() + part)) == (Rest {
            out: file_data(ms) + m.data(),
            end: Err::<int, Error>(Error::Gzip(GzipError::Truncated)),
        }),
{
    let x = m.front() + part;
    let s = file_bytes(ms) + x;
    let a = file_bytes(ms).len() as int;
    let index = ((0u32 + ms.len()) % 0x1_0000_0000) as u32;
    lemma_none(s);
    lemma_gunzip_past(ms, x, s, 0, 0, 0, false);
    lemma_front(s, a, m.front(), part);
    lemma_gunzip_front(m, s, 0, a, index, ms.len() > 0);
    assert(gunzip_trailer(s, 0, a + m.front().len(), m.data(), index) == (Rest {
        out: Seq::<u8>::empty(),
        end: Err::<int, Error>(Error::Gzip(GzipError::Truncated)),
    })) by {
        reveal(gunzip_trailer);
    }
    lemma_none(m.data());
}

/// A member at the start of some bytes that ends inside its trailer.
proof fn lemma_member_cut(m: Member, part: Seq<u8>, out: Seq<u8>, index: u32)
    requires
        m.wf(),
        part.len() < 8,
    ensures
        member(m.front() + part, out, index) == (Gunzipped {
            out: out + m.data(),
            end: Err::<int, GzipError>(GzipError::Truncated),
        }),
{
    lemma_member_inflates(m, part, out);
}

/// What follows a member and is no header is refused for what is wrong with it; all
/// members before it were handed on.
pub proof fn law_bad_header_told(ms: Seq<Member>, x: Seq<u8>, out: Seq<u8>)
    requires
        file_wf(ms),
        x.len() > 0,
        header_len(x) is Err,
    ensures
        gunzip(file_bytes(ms) + x) == (Rest {
            out: file_data(ms),
            end: Err::<int, Error>(Error::Gzip(header_len(x)->Err_0)),
        }),
        !(header_len(x)->Err_0 is CrcMismatch || header_len(x)->Err_0 is IsizeMismatch),
        members(file_bytes(ms) + x, 0, out, 0) == (Gunzipped {
            out: out + file_data(ms),
            end: Err::<int, GzipError>(header_len(x)->Err_0),
        }),
{
    reveal(gunzip_member);
    let s = file_bytes(ms) + x;
    let none = Seq::<u8>::empty();
    lemma_none(s);
    lemma_gunzip_past(ms, x, s, 0, 0, 0, false);
    lemma_members_past(ms, x, s, 0, out, 0);
    reveal(members_at);
    assert(file_data(ms) + none =~= file_data(ms));
    crate::written::law_header_refused(x);
}

/// A stream that does not decode is refused for what is wrong with it, one that
/// ends too early as a file that is cut off; what it decoded to up to there was
/// handed on.
pub proof fn law_bad_stream_told(ms: Seq<Member>, h: Header, x: Seq<u8>)
    requires
        file_wf(ms),
        h.wf(),
        inflate(x, 0, Seq::empty()).end is Err,
    ensures
        gunzip(file_bytes(ms) + (h.bytes() + x)).out == file_data(ms) + inflate(x, 0, Seq::empty()).out,
        inflate(x, 0, Seq::empty()).end->Err_0 == DeflateError::UnexpectedEof ==> gunzip(
            file_bytes(ms) + (h.bytes() + x),
        ).end == Err::<int, Error>(Error::Gzip(GzipError::Truncated)),
        inflate(x, 0, Seq::empty()).end->Err_0 != DeflateError::UnexpectedEof ==> gunzip(
            file_bytes(ms) + (h.bytes() + x),
        ).end == Err::<int, Error>(Error::Deflate(inflate(x, 0, Seq::empty()).end->Err_0)),
{
    reveal(gunzip_member);
    reveal(gunzip_blocks);
    let e = Seq::<u8>::empty();
    let y = h.bytes() + x;
    let s = file_bytes(ms) + y;
    let a = file_bytes(ms).len() as int;
    let k = a + h.bytes().len();
    lemma_none(s);
    lemma_gunzip_past(ms, y, s, 0, 0, 0, false);
    law_header_read(h, x);
    assert(h.bytes().len() >= 10);
    assert(x =~= s.subrange(k, k + x.len()));
    law_until_embedded(x, s, k, 0, bit_len(x) + 1, e);
    assert(bit_len(s) == bit_len(x) + 8 * k);
    let d = inflate(x, 0, e);
    assert(d.out.skip(0) =~= d.out);
}

/// Decoding in order from memory and as it comes in tells the same of a body that
/// does not decode, but for a stream that ends too early: that is told as it is from
/// memory, and as a file that is cut off where it comes in.
pub proof fn law_serial_tells_the_same(body: Seq<u8>, offset: int, p: int, m: Seq<u8>, index: u32)
    requires
        0 <= p,
    ensures
        serial_from(body, offset, p, m, index).out == gunzip_blocks(body, offset, p, m, index).out,
        match serial_from(body, offset, p, m, index).end {
            Ok(n) => n == body.len() && gunzip_blocks(body, offset, p, m, index).end is Ok,
            Err(e) => gunzip_blocks(body, offset, p, m, index).end == Err::<int, Error>(
                if e == Error::Deflate(DeflateError::UnexpectedEof) {
                    Error::Gzip(GzipError::Truncated)
                } else {
                    e
                },
            ),
        },
    decreases bit_len(body) - p,
{
    reveal(serial_from);
    reveal(after_stream);
    reveal(gunzip_blocks);
    reveal(gunzip_trailer);
    reveal(gunzip_member);
    let far = bit_len(body) + 1;
    let d = until(body, p, far, m);
    lemma_until_advances(body, p, far, m);
    if let Ok((q, _)) = d.end {
        let t = align_up(q) / 8;
        if t + 8 < body.len() {
            if let Ok(next) = tally_end(tally_of(d.out, index), trailer_of(body, offset, t)) {
                law_header_len_bounds(body.skip(t + 8));
                if let Ok(h) = header_len(body.skip(t + 8)) {
                    law_serial_tells_the_same(body, offset, 8 * (t + 8 + h), Seq::empty(), next.index);
                }
            }
        }
    }
}

/// Member number `i` of those that end in a chunk: the first started before the
/// chunk, with `m`.
pub open spec fn ended(m: Seq<u8>, bytes: Seq<u8>, bounds: Seq<MemberBoundary>, i: int) -> Seq<u8> {
    if i == 0 {
        m + bytes.take(bounds[0].byte_offset_in_chunk as int)
    } else {
        bytes.subrange(bounds[i - 1].byte_offset_in_chunk as int, bounds[i].byte_offset_in_chunk as int)
    }
}

/// Boundary `i` holds what is expected of the member that ends there.
pub open spec fn boundary_fits(m: Seq<u8>, bytes: Seq<u8>, bounds: Seq<MemberBoundary>, i: int) -> bool {
    fits_data(ended(m, bytes, bounds, i), bounds[i].crc_expected, bounds[i].isize_expected)
}

proof fn lemma_bounds_fit(m: Seq<u8>, index: u32, bytes: Seq<u8>, bounds: Seq<MemberBoundary>, n: int)
    requires
        0 <= n <= bounds.len(),
        bounds_in_order(bounds, bytes.len()),
        forall|i: int| 0 <= i < n ==> #[trigger] boundary_fits(m, bytes, bounds, i),
    ensures
        tally_bounds(tally_of(m, index), bytes, bounds, n) == Ok::<MemberTally, GzipError>(
            tally_of(
                if n == 0 {
                    m
                } else {
                    Seq::empty()
                },
                ((index + n) % 0x1_0000_0000) as u32,
            ),
        ),
    decreases n,
{
    if n > 0 {
        let i = n - 1;
        lemma_bounds_fit(m, index, bytes, bounds, i);
        assert(boundary_fits(m, bytes, bounds, i));
        let now = ((index + i) % 0x1_0000_0000) as u32;
        lemma_ended(m, bytes, bounds, i, now);
        law_tally_accepts(ended(m, bytes, bounds, i), now, bounds[i]);
        vstd::arithmetic::div_mod::lemma_add_mod_noop(index + i, 1, 0x1_0000_0000);
    }
}

/// The tally of a member that ends at boundary `i`.
proof fn lemma_ended(m: Seq<u8>, bytes: Seq<u8>, bounds: Seq<MemberBoundary>, i: int, index: u32)
    requires
        0 <= i < bounds.len(),
        bounds_in_order(bounds, bytes.len()),
    ensures
        ({
            let so_far = if i == 0 {
                m
            } else {
                Seq::empty()
            };
            tally_add(
                tally_of(so_far, index),
                bytes.subrange(cut_before(bounds, i), bounds[i].byte_offset_in_chunk as int),
            ) == tally_of(ended(m, bytes, bounds, i), index)
        }),
{
    let so_far = if i == 0 {
        m
    } else {
        Seq::empty()
    };
    assert(bounds[i].byte_offset_in_chunk <= bytes.len());
    if i > 0 {
        assert(bounds[i - 1].byte_offset_in_chunk <= bounds[i].byte_offset_in_chunk);
    }
    let piece = bytes.subrange(cut_before(bounds, i), bounds[i].byte_offset_in_chunk as int);
    law_tally_append(so_far, piece, index);
    assert(so_far + piece =~= ended(m, bytes, bounds, i));
}

/// A chunk is refused for the first member that ends in it and whose trailer does
/// not hold what is expected; the member is told by its number in the file.
pub proof fn law_chunk_told(m: Seq<u8>, index: u32, bytes: Seq<u8>, bounds: Seq<MemberBoundary>, k: int)
    requires
        0 <= k < bounds.len(),
        bounds_in_order(bounds, bytes.len()),
        forall|i: int| 0 <= i < k ==> #[trigger] boundary_fits(m, bytes, bounds, i),
        !boundary_fits(m, bytes, bounds, k),
        ended(m, bytes, bounds, k).len() <= u64::MAX,
    ensures
        tally_chunk(tally_of(m, index), bytes, bounds) == Err::<MemberTally, GzipError>(
            told(
                ended(m, bytes, bounds, k),
                bounds[k].crc_expected,
                bounds[k].isize_expected,
                index + k,
                bounds[k].trailer_input_byte as int,
            ),
        ),
{
    lemma_bounds_fit(m, index, bytes, bounds, k);
    let now = ((index + k) % 0x1_0000_0000) as u32;
    lemma_ended(m, bytes, bounds, k, now);
    law_tally_accepts(ended(m, bytes, bounds, k), now, bounds[k]);
    lemma_tally_stops(tally_of(m, index), bytes, bounds, k + 1, bounds.len() as int);
}

/// A chunk whose members all hold what their trailers tell is accepted, and the
/// tally goes on with the bytes after the last of them.
pub proof fn law_chunk_accepted(m: Seq<u8>, index: u32, bytes: Seq<u8>, bounds: Seq<MemberBoundary>)
    requires
        bounds_in_order(bounds, bytes.len()),
        forall|i: int| 0 <= i < bounds.len() ==> #[trigger] boundary_fits(m, bytes, bounds, i),
    ensures
        bounds.len() == 0 ==> tally_chunk(tally_of(m, index), bytes, bounds) == Ok::<MemberTally, GzipError>(
            tally_of(m + bytes, index),
        ),
        bounds.len() > 0 ==> tally_chunk(tally_of(m, index), bytes, bounds) == Ok::<MemberTally, GzipError>(
            tally_of(
                bytes.skip(bounds.last().byte_offset_in_chunk as int),
                ((index + bounds.len()) % 0x1_0000_0000) as u32,
            ),
        ),
{
    let n = bounds.len() as int;
    lemma_bounds_fit(m, index, bytes, bounds, n);
    let now = ((index + n) % 0x1_0000_0000) as u32;
    if n == 0 {
        law_tally_append(m, bytes, index);
        assert(bytes.skip(0) =~= bytes);
    } else {
        assert(bounds[n - 1].byte_offset_in_chunk <= bytes.len());
        let tail = bytes.skip(bounds.last().byte_offset_in_chunk as int);
        law_tally_append(Seq::empty(), tail, now);
        assert(Seq::<u8>::empty() + tail =~= tail);
    }
}

/// The trailer that a boundary tells stands in `s`, where the boundary says.
pub open spec fn told_where(s: Seq<u8>, mb: MemberBoundary) -> bool {
    let t = mb.trailer_input_byte as int;
    &&& t + 8 <= s.len()
    &&& s.subrange(t, t + 8) == eight_bytes(mb.crc_expected, mb.isize_expected)
}

pub open spec fn all_told_where(s: Seq<u8>, bounds: Seq<MemberBoundary>) -> bool {
    forall|i: int| 0 <= i < bounds.len() ==> told_where(s, #[trigger] bounds[i])
}

proof fn lemma_told_where(body: Seq<u8>, t: int, n: nat)
    requires
        0 <= t,
        t + 8 <= body.len() <= u64::MAX,
    ensures
        told_where(body, boundary_at(body, t, n)),
{
    let mb = boundary_at(body, t, n);
    assert(0 <= le32(body, t) < 0x1_0000_0000);
    assert(0 <= le32(body, t + 4) < 0x1_0000_0000);
    lemma_four_read(body, t, mb.crc_expected as nat);
    lemma_four_read(body, t + 4, mb.isize_expected as nat);
    assert(body.subrange(t, t + 8) =~= body.subrange(t, t + 4) + body.subrange(t + 4, t + 8));
}

proof fn lemma_segment_told(body: Seq<u8>, p: int, hint: int, cells: Seq<Cell>, bounds: Seq<MemberBoundary>)
    requires
        0 <= p <= bit_len(body),
        body.len() <= u64::MAX,
        all_told_where(body, bounds),
    ensures
        match segment_from(body, p, hint, cells, bounds) {
            Ok(s) => all_told_where(body, s.bounds),
            Err(_) => true,
        },
    decreases bit_len(body) - p,
{
    lemma_segment_step(body, p, hint, cells, bounds);
    lemma_next_member(body, p, hint);
    lemma_until_cells_advances(body, p, hint, Seq::empty());
    if p < hint {
        let d = until_cells(body, p, hint, Seq::empty());
        let all = cells + d.out;
        if let Ok((q, true)) = d.end {
            let t = align_up(q) / 8;
            let bounds1 = bounds.push(boundary_at(body, t, all.len()));
            if t + 8 <= body.len() {
                lemma_told_where(body, t, all.len());
                assert forall|i: int| 0 <= i < bounds1.len() implies told_where(body, #[trigger] bounds1[i]) by {
                    if i < bounds.len() {
                        assert(bounds1[i] == bounds[i]);
                    }
                }
                if t + 8 < body.len() {
                    if let Ok(h) = header_len(body.skip(t + 8)) {
                        lemma_segment_told(body, 8 * (t + 8 + h), hint, all, bounds1);
                    }
                }
            }
        }
    }
}

/// Where a chunk says that a trailer stands in the file, that trailer stands there.
pub proof fn law_trailers_told_where(file: Seq<u8>, offset: int, p: int, hint: int)
    requires
        0 <= offset <= file.len() <= u64::MAX,
        0 <= p,
    ensures
        match segment(file.skip(offset), p, hint) {
            Ok(s) => all_told_where(file, rebased(s.bounds, offset)),
            Err(_) => true,
        },
{
    reveal(segment);
    let body = file.skip(offset);
    if p <= bit_len(body) {
        lemma_segment_told(body, p, hint, Seq::empty(), Seq::empty());
        if let Ok(s) = segment(body, p, hint) {
            let r = rebased(s.bounds, offset);
            assert forall|i: int| 0 <= i < r.len() implies told_where(file, #[trigger] r[i]) by {
                assert(told_where(body, s.bounds[i]));
                let t = s.bounds[i].trailer_input_byte as int;
                assert((offset + t) % 0x1_0000_0000_0000_0000 == offset + t);
                assert(file.subrange(offset + t, offset + t + 8) =~= body.subrange(t, t + 8));
            }
        }
    }
}

/// The members before number `k` of a batch stand where their spans say.
pub open spec fn stand_in_spans(file: Seq<u8>, spans: Seq<Span>, ms: Seq<Member>, i: int, k: int) -> bool {
    forall|j: int|
        i <= j < k ==> (#[trigger] ms[j]).wf() && file.subrange(spans[j].0 as int, spans[j].1 as int) == ms[j].bytes()
}

/// A batch is refused for the first of its members whose trailer does not hold what
/// is expected; the member is told by its number in the file, and the trailer by its
/// place in the file.
#[verifier::rlimit(40)]
pub proof fn law_batch_told(
    file: Seq<u8>,
    spans: Seq<Span>,
    i: int,
    end: int,
    out: Seq<u8>,
    ms: Seq<Member>,
    k: int,
    m: Member,
    crc: u32,
    size: u32,
)
    requires
        0 <= i <= k < end <= spans.len(),
        file.len() <= u64::MAX,
        stand_in_spans(file, spans, ms, i, k),
        m.wf(),
        m.data().len() <= u64::MAX,
        !fits_data(m.data(), crc, size),
        spans[k].0 <= spans[k].1 <= file.len(),
        file.subrange(spans[k].0 as int, spans[k].1 as int) == m.front() + eight_bytes(crc, size),
    ensures
        batch_from(file, spans, i, end, out).end == Err::<int, GzipError>(
            told(m.data(), crc, size, k, spans[k].0 + m.front().len()),
        ),
    decreases k - i,
{
    let part = file.subrange(spans[i].0 as int, spans[i].1 as int);
    let index = (i % 0x1_0000_0000) as u32;
    if i < k {
        assert(ms[i].wf());
        lemma_none(ms[i].bytes());
        law_member_decodes(ms[i], Seq::empty(), out, index);
        law_batch_told(file, spans, i + 1, end, out + ms[i].data(), ms, k, m, crc, size);
    } else {
        let none = Seq::<u8>::empty();
        lemma_none(eight_bytes(crc, size));
        lemma_member_bad(m, crc, size, none, out, index);
        assert(part.len() == m.front().len() + 8);
        lemma_told_at(m.data(), crc, size, k, m.front().len() as int, spans[k].0 as int);
    }
}

} // verus!
