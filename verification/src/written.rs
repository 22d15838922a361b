//! gzip files as they are written (RFC 1952), and that decoding inverts writing.
use vstd::prelude::*;
use crate::Error;
use crate::checksum::{crc32, lemma_crc32_empty};
use crate::deflate::DeflateError;
use crate::deflate::bits::{align_up, bit_len};
use crate::deflate::blocks::{
    Block, blocks_bits, blocks_wf, blocks_written, law_stream_decodes, law_until_stands, lemma_blocks_moved,
    lemma_stands_moved,
};
use crate::deflate::format::{Decoded, until, lemma_until_advances};
use crate::deflate::writing::stands;
use crate::gzip::{
    GzipError, Gunzipped, after_extra, after_string, after_zero, header_len, index_after, le32, member, members,
    trailer_at, lemma_after_zero, FCOMMENT, FEXTRA, FHCRC, FNAME,
};
use crate::members::{MemberTally, tally_end, tally_of};
use crate::pipeline::MemberBoundary;
use crate::serial::{Rest, trailer_of};
use crate::stream::{gunzip, gunzip_blocks, gunzip_member, gunzip_trailer};

verus! {

/// A number in two bytes, the lowest first.
pub open spec fn two_bytes(v: nat) -> Seq<u8> {
    seq![(v % 256) as u8, ((v / 256) % 256) as u8]
}

/// A number in four bytes, the lowest first.
pub open spec fn four_bytes(v: nat) -> Seq<u8> {
    seq![(v % 256) as u8, ((v / 256) % 256) as u8, ((v / 65536) % 256) as u8, ((v / 16777216) % 256) as u8]
}

/// No byte of `s` is zero.
pub open spec fn zero_free(s: Seq<u8>) -> bool {
    forall|i: int| 0 <= i < s.len() ==> s[i] != 0
}

/// The header of a member.
pub ghost struct Header {
    /// Whether the file is said to be text.
    pub text: bool,
    /// The time, two hints on how the file was written.
    pub six: Seq<u8>,
    pub extra: Option<Seq<u8>>,
    pub name: Option<Seq<u8>>,
    pub comment: Option<Seq<u8>>,
    /// A checksum of the header.
    pub check: Option<Seq<u8>>,
}

impl Header {
    pub open spec fn wf(self) -> bool {
        &&& self.six.len() == 6
        &&& self.extra matches Some(x) ==> x.len() <= 65535
        &&& self.name matches Some(x) ==> zero_free(x)
        &&& self.comment matches Some(x) ==> zero_free(x)
        &&& self.check matches Some(x) ==> x.len() == 2
    }

    /// The flags, one for each optional field.
    pub open spec fn flags(self) -> int {
        (if self.text { 1int } else { 0 }) + (if self.check is Some { 2int } else { 0 }) + (if self.extra is Some {
            4int
        } else {
            0
        }) + (if self.name is Some { 8int } else { 0 }) + (if self.comment is Some { 16int } else { 0 })
    }

    pub open spec fn fixed_part(self) -> Seq<u8> {
        seq![0x1fu8, 0x8bu8, 8u8, self.flags() as u8] + self.six
    }

    pub open spec fn extra_part(self) -> Seq<u8> {
        match self.extra {
            Some(x) => two_bytes(x.len()) + x,
            None => Seq::empty(),
        }
    }

    pub open spec fn name_part(self) -> Seq<u8> {
        match self.name {
            Some(x) => x + seq![0u8],
            None => Seq::empty(),
        }
    }

    pub open spec fn comment_part(self) -> Seq<u8> {
        match self.comment {
            Some(x) => x + seq![0u8],
            None => Seq::empty(),
        }
    }

    pub open spec fn check_part(self) -> Seq<u8> {
        match self.check {
            Some(x) => x,
            None => Seq::empty(),
        }
    }

    /// The header as it is written.
    pub open spec fn bytes(self) -> Seq<u8> {
        self.fixed_part() + (self.extra_part() + (self.name_part() + (self.comment_part() + self.check_part())))
    }
}

pub proof fn lemma_flag_bits(f: u8)
    ensures
        f & 2u8 != 0 <==> (f / 2) % 2 == 1,
        f & 4u8 != 0 <==> (f / 4) % 2 == 1,
        f & 8u8 != 0 <==> (f / 8) % 2 == 1,
        f & 16u8 != 0 <==> (f / 16) % 2 == 1,
        f & 0xe0u8 == 0 <==> f < 32,
{
    assert((f & 2u8 != 0 <==> (f / 2) % 2 == 1) && (f & 4u8 != 0 <==> (f / 4) % 2 == 1) && (f & 8u8 != 0 <==> (f / 8) % 2
        == 1) && (f & 16u8 != 0 <==> (f / 16) % 2 == 1) && (f & 0xe0u8 == 0 <==> f < 32)) by (bit_vector);
}

pub proof fn lemma_flags(h: Header)
    ensures
        0 <= h.flags() < 32,
        (h.flags() / 2) % 2 == 1 <==> h.check is Some,
        (h.flags() / 4) % 2 == 1 <==> h.extra is Some,
        (h.flags() / 8) % 2 == 1 <==> h.name is Some,
        (h.flags() / 16) % 2 == 1 <==> h.comment is Some,
{
}

/// The end of a text in `s` that starts at `from` and is as long as `x`.
proof fn lemma_zero_at(s: Seq<u8>, from: int, to: int)
    requires
        0 <= from <= to < s.len(),
        s[to] == 0,
        forall|i: int| from <= i < to ==> s[i] != 0,
    ensures
        after_zero(s, from) == Ok::<int, GzipError>(to + 1),
    decreases to - from,
{
    if from < to {
        lemma_zero_at(s, from + 1, to);
    }
}

proof fn lemma_text_read(s: Seq<u8>, from: int, field: Option<Seq<u8>>)
    requires
        0 <= from,
        field matches Some(x) ==> zero_free(x) && from + x.len() + 1 <= s.len() && s.subrange(
            from,
            from + x.len() + 1,
        ) == x + seq![0u8],
    ensures
        after_string(s, field is Some, from) == Ok::<int, GzipError>(
            from + match field {
                Some(x) => x.len() + 1,
                None => 0,
            },
        ),
{
    if let Some(x) = field {
        let f = x + seq![0u8];
        assert forall|i: int| 0 <= i < f.len() implies s[from + i] == #[trigger] f[i] by {
            assert(s.subrange(from, from + x.len() + 1)[i] == s[from + i]);
        }
        assert(s[from + x.len()] == f[x.len() as int]);
        assert forall|i: int| from <= i < from + x.len() implies s[i] != 0 by {
            assert(s[from + (i - from)] == f[i - from]);
        }
        lemma_zero_at(s, from, from + x.len());
    }
}

/// Each optional field of a header is skipped if it is there, and only then: a
/// header that starts a file is as long as it was written, whatever follows it.
pub proof fn law_header_read(h: Header, rest: Seq<u8>)
    requires
        h.wf(),
    ensures
        header_len(h.bytes() + rest) == Ok::<int, GzipError>(h.bytes().len() as int),
        h.bytes().len() == 10 + (match h.extra {
            Some(x) => 2 + x.len(),
            None => 0,
        }) + (match h.name {
            Some(x) => x.len() + 1,
            None => 0,
        }) + (match h.comment {
            Some(x) => x.len() + 1,
            None => 0,
        }) + (if h.check is Some { 2int } else { 0 }),
{
    let s = h.bytes() + rest;
    let flg = h.flags() as u8;
    lemma_flags(h);
    lemma_flag_bits(flg);
    lemma_parts(h.fixed_part(), h.extra_part(), h.name_part(), h.comment_part(), h.check_part(), rest);
    let f = h.fixed_part();
    assert(s[0] == s.take(10)[0] && s[1] == s.take(10)[1] && s[2] == s.take(10)[2] && s[3] == s.take(10)[3]);
    lemma_extra_read(s, flg, h.extra);
    let a = 10int + h.extra_part().len();
    lemma_text_read(s, a, h.name);
    let b = a + h.name_part().len();
    lemma_text_read(s, b, h.comment);
    lemma_header_steps(s, a, b, b + h.comment_part().len());
}

/// A header, field by field.
proof fn lemma_header_steps(s: Seq<u8>, a: int, b: int, c: int)
    requires
        s.len() >= 10,
        s[0] == 31 && s[1] == 139 && s[2] == 8 && s[3] & 0xe0u8 == 0,
        after_extra(s, s[3], 10) == Ok::<int, GzipError>(a),
        after_string(s, s[3] & 8u8 != 0, a) == Ok::<int, GzipError>(b),
        after_string(s, s[3] & 16u8 != 0, b) == Ok::<int, GzipError>(c),
    ensures
        s[3] & 2u8 == 0 ==> header_len(s) == Ok::<int, GzipError>(c),
        s[3] & 2u8 != 0 && c + 2 <= s.len() ==> header_len(s) == Ok::<int, GzipError>(c + 2),
{
    reveal(header_len);
}

proof fn lemma_extra_read(s: Seq<u8>, flg: u8, field: Option<Seq<u8>>)
    requires
        flg & 4u8 != 0 <==> field is Some,
        field matches Some(x) ==> x.len() <= 65535 && 12 + x.len() <= s.len() && s.subrange(10, 12int + x.len())
            == two_bytes(x.len()) + x,
    ensures
        after_extra(s, flg, 10) == Ok::<int, GzipError>(
            10int + match field {
                Some(x) => 2 + x.len(),
                None => 0,
            },
        ),
{
    if let Some(x) = field {
        let part = s.subrange(10, 12int + x.len());
        assert(s[10] == part[0] && s[11] == part[1]);
        assert(part[0] == two_bytes(x.len())[0] && part[1] == two_bytes(x.len())[1]);
    }
}

/// Five parts, one after the other.
proof fn lemma_parts(a: Seq<u8>, b: Seq<u8>, c: Seq<u8>, d: Seq<u8>, e: Seq<u8>, rest: Seq<u8>)
    ensures
        ({
            let s = a + (b + (c + (d + e))) + rest;
            let i = a.len() as int;
            let j = i + b.len();
            let k = j + c.len();
            let l = k + d.len();
            &&& s.take(i) == a
            &&& s.subrange(i, j) == b
            &&& s.subrange(j, k) == c
            &&& s.subrange(k, l) == d
            &&& s.len() == l + e.len() + rest.len()
        }),
{
    let s = a + (b + (c + (d + e))) + rest;
    let i = a.len() as int;
    let j = i + b.len();
    let k = j + c.len();
    let l = k + d.len();
    assert(s.take(i) =~= a);
    assert(s.subrange(i, j) =~= b);
    assert(s.subrange(j, k) =~= c);
    assert(s.subrange(k, l) =~= d);
}

/// A file that does not start with a header is refused by its first wrong byte, or
/// as too short.
pub proof fn law_header_refused(s: Seq<u8>)
    ensures
        s.len() < 10 ==> header_len(s) == Err::<int, GzipError>(GzipError::Truncated),
        s.len() >= 10 && !(s[0] == 31 && s[1] == 139) ==> header_len(s) == Err::<int, GzipError>(GzipError::BadMagic),
        s.len() >= 10 && s[0] == 31 && s[1] == 139 && s[2] != 8 ==> header_len(s) == Err::<int, GzipError>(
            GzipError::UnsupportedMethod(s[2]),
        ),
        s.len() >= 10 && s[0] == 31 && s[1] == 139 && s[2] == 8 && s[3] >= 32 ==> header_len(s) == Err::<
            int,
            GzipError,
        >(GzipError::ReservedFlags(s[3])),
        s.len() >= 10 && s[0] == 31 && s[1] == 139 && s[2] == 8 && s[3] < 32 && header_len(s) is Err ==> header_len(s)
            == Err::<int, GzipError>(GzipError::Truncated),
{
    reveal(header_len);
    if s.len() >= 10 {
        lemma_flag_bits(s[3]);
        if let Ok(a) = after_extra(s, s[3], 10) {
            lemma_after_zero(s, a);
            if let Ok(b) = after_string(s, s[3] & FNAME != 0, a) {
                lemma_after_zero(s, b);
            }
        }
    }
}

/// A text that was skipped.
spec fn skipped(s: Seq<u8>, from: int, to: int, present: bool) -> Option<Seq<u8>> {
    if present {
        Some(s.subrange(from, to - 1))
    } else {
        None
    }
}

proof fn lemma_flags_of(f: u8, h: Header)
    requires
        f < 32,
        h.text == (f % 2 == 1),
        h.check is Some == ((f / 2) % 2 == 1),
        h.extra is Some == ((f / 4) % 2 == 1),
        h.name is Some == ((f / 8) % 2 == 1),
        h.comment is Some == ((f / 16) % 2 == 1),
    ensures
        h.flags() == f,
{
    assert(f == f % 2 + 2 * ((f / 2) % 2) + 4 * ((f / 4) % 2) + 8 * ((f / 8) % 2) + 16 * ((f / 16) % 2));
}

proof fn lemma_stands_extra(s: Seq<u8>, f: u8, a: int, field: Option<Seq<u8>>)
    requires
        s.len() >= 10,
        after_extra(s, f, 10) == Ok::<int, GzipError>(a),
        field == if f & FEXTRA != 0 {
            Some(s.subrange(12, a))
        } else {
            None
        },
    ensures
        10 <= a <= s.len(),
        field matches Some(x) ==> x.len() <= 65535 && two_bytes(x.len()) + x == s.subrange(10, a),
        field is None ==> a == 10,
{
    if let Some(x) = field {
        assert(two_bytes(x.len()) + x =~= s.subrange(10, a));
    }
}

proof fn lemma_stands_text(s: Seq<u8>, from: int, to: int, present: bool)
    requires
        0 <= from <= s.len(),
        after_string(s, present, from) == Ok::<int, GzipError>(to),
    ensures
        from <= to <= s.len(),
        !present ==> from == to,
        present ==> zero_free(s.subrange(from, to - 1)) && s.subrange(from, to - 1) + seq![0u8] == s.subrange(from, to),
{
    lemma_after_zero(s, from);
    if present {
        assert(s.subrange(from, to - 1) + seq![0u8] =~= s.subrange(from, to));
    }
}

proof fn lemma_glue(s: Seq<u8>, i: int, a: int, b: int, c: int, d: int)
    requires
        0 <= i <= a <= b <= c <= d <= s.len(),
    ensures
        s.take(i) + (s.subrange(i, a) + (s.subrange(a, b) + (s.subrange(b, c) + s.subrange(c, d)))) == s.take(d),
{
    assert(s.subrange(b, c) + s.subrange(c, d) =~= s.subrange(b, d));
    assert(s.subrange(a, b) + s.subrange(b, d) =~= s.subrange(a, d));
    assert(s.subrange(i, a) + s.subrange(a, d) =~= s.subrange(i, d));
    assert(s.take(i) + s.subrange(i, d) =~= s.take(d));
}

/// Nothing else is a header: a header that is skipped was written.
pub proof fn law_header_stands(s: Seq<u8>) -> (h: Header)
    requires
        header_len(s) is Ok,
    ensures
        h.wf(),
        header_len(s)->Ok_0 == h.bytes().len(),
        h.bytes().len() <= s.len(),
        s.take(h.bytes().len() as int) == h.bytes(),
{
    reveal(header_len);
    let f = s[3];
    lemma_flag_bits(f);
    let a = after_extra(s, f, 10)->Ok_0;
    let b = after_string(s, f & FNAME != 0, a)->Ok_0;
    let c = after_string(s, f & FCOMMENT != 0, b)->Ok_0;
    let d = header_len(s)->Ok_0;
    lemma_after_zero(s, a);
    lemma_after_zero(s, b);
    let h = Header {
        text: f % 2 == 1,
        six: s.subrange(4, 10),
        extra: if f & FEXTRA != 0 {
            Some(s.subrange(12, a))
        } else {
            None
        },
        name: skipped(s, a, b, f & FNAME != 0),
        comment: skipped(s, b, c, f & FCOMMENT != 0),
        check: if f & FHCRC != 0 {
            Some(s.subrange(c, c + 2))
        } else {
            None
        },
    };
    lemma_flags_of(f, h);
    assert(h.fixed_part() =~= s.take(10));
    lemma_stands_extra(s, f, a, h.extra);
    lemma_stands_text(s, a, b, f & FNAME != 0);
    lemma_stands_text(s, b, c, f & FCOMMENT != 0);
    assert(h.check_part() =~= s.subrange(c, d));
    lemma_glue(s, 10, a, b, c, d);
    if h.extra is None {
        assert(h.extra_part() =~= s.subrange(10, a));
    }
    if h.name is None {
        assert(h.name_part() =~= s.subrange(a, b));
    }
    if h.comment is None {
        assert(h.comment_part() =~= s.subrange(b, c));
    }
    h
}

/// Four bytes that stand in `s` are the number that is read there.
pub proof fn lemma_four_read(s: Seq<u8>, t: int, v: nat)
    requires
        0 <= t,
        t + 4 <= s.len(),
        v < 0x1_0000_0000,
    ensures
        s.subrange(t, t + 4) == four_bytes(v) <==> le32(s, t) == v,
{
    let f = four_bytes(v);
    let x = s.subrange(t, t + 4);
    assert(x[0] == s[t] && x[1] == s[t + 1] && x[2] == s[t + 2] && x[3] == s[t + 3]);
    lemma_digits(f[0], f[1], f[2], f[3], v as int);
    lemma_digits(s[t], s[t + 1], s[t + 2], s[t + 3], v as int);
    if le32(s, t) == v {
        assert(x =~= f);
    }
}

proof fn lemma_digits(a: u8, b: u8, c: u8, d: u8, v: int)
    requires
        0 <= v < 0x1_0000_0000,
    ensures
        a + b * 0x100 + c * 0x1_0000 + d * 0x100_0000 == v <==> a == v % 256 && b == (v / 256) % 256 && c == (v / 65536)
            % 256 && d == (v / 16777216) % 256,
{
    let w = v as u32;
    assert(a + b * 0x100 + c * 0x1_0000 + d * 0x100_0000 == w <==> a == w % 256 && b == (w / 256) % 256 && c == (w
        / 65536) % 256 && d == (w / 16777216) % 256) by (bit_vector);
}

/// The trailer of a member that holds `data`.
pub open spec fn trailer_bytes(data: Seq<u8>) -> Seq<u8> {
    four_bytes(crc32(data) as nat) + four_bytes(data.len() % 0x1_0000_0000)
}

pub proof fn lemma_trailer_read(s: Seq<u8>, t: int, data: Seq<u8>)
    requires
        0 <= t,
        t + 8 <= s.len(),
    ensures
        s.subrange(t, t + 8) == trailer_bytes(data) <==> le32(s, t) == crc32(data) && le32(s, t + 4) == data.len()
            % 0x1_0000_0000,
{
    let x = s.subrange(t, t + 8);
    let a = s.subrange(t, t + 4);
    let b = s.subrange(t + 4, t + 8);
    let c = four_bytes(crc32(data) as nat);
    let d = four_bytes(data.len() % 0x1_0000_0000);
    lemma_four_read(s, t, crc32(data) as nat);
    lemma_four_read(s, t + 4, data.len() % 0x1_0000_0000);
    assert(x =~= a + b);
    if x == c + d {
        assert(a =~= (c + d).take(4) && (c + d).take(4) =~= c);
        assert(b =~= (c + d).skip(4) && (c + d).skip(4) =~= d);
    }
}

/// A trailer is accepted exactly if it holds the checksum of the decoded bytes and
/// the low 32 bits of their number, however many there are.
pub proof fn law_trailer_accepted(s: Seq<u8>, t: int, data: Seq<u8>, index: u32)
    requires
        0 <= t,
    ensures
        trailer_at(s, t, data, index) is Ok <==> t + 8 <= s.len() && s.subrange(t, t + 8) == trailer_bytes(data),
        trailer_at(s, t, data, index) is Ok ==> trailer_at(s, t, data, index)->Ok_0 == t + 8,
{
    if t + 8 <= s.len() {
        lemma_trailer_read(s, t, data);
    }
}

/// A trailer that is refused is told: what it holds, what was expected of it, and
/// where it stands.
pub proof fn law_trailer_refused(s: Seq<u8>, t: int, data: Seq<u8>, index: u32, crc: u32, size: u32)
    requires
        0 <= t,
        t + 8 <= s.len(),
        s.subrange(t, t + 8) == four_bytes(crc as nat) + four_bytes(size as nat),
    ensures
        crc != crc32(data) ==> trailer_at(s, t, data, index) == Err::<int, GzipError>(
            GzipError::CrcMismatch {
                expected: crc,
                got: crc32(data),
                member: index,
                uncompressed: data.len() as u64,
                trailer_byte: t as u64,
            },
        ),
        crc == crc32(data) && size != data.len() % 0x1_0000_0000 ==> trailer_at(s, t, data, index) == Err::<
            int,
            GzipError,
        >(GzipError::IsizeMismatch { expected: size, got: data.len() as u64, member: index, trailer_byte: t as u64 }),
{
    let c = four_bytes(crc as nat);
    let d = four_bytes(size as nat);
    assert(s.subrange(t, t + 4) =~= (c + d).take(4) && (c + d).take(4) =~= c);
    assert(s.subrange(t + 4, t + 8) =~= (c + d).skip(4) && (c + d).skip(4) =~= d);
    lemma_four_read(s, t, crc as nat);
    lemma_four_read(s, t + 4, size as nat);
}

/// A member that has come by is accepted exactly if its trailer holds the checksum
/// of its bytes and the low 32 bits of their number; then the next one starts anew.
pub proof fn law_tally_accepts(data: Seq<u8>, index: u32, mb: MemberBoundary)
    ensures
        tally_end(tally_of(data, index), mb) is Ok <==> mb.crc_expected == crc32(data) && mb.isize_expected
            == data.len() % 0x1_0000_0000,
        tally_end(tally_of(data, index), mb) is Ok ==> tally_end(tally_of(data, index), mb)->Ok_0 == tally_of(
            Seq::empty(),
            ((index + 1) % 0x1_0000_0000) as u32,
        ),
        mb.crc_expected != crc32(data) ==> tally_end(tally_of(data, index), mb) == Err::<MemberTally, GzipError>(
            GzipError::CrcMismatch {
                expected: mb.crc_expected,
                got: crc32(data),
                member: index,
                uncompressed: (data.len() % 0x1_0000_0000_0000_0000) as u64,
                trailer_byte: mb.trailer_input_byte,
            },
        ),
        mb.crc_expected == crc32(data) && mb.isize_expected != data.len() % 0x1_0000_0000 ==> tally_end(
            tally_of(data, index),
            mb,
        ) == Err::<MemberTally, GzipError>(
            GzipError::IsizeMismatch {
                expected: mb.isize_expected,
                got: (data.len() % 0x1_0000_0000_0000_0000) as u64,
                member: index,
                trailer_byte: mb.trailer_input_byte,
            },
        ),
{
    let n = data.len() as int;
    assert((n % 0x1_0000_0000_0000_0000) % 0x1_0000_0000 == n % 0x1_0000_0000);
    lemma_crc32_empty();
}

/// A member.
pub ghost struct Member {
    pub header: Header,
    /// The stream, by its blocks and in bytes.
    pub blocks: Seq<Block>,
    pub body: Seq<u8>,
}

impl Member {
    pub open spec fn wf(self) -> bool {
        &&& self.header.wf()
        &&& self.blocks.len() > 0
        &&& blocks_wf(self.blocks, 0, Seq::empty())
        &&& stands(self.body, 0, blocks_bits(self.blocks, true))
        &&& 8 * self.body.len() < blocks_bits(self.blocks, true).len() + 8
    }

    /// What the member holds.
    pub open spec fn data(self) -> Seq<u8> {
        blocks_written(self.blocks, Seq::empty())
    }

    /// The member up to its trailer.
    pub open spec fn front(self) -> Seq<u8> {
        self.header.bytes() + self.body
    }

    pub open spec fn bytes(self) -> Seq<u8> {
        self.front() + trailer_bytes(self.data())
    }
}

/// The stream of a member that starts at byte `a` of `s`.
pub proof fn lemma_member_stream(m: Member, s: Seq<u8>, a: int, out: Seq<u8>)
    requires
        m.wf(),
        0 <= a,
        a + m.front().len() <= s.len(),
        s.subrange(a, a + m.front().len()) == m.front(),
    ensures
        ({
            let h = m.header.bytes().len();
            let q = 8 * (a + h) + blocks_bits(m.blocks, true).len();
            &&& header_len(s.skip(a)) == Ok::<int, GzipError>(h as int)
            &&& align_up(q) / 8 == a + m.front().len()
            &&& until(s, 8 * (a + h), bit_len(s) + 1, out) == (Decoded {
                out: out + m.data(),
                end: Ok::<(int, bool), DeflateError>((q, true)),
            })
        }),
{
    let h = m.header.bytes().len() as int;
    let n = m.front().len() as int;
    let x = s.subrange(a, a + n);
    assert(s.skip(a) =~= m.header.bytes() + s.skip(a + h)) by {
        assert forall|i: int| 0 <= i < h implies s.skip(a)[i] == m.header.bytes()[i] by {
            assert(x[i] == m.front()[i]);
        }
    }
    law_header_read(m.header, s.skip(a + h));
    assert(s.subrange(a + h, a + n) =~= m.body) by {
        assert forall|i: int| 0 <= i < m.body.len() implies s[a + h + i] == m.body[i] by {
            assert(x[h + i] == m.front()[h + i]);
        }
    }
    let bits = blocks_bits(m.blocks, true);
    lemma_stands_moved(m.body, s, a + h, 0, bits);
    lemma_blocks_moved(m.blocks, 0, a + h, out, Seq::empty());
    assert(out + Seq::<u8>::empty() =~= out);
    law_stream_decodes(m.blocks, s, 8 * (a + h), out);
    lemma_until_advances(s, 8 * (a + h), bit_len(s) + 1, out);
}

/// Decoding a member inverts writing it, whatever follows it.
pub proof fn law_member_decodes(m: Member, rest: Seq<u8>, out: Seq<u8>, index: u32)
    requires
        m.wf(),
    ensures
        member(m.bytes() + rest, out, index) == (Gunzipped {
            out: out + m.data(),
            end: Ok::<int, GzipError>(m.bytes().len() as int),
        }),
{
    let s = m.bytes() + rest;
    let f = m.front();
    let h = m.header.bytes().len() as int;
    assert(s.subrange(0, 0int + f.len()) =~= f);
    lemma_member_stream(m, s, 0, out);
    assert(s.skip(0) =~= s);
    let b = s.skip(h);
    // The same stream, in the bytes after the header.
    assert(b.subrange(0, 0int + m.body.len()) =~= m.body);
    let bits = blocks_bits(m.blocks, true);
    lemma_stands_moved(m.body, b, 0, 0, bits);
    lemma_blocks_moved(m.blocks, 0, 0, out, Seq::empty());
    assert(out + Seq::<u8>::empty() =~= out);
    law_stream_decodes(m.blocks, b, 0, out);
    let t = h + align_up(bits.len() as int) / 8;
    assert(t == f.len());
    assert((out + m.data()).skip(out.len() as int) =~= m.data());
    assert(s.subrange(t, t + 8) =~= trailer_bytes(m.data()));
    law_trailer_accepted(s, t, m.data(), index);
}

/// A file: its members, one after the other.
pub open spec fn file_bytes(ms: Seq<Member>) -> Seq<u8>
    decreases ms.len(),
{
    if ms.len() == 0 {
        Seq::empty()
    } else {
        ms[0].bytes() + file_bytes(ms.skip(1))
    }
}

/// What the members of a file hold.
pub open spec fn file_data(ms: Seq<Member>) -> Seq<u8>
    decreases ms.len(),
{
    if ms.len() == 0 {
        Seq::empty()
    } else {
        ms[0].data() + file_data(ms.skip(1))
    }
}

pub open spec fn file_wf(ms: Seq<Member>) -> bool {
    forall|i: int| 0 <= i < ms.len() ==> (#[trigger] ms[i]).wf()
}

pub proof fn lemma_file_wf(ms: Seq<Member>)
    requires
        file_wf(ms),
        ms.len() > 0,
    ensures
        ms[0].wf(),
        file_wf(ms.skip(1)),
{
    assert forall|i: int| 0 <= i < ms.skip(1).len() implies (#[trigger] ms.skip(1)[i]).wf() by {
        assert(ms.skip(1)[i] == ms[i + 1]);
    }
}

/// A member in the middle of a file is decoded and checked.
pub proof fn lemma_gunzip_step(m: Member, s: Seq<u8>, base: int, a: int, index: u32, any: bool)
    requires
        m.wf(),
        0 <= a,
        a + m.bytes().len() <= s.len(),
        s.subrange(a, a + m.bytes().len()) == m.bytes(),
    ensures
        ({
            let r = gunzip_member(s, base, a + m.bytes().len(), ((index + 1) % 0x1_0000_0000) as u32, true);
            gunzip_member(s, base, a, index, any) == (Rest { out: m.data() + r.out, end: r.end })
        }),
{
    reveal(gunzip_member);
    reveal(gunzip_blocks);
    reveal(gunzip_trailer);
    let n = m.front().len() as int;
    let x = m.bytes();
    let e = Seq::<u8>::empty();
    assert(s.subrange(a, a + n) =~= m.front()) by {
        assert forall|i: int| 0 <= i < n implies s[a + i] == m.front()[i] by {
            assert(s.subrange(a, a + x.len())[i] == x[i]);
        }
    }
    lemma_member_stream(m, s, a, e);
    let t = a + n;
    assert(s.subrange(t, t + 8) =~= trailer_bytes(m.data())) by {
        assert forall|i: int| 0 <= i < 8 implies s[t + i] == trailer_bytes(m.data())[i] by {
            assert(s.subrange(a, a + x.len())[n + i] == x[n + i]);
        }
    }
    assert(e + m.data() =~= m.data());
    assert(m.data().skip(0) =~= m.data());
    lemma_trailer_read(s, t, m.data());
    law_tally_accepts(m.data(), index, trailer_of(s, base, t));
}

/// What stands at byte `a` of `s`, and what follows it.
pub proof fn lemma_front(s: Seq<u8>, a: int, x: Seq<u8>, rest: Seq<u8>)
    requires
        0 <= a <= s.len(),
        s.skip(a) == x + rest,
    ensures
        a + x.len() <= s.len(),
        s.subrange(a, a + x.len()) == x,
        s.skip(a + x.len()) == rest,
{
    let n = x.len() as int;
    assert(s.skip(a).len() == n + rest.len());
    assert(s.skip(a).take(n) =~= x);
    assert(s.subrange(a, a + n) =~= s.skip(a).take(n));
    assert(s.skip(a).skip(n) =~= rest);
    assert(s.skip(a + n) =~= s.skip(a).skip(n));
}

proof fn lemma_gunzip_from(ms: Seq<Member>, s: Seq<u8>, base: int, a: int, index: u32, any: bool)
    requires
        file_wf(ms),
        ms.len() > 0 || any,
        0 <= a <= s.len(),
        s.skip(a) == file_bytes(ms),
    ensures
        gunzip_member(s, base, a, index, any) == (Rest {
            out: file_data(ms),
            end: Ok::<int, Error>((index + ms.len()) % 0x1_0000_0000),
        }),
    decreases ms.len(),
{
    if ms.len() == 0 {
        reveal(gunzip_member);
        assert(s.skip(a).len() == 0);
    } else {
        lemma_file_wf(ms);
        let m = ms[0];
        let n = m.bytes().len() as int;
        let rest = ms.skip(1);
        lemma_front(s, a, m.bytes(), file_bytes(rest));
        lemma_gunzip_step(m, s, base, a, index, any);
        lemma_gunzip_from(rest, s, base, a + n, ((index + 1) % 0x1_0000_0000) as u32, true);
        vstd::arithmetic::div_mod::lemma_add_mod_noop_right(ms.len() - 1, index + 1, 0x1_0000_0000);
    }
}

/// Decoding a file inverts writing it: members with any headers and any blocks, of
/// any size, decode to what they hold, one after the other.
pub proof fn law_file_decodes(ms: Seq<Member>)
    requires
        file_wf(ms),
        ms.len() > 0,
    ensures
        gunzip(file_bytes(ms)) == (Rest {
            out: file_data(ms),
            end: Ok::<int, Error>((ms.len() % 0x1_0000_0000) as int),
        }),
{
    let s = file_bytes(ms);
    assert(s.skip(0) =~= s);
    lemma_gunzip_from(ms, s, 0, 0, 0, false);
}

/// Nothing else is decoded: a file that decodes was written as members, and
/// decodes to what they hold.
pub proof fn law_gunzipped_stands(s: Seq<u8>) -> (ms: Seq<Member>)
    requires
        gunzip(s).end is Ok,
    ensures
        ms.len() > 0,
        file_wf(ms),
        s == file_bytes(ms),
        gunzip(s).out == file_data(ms),
{
    let ms = lemma_gunzip_stands(s, 0, 0, 0, false);
    assert(s.skip(0) =~= s);
    ms
}

proof fn lemma_gunzip_stands(s: Seq<u8>, base: int, a: int, index: u32, any: bool) -> (ms: Seq<Member>)
    requires
        0 <= a <= s.len(),
        gunzip_member(s, base, a, index, any).end is Ok,
    ensures
        ms.len() > 0 || any,
        file_wf(ms),
        s.skip(a) == file_bytes(ms),
        gunzip_member(s, base, a, index, any).out == file_data(ms),
    decreases s.len() - a,
{
    if a == s.len() {
        reveal(gunzip_member);
        assert(s.skip(a) =~= Seq::<u8>::empty());
        Seq::empty()
    } else {
        let m = lemma_member_stands(s, base, a, index, any);
        let n = m.bytes().len() as int;
        lemma_gunzip_step(m, s, base, a, index, any);
        let rest = lemma_gunzip_stands(s, base, a + n, ((index + 1) % 0x1_0000_0000) as u32, true);
        let ms = seq![m] + rest;
        assert(ms.skip(1) =~= rest);
        assert(ms[0] == m);
        assert(s.skip(a) =~= s.subrange(a, a + n) + s.skip(a + n));
        assert forall|i: int| 0 <= i < ms.len() implies (#[trigger] ms[i]).wf() by {
            if i > 0 {
                assert(ms[i] == rest[i - 1]);
            }
        }
        ms
    }
}

/// A member that is decoded was written.
proof fn lemma_member_stands(s: Seq<u8>, base: int, a: int, index: u32, any: bool) -> (m: Member)
    requires
        0 <= a < s.len(),
        gunzip_member(s, base, a, index, any).end is Ok,
    ensures
        m.wf(),
        a + m.bytes().len() <= s.len(),
        s.subrange(a, a + m.bytes().len()) == m.bytes(),
{
    reveal(gunzip_member);
    reveal(gunzip_blocks);
    reveal(gunzip_trailer);
    let e = Seq::<u8>::empty();
    let header = law_header_stands(s.skip(a));
    let h = header.bytes().len() as int;
    let p = 8 * (a + h);
    let far = bit_len(s) + 1;
    let d = until(s, p, far, e);
    lemma_until_advances(s, p, far, e);
    let blocks = law_until_stands(s, p, far, e);
    let bits = blocks_bits(blocks, true);
    let t = align_up(p + bits.len()) / 8;
    let body = s.subrange(a + h, t);
    lemma_stands_moved(body, s, a + h, 0, bits);
    lemma_blocks_moved(blocks, p, -(a + h), e, e);
    assert(e + e =~= e);
    assert(p + 8 * -(a + h) == 0);
    let m = Member { header, blocks, body };
    assert(d.out == m.data());
    assert(m.data().skip(0) =~= m.data());
    law_tally_accepts(m.data(), index, trailer_of(s, base, t));
    lemma_trailer_read(s, t, m.data());
    assert(s.skip(a).take(h) =~= s.subrange(a, a + h));
    assert(m.bytes() =~= s.subrange(a, t + 8)) by {
        assert(s.subrange(a, a + h) + s.subrange(a + h, t) =~= s.subrange(a, t));
        assert(s.subrange(a, t) + s.subrange(t, t + 8) =~= s.subrange(a, t + 8));
    }
    m
}

proof fn lemma_members_from(ms: Seq<Member>, s: Seq<u8>, pos: int, out: Seq<u8>, index: u32)
    requires
        file_wf(ms),
        0 <= pos <= s.len(),
        s.skip(pos) == file_bytes(ms),
    ensures
        members(s, pos, out, index) == (Gunzipped { out: out + file_data(ms), end: Ok::<int, GzipError>(s.len() as int) }),
    decreases ms.len(),
{
    if ms.len() == 0 {
        assert(s.skip(pos).len() == 0);
        assert(out + file_data(ms) =~= out);
    } else {
        lemma_file_wf(ms);
        let m = ms[0];
        let rest = ms.skip(1);
        let n = m.bytes().len() as int;
        law_member_decodes(m, file_bytes(rest), out, index);
        lemma_front(s, pos, m.bytes(), file_bytes(rest));
        assert(m.bytes().len() > 0);
        lemma_members_from(rest, s, pos + n, out + m.data(), index_after(index));
        assert(out + m.data() + file_data(rest) =~= out + file_data(ms));
    }
}

/// Decoding a file member by member inverts writing it.
pub proof fn law_members_decode(ms: Seq<Member>, out: Seq<u8>)
    requires
        file_wf(ms),
    ensures
        members(file_bytes(ms), 0, out, 0) == (Gunzipped {
            out: out + file_data(ms),
            end: Ok::<int, GzipError>(file_bytes(ms).len() as int),
        }),
{
    let s = file_bytes(ms);
    assert(s.skip(0) =~= s);
    lemma_members_from(ms, s, 0, out, 0);
}

} // verus!
