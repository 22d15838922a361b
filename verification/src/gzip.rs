//! gzip framing (RFC 1952) around DEFLATE streams.
//!
//! A file is a sequence of members. A member is a header of 10 bytes with
//! optional fields, a DEFLATE stream, and a trailer of 8 bytes: the CRC-32 of
//! the decoded bytes and their number modulo 2^32.
use vstd::prelude::*;
use crate::checksum::{crc32, crc32_hash};
use crate::deflate::DeflateError;
use crate::deflate::bit_reader::{BitReader, addressable};
use crate::deflate::bits::{align_up, bit_len};
use crate::deflate::fast_inflate::inflate_fast;
use crate::deflate::format::{
    inflate as inflated, extends, lemma_extends_append, law_decoding_appends, lemma_until_advances,
};
use crate::deflate::inflate::inflate;
use crate::deflate::safe_inflate::inflate_into;

verus! {

/// Header flag: a checksum of the header follows it.
pub const FHCRC: u8 = 2;

/// Header flag: an extra field.
pub const FEXTRA: u8 = 4;

/// Header flag: a file name.
pub const FNAME: u8 = 8;

/// Header flag: a comment.
pub const FCOMMENT: u8 = 16;

/// Header flags that must be clear.
pub const FRESERVED: u8 = 0xe0;

/// Why a gzip file could not be decoded.
#[allow(inconsistent_fields)]
#[derive(Debug, Clone, Copy, PartialEq, Eq)]
pub enum GzipError {
    BadMagic,
    UnsupportedMethod(u8),
    ReservedFlags(u8),
    Truncated,
    CrcMismatch {
        expected: u32,
        got: u32,
        /// 0-based index of the gzip member (most files have just one).
        member: u32,
        /// Total uncompressed bytes in this member.
        uncompressed: u64,
        /// Byte offset of the trailer in the input.
        trailer_byte: u64,
    },
    IsizeMismatch { expected: u32, got: u64, member: u32, trailer_byte: u64 },
    Deflate(DeflateError),
}

/// The little-endian 16-bit number at byte `i`.
pub open spec fn le16(s: Seq<u8>, i: int) -> int {
    s[i] + s[i + 1] * 0x100
}

/// The little-endian 32-bit number at byte `i`.
pub open spec fn le32(s: Seq<u8>, i: int) -> int {
    s[i] + s[i + 1] * 0x100 + s[i + 2] * 0x1_0000 + s[i + 3] * 0x100_0000
}

/// The position after the first zero byte at or after `from`.
pub open spec fn after_zero(s: Seq<u8>, from: int) -> Result<int, GzipError>
    decreases s.len() - from,
{
    if from < 0 || from >= s.len() {
        Err(GzipError::Truncated)
    } else if s[from] == 0 {
        Ok(from + 1)
    } else {
        after_zero(s, from + 1)
    }
}

/// The position after the optional extra field that starts at `p`.
pub open spec fn after_extra(s: Seq<u8>, flg: u8, p: int) -> Result<int, GzipError> {
    if flg & FEXTRA == 0 {
        Ok(p)
    } else if p + 2 > s.len() || p + 2 + le16(s, p) > s.len() {
        Err(GzipError::Truncated)
    } else {
        Ok(p + 2 + le16(s, p))
    }
}

/// The position after an optional zero-terminated field that starts at `p`.
pub open spec fn after_string(s: Seq<u8>, present: bool, p: int) -> Result<int, GzipError> {
    if present {
        after_zero(s, p)
    } else {
        Ok(p)
    }
}

/// The position after the optional header checksum that starts at `p`.
pub open spec fn after_hcrc(s: Seq<u8>, flg: u8, p: int) -> Result<int, GzipError> {
    if flg & FHCRC == 0 {
        Ok(p)
    } else if p + 2 > s.len() {
        Err(GzipError::Truncated)
    } else {
        Ok(p + 2)
    }
}

/// The length of the header at the start of `s`.
#[verifier::opaque]
pub open spec fn header_len(s: Seq<u8>) -> Result<int, GzipError> {
    if s.len() < 10 {
        Err(GzipError::Truncated)
    } else if !(s[0] == 0x1f && s[1] == 0x8b) {
        Err(GzipError::BadMagic)
    } else if s[2] != 8 {
        Err(GzipError::UnsupportedMethod(s[2]))
    } else if s[3] & FRESERVED != 0 {
        Err(GzipError::ReservedFlags(s[3]))
    } else {
        match after_extra(s, s[3], 10) {
            Err(e) => Err(e),
            Ok(a) => match after_string(s, s[3] & FNAME != 0, a) {
                Err(e) => Err(e),
                Ok(b) => match after_string(s, s[3] & FCOMMENT != 0, b) {
                    Err(e) => Err(e),
                    Ok(c) => after_hcrc(s, s[3], c),
                },
            },
        }
    }
}

/// Checks the trailer at byte `t` against the decoded bytes. On success: the
/// position after it.
pub open spec fn trailer_at(s: Seq<u8>, t: int, decoded: Seq<u8>, member: u32) -> Result<int, GzipError> {
    if t + 8 > s.len() {
        Err(GzipError::Truncated)
    } else if crc32(decoded) != le32(s, t) {
        Err(
            GzipError::CrcMismatch {
                expected: le32(s, t) as u32,
                got: crc32(decoded),
                member,
                uncompressed: decoded.len() as u64,
                trailer_byte: t as u64,
            },
        )
    } else if decoded.len() % 0x1_0000_0000 != le32(s, t + 4) {
        Err(
            GzipError::IsizeMismatch {
                expected: le32(s, t + 4) as u32,
                got: decoded.len() as u64,
                member,
                trailer_byte: t as u64,
            },
        )
    } else {
        Ok(t + 8)
    }
}

/// What was decoded, and how it ended.
pub struct Gunzipped {
    pub out: Seq<u8>,
    pub end: Result<int, GzipError>,
}

/// Decodes the member at the start of `s`, after the bytes `out`. On success:
/// how many bytes it takes up.
pub open spec fn member(s: Seq<u8>, out: Seq<u8>, index: u32) -> Gunzipped {
    match header_len(s) {
        Err(e) => Gunzipped { out, end: Err(e) },
        Ok(h) => {
            let d = inflated(s.skip(h), 0, out);
            match d.end {
                Err(e) => Gunzipped { out: d.out, end: Err(GzipError::Deflate(e)) },
                Ok(q) => Gunzipped {
                    out: d.out,
                    end: trailer_at(s, h + align_up(q) / 8, d.out.skip(out.len() as int), index),
                },
            }
        },
    }
}

/// An error in a part of the input that starts at byte `base`, told by the whole.
pub open spec fn error_at(e: GzipError, base: int) -> GzipError {
    match e {
        GzipError::CrcMismatch { expected, got, member, uncompressed, trailer_byte } => GzipError::CrcMismatch {
            expected,
            got,
            member,
            uncompressed,
            trailer_byte: ((base + trailer_byte) % 0x1_0000_0000_0000_0000) as u64,
        },
        GzipError::IsizeMismatch { expected, got, member, trailer_byte } => GzipError::IsizeMismatch {
            expected,
            got,
            member,
            trailer_byte: ((base + trailer_byte) % 0x1_0000_0000_0000_0000) as u64,
        },
        _ => e,
    }
}

/// Tells an error in a part of the input that starts at byte `base` by the whole.
pub(crate) fn tell_error_at(e: GzipError, base: u64) -> (r: GzipError)
    ensures
        r == error_at(e, base as int),
{
    match e {
        GzipError::CrcMismatch { expected, got, member, uncompressed, trailer_byte } => GzipError::CrcMismatch {
            expected,
            got,
            member,
            uncompressed,
            trailer_byte: base.wrapping_add(trailer_byte),
        },
        GzipError::IsizeMismatch { expected, got, member, trailer_byte } => GzipError::IsizeMismatch {
            expected,
            got,
            member,
            trailer_byte: base.wrapping_add(trailer_byte),
        },
        _ => e,
    }
}

/// The number of the member after number `index`, modulo 2^32.
pub open spec fn index_after(index: u32) -> u32 {
    ((index + 1) % 0x1_0000_0000) as u32
}

/// Decodes the members from byte `pos` on, the first of which has number `index`.
pub open spec fn members(s: Seq<u8>, pos: int, out: Seq<u8>, index: u32) -> Gunzipped
    decreases s.len() - pos,
{
    proof {
        law_member_bounds(s.skip(pos), out, index);
    }
    if pos < 0 || pos >= s.len() {
        Gunzipped { out, end: Ok(pos) }
    } else {
        let m = member(s.skip(pos), out, index);
        match m.end {
            Err(e) => Gunzipped { out: m.out, end: Err(error_at(e, pos)) },
            Ok(n) => members(s, pos + n, m.out, index_after(index)),
        }
    }
}

pub proof fn lemma_after_zero(s: Seq<u8>, from: int)
    ensures
        match after_zero(s, from) {
            Ok(p) => 0 <= from < p <= s.len() && s[p - 1] == 0 && forall|i: int| from <= i < p - 1 ==> s[i] != 0,
            Err(e) => e == GzipError::Truncated && (0 <= from ==> forall|i: int| from <= i < s.len() ==> s[i] != 0),
        },
    decreases s.len() - from,
{
    if 0 <= from < s.len() && s[from] != 0 {
        lemma_after_zero(s, from + 1);
    }
}

/// A header is at least 10 bytes long and lies within its input.
pub proof fn law_header_len_bounds(s: Seq<u8>)
    ensures
        match header_len(s) {
            Ok(h) => 10 <= h <= s.len(),
            Err(_) => true,
        },
{
    reveal(header_len);
    if s.len() >= 10 {
        if let Ok(a) = after_extra(s, s[3], 10) {
            lemma_after_zero(s, a);
            if let Ok(b) = after_string(s, s[3] & FNAME != 0, a) {
                lemma_after_zero(s, b);
            }
        }
    }
}

/// A member takes up at least 19 bytes, all within its input.
pub proof fn law_member_bounds(s: Seq<u8>, out: Seq<u8>, index: u32)
    ensures
        match member(s, out, index).end {
            Ok(n) => 19 <= n <= s.len(),
            Err(_) => true,
        },
{
    law_header_len_bounds(s);
    if let Ok(h) = header_len(s) {
        let t = s.skip(h);
        lemma_until_advances(t, 0, bit_len(t) + 1, out);
    }
}

proof fn lemma_after_zero_cut(s: Seq<u8>, n: int, from: int)
    requires
        0 <= n <= s.len(),
        match after_zero(s, from) {
            Ok(p) => p <= n,
            Err(_) => false,
        },
    ensures
        after_zero(s.take(n), from) == after_zero(s, from),
    decreases s.len() - from,
{
    lemma_after_zero(s, from);
    if s[from] != 0 {
        lemma_after_zero_cut(s, n, from + 1);
    }
}

/// A header does not depend on what follows it.
pub proof fn law_header_cut(s: Seq<u8>, n: int)
    requires
        header_len(s) is Ok,
        header_len(s)->Ok_0 <= n <= s.len(),
    ensures
        header_len(s.take(n)) == header_len(s),
{
    reveal(header_len);
    law_header_len_bounds(s);
    let t = s.take(n);
    let a = after_extra(s, s[3], 10)->Ok_0;
    let b = after_string(s, s[3] & FNAME != 0, a)->Ok_0;
    let c = after_string(s, s[3] & FCOMMENT != 0, b)->Ok_0;
    lemma_after_zero(s, a);
    lemma_after_zero(s, b);
    assert(a <= b <= c <= n);
    assert(after_extra(t, s[3], 10) == after_extra(s, s[3], 10));
    if s[3] & FNAME != 0 {
        lemma_after_zero_cut(s, n, a);
    }
    if s[3] & FCOMMENT != 0 {
        lemma_after_zero_cut(s, n, b);
    }
}

fn read_le16(input: &[u8], i: usize) -> (v: u16)
    requires
        i + 2 <= input@.len(),
    ensures
        v == le16(input@, i as int),
{
    input[i] as u16 + input[i + 1] as u16 * 0x100
}

pub(crate) fn read_le32(input: &[u8], i: usize) -> (v: u32)
    requires
        i + 4 <= input@.len(),
    ensures
        v == le32(input@, i as int),
{
    input[i] as u32 + input[i + 1] as u32 * 0x100 + input[i + 2] as u32 * 0x1_0000 + input[i + 3] as u32 * 0x100_0000
}

/// The position after the zero-terminated field that starts at `from`.
fn skip_zstring(input: &[u8], from: usize) -> (r: Result<usize, GzipError>)
    ensures
        match after_zero(input@, from as int) {
            Ok(p) => r is Ok && r->Ok_0 == p,
            Err(e) => r == Err::<usize, GzipError>(e),
        },
{
    let mut p: usize = from;
    while p < input.len()
        invariant
            after_zero(input@, p as int) == after_zero(input@, from as int),
        decreases input@.len() - p,
    {
        if input[p] == 0 {
            return Ok(p + 1);
        }
        p = p + 1;
    }
    Err(GzipError::Truncated)
}

/// Parses the header at the start of `input` and returns its length in bytes.
pub fn parse_header(input: &[u8]) -> (r: Result<usize, GzipError>)
    ensures
        match header_len(input@) {
            Ok(h) => r is Ok && r->Ok_0 == h,
            Err(e) => r == Err::<usize, GzipError>(e),
        },
{
    proof {
        reveal(header_len);
    }
    if input.len() < 10 {
        return Err(GzipError::Truncated);
    }
    if !(input[0] == 0x1f && input[1] == 0x8b) {
        return Err(GzipError::BadMagic);
    }
    let cm: u8 = input[2];
    if cm != 8 {
        return Err(GzipError::UnsupportedMethod(cm));
    }
    let flg: u8 = input[3];
    if flg & FRESERVED != 0 {
        return Err(GzipError::ReservedFlags(flg));
    }
    let mut pos: usize = 10;
    if flg & FEXTRA != 0 {
        if input.len() - pos < 2 {
            return Err(GzipError::Truncated);
        }
        let xlen: usize = read_le16(input, pos) as usize;
        pos = pos + 2;
        if input.len() - pos < xlen {
            return Err(GzipError::Truncated);
        }
        pos = pos + xlen;
    }
    if flg & FNAME != 0 {
        proof {
            lemma_after_zero(input@, pos as int);
        }
        pos = match skip_zstring(input, pos) {
            Ok(p) => p,
            Err(e) => {
                return Err(e);
            },
        };
    }
    if flg & FCOMMENT != 0 {
        proof {
            lemma_after_zero(input@, pos as int);
        }
        pos = match skip_zstring(input, pos) {
            Ok(p) => p,
            Err(e) => {
                return Err(e);
            },
        };
    }
    if flg & FHCRC != 0 {
        if input.len() - pos < 2 {
            return Err(GzipError::Truncated);
        }
        pos = pos + 2;
    }
    Ok(pos)
}

/// Looks for the block size among the extra subfields from `p` to `end`.
pub open spec fn bgzf_size_in(s: Seq<u8>, p: int, end: int) -> Option<u32>
    decreases end - p,
{
    if p + 4 > end {
        None
    } else {
        let slen = le16(s, p + 2);
        if p + 4 + slen > end {
            None
        } else if s[p] == 0x42 && s[p + 1] == 0x43 && slen == 2 {
            Some((le16(s, p + 4) + 1) as u32)
        } else {
            bgzf_size_in(s, p + 4 + slen, end)
        }
    }
}

/// The total size of the BGZF block at the start of `s`, if it is one: its
/// extra field has a subfield `BC` of two bytes, which gives that size less 1.
pub open spec fn bgzf_block_size(s: Seq<u8>) -> Option<u32> {
    if s.len() < 12 || !(s[0] == 0x1f && s[1] == 0x8b && s[2] == 8) || s[3] & FEXTRA == 0 || 12 + le16(s, 10)
        > s.len() {
        None
    } else {
        bgzf_size_in(s, 12, 12 + le16(s, 10))
    }
}

/// If `input` starts with a BGZF block, its total size in bytes.
pub fn parse_bgzf_block_size(input: &[u8]) -> (r: Option<u32>)
    ensures
        r == bgzf_block_size(input@),
{
    if input.len() < 12 || !(input[0] == 0x1f && input[1] == 0x8b && input[2] == 8) {
        return None;
    }
    if input[3] & FEXTRA == 0 {
        return None;
    }
    let xlen: usize = read_le16(input, 10) as usize;
    if input.len() - 12 < xlen {
        return None;
    }
    let mut p: usize = 12;
    let end: usize = 12 + xlen;
    while end - p >= 4
        invariant
            p <= end <= input@.len(),
            bgzf_size_in(input@, p as int, end as int) == bgzf_block_size(input@),
        decreases end - p,
    {
        let slen: usize = read_le16(input, p + 2) as usize;
        if end - p - 4 < slen {
            return None;
        }
        if input[p] == 0x42 && input[p + 1] == 0x43 && slen == 2 {
            return Some(read_le16(input, p + 4) as u32 + 1);
        }
        p = p + 4 + slen;
    }
    None
}

/// Checks the trailer at byte `trailer_start` against `out` from `from` on.
fn check_trailer(input: &[u8], trailer_start: usize, out: &Vec<u8>, from: usize, member: u32) -> (r: Result<
    usize,
    GzipError,
>)
    requires
        trailer_start <= input@.len(),
        from <= out@.len(),
    ensures
        match trailer_at(input@, trailer_start as int, out@.skip(from as int), member) {
            Ok(n) => r is Ok && r->Ok_0 == n,
            Err(e) => r == Err::<usize, GzipError>(e),
        },
{
    if input.len() - trailer_start < 8 {
        return Err(GzipError::Truncated);
    }
    let crc_expected: u32 = read_le32(input, trailer_start);
    let isize_expected: u32 = read_le32(input, trailer_start + 4);
    let decoded: &[u8] = vstd::slice::slice_subrange(out.as_slice(), from, out.len());
    assert(decoded@ =~= out@.skip(from as int));
    let crc_got: u32 = crc32_hash(decoded);
    if crc_got != crc_expected {
        return Err(
            GzipError::CrcMismatch {
                expected: crc_expected,
                got: crc_got,
                member,
                uncompressed: decoded.len() as u64,
                trailer_byte: trailer_start as u64,
            },
        );
    }
    let isize_got: u64 = decoded.len() as u64;
    if isize_got % 0x1_0000_0000 != isize_expected as u64 {
        return Err(
            GzipError::IsizeMismatch {
                expected: isize_expected,
                got: isize_got,
                member,
                trailer_byte: trailer_start as u64,
            },
        );
    }
    Ok(trailer_start + 8)
}

/// Decodes the member at the start of `input` and appends what it holds to
/// `out`. Returns how many bytes of `input` it takes up. Errors name the
/// member by the number `index`.
pub fn decode_one_indexed(input: &[u8], out: &mut Vec<u8>, index: u32) -> (r: Result<usize, GzipError>)
    requires
        addressable(input@),
    ensures
        final(out)@ == member(input@, old(out)@, index).out,
        match member(input@, old(out)@, index).end {
            Ok(n) => r is Ok && r->Ok_0 == n,
            Err(e) => r == Err::<usize, GzipError>(e),
        },
{
    proof {
        law_header_len_bounds(input@);
    }
    let header_len: usize = match parse_header(input) {
        Ok(h) => h,
        Err(e) => {
            return Err(e);
        },
    };
    let initial_out_len: usize = out.len();
    let rest: &[u8] = vstd::slice::slice_subrange(input, header_len, input.len());
    assert(rest@ =~= input@.skip(header_len as int));
    proof {
        law_decoding_appends(rest@, 0, bit_len(rest@) + 1, out@);
    }
    let mut br = BitReader::new(rest);
    match inflate(&mut br, out) {
        Ok(()) => {},
        Err(e) => {
            return Err(GzipError::Deflate(e));
        },
    }
    br.byte_align();
    proof {
        br.lemma_wf();
    }
    let body_bytes: usize = (br.tell_bit() / 8) as usize;
    check_trailer(input, header_len + body_bytes, out, initial_out_len, index)
}

/// Does what [`decode_one_indexed`] does, with the decoder on byte slices.
pub fn decode_one_indexed_safe(input: &[u8], out: &mut Vec<u8>, index: u32) -> (r: Result<usize, GzipError>)
    requires
        addressable(input@),
    ensures
        final(out)@ == member(input@, old(out)@, index).out,
        match member(input@, old(out)@, index).end {
            Ok(n) => r is Ok && r->Ok_0 == n,
            Err(e) => r == Err::<usize, GzipError>(e),
        },
{
    proof {
        law_header_len_bounds(input@);
    }
    let header_len: usize = match parse_header(input) {
        Ok(h) => h,
        Err(e) => {
            return Err(e);
        },
    };
    let initial_out_len: usize = out.len();
    let rest: &[u8] = vstd::slice::slice_subrange(input, header_len, input.len());
    assert(rest@ =~= input@.skip(header_len as int));
    proof {
        law_decoding_appends(rest@, 0, bit_len(rest@) + 1, out@);
    }
    let body_bytes: usize = match inflate_into(rest, out) {
        Ok(n) => n,
        Err(e) => {
            return Err(GzipError::Deflate(e));
        },
    };
    check_trailer(input, header_len + body_bytes, out, initial_out_len, index)
}

/// Does what [`decode_one_indexed`] does, with the fast kernel.
pub fn decode_one_indexed_fast(input: &[u8], out: &mut Vec<u8>, index: u32) -> (r: Result<usize, GzipError>)
    requires
        addressable(input@),
    ensures
        final(out)@ == member(input@, old(out)@, index).out,
        match member(input@, old(out)@, index).end {
            Ok(n) => r is Ok && r->Ok_0 == n,
            Err(e) => r == Err::<usize, GzipError>(e),
        },
{
    proof {
        law_header_len_bounds(input@);
    }
    let header_len: usize = match parse_header(input) {
        Ok(h) => h,
        Err(e) => {
            return Err(e);
        },
    };
    let initial_out_len: usize = out.len();
    let rest: &[u8] = vstd::slice::slice_subrange(input, header_len, input.len());
    assert(rest@ =~= input@.skip(header_len as int));
    proof {
        law_decoding_appends(rest@, 0, bit_len(rest@) + 1, out@);
    }
    let mut br = BitReader::new(rest);
    match inflate_fast(&mut br, out) {
        Ok(()) => {},
        Err(e) => {
            return Err(GzipError::Deflate(e));
        },
    }
    br.byte_align();
    proof {
        br.lemma_wf();
    }
    let body_bytes: usize = (br.tell_bit() / 8) as usize;
    check_trailer(input, header_len + body_bytes, out, initial_out_len, index)
}

/// Decodes the member at the start of `input` and appends what it holds to
/// `out`. Returns how many bytes of `input` it takes up.
pub fn decode_one(input: &[u8], out: &mut Vec<u8>) -> (r: Result<usize, GzipError>)
    requires
        addressable(input@),
    ensures
        final(out)@ == member(input@, old(out)@, 0).out,
        match member(input@, old(out)@, 0).end {
            Ok(n) => r is Ok && r->Ok_0 == n,
            Err(e) => r == Err::<usize, GzipError>(e),
        },
{
    decode_one_indexed(input, out, 0)
}

/// Decodes all members of `input` and appends what they hold to `out`.
/// Returns how many bytes were appended.
pub fn decode_all(input: &[u8], out: &mut Vec<u8>) -> (r: Result<u64, GzipError>)
    requires
        addressable(input@),
    ensures
        final(out)@ == members(input@, 0, old(out)@, 0).out,
        match members(input@, 0, old(out)@, 0).end {
            Ok(_) => r is Ok && r->Ok_0 == final(out)@.len() - old(out)@.len(),
            Err(e) => r == Err::<u64, GzipError>(e),
        },
{
    let mut pos: usize = 0;
    let mut total: u64 = 0;
    let mut index: u32 = 0;
    while pos < input.len()
        invariant
            pos <= input@.len(),
            addressable(input@),
            old(out)@.len() + total == out@.len(),
            members(input@, pos as int, out@, index) == members(input@, 0, old(out)@, 0),
        decreases input@.len() - pos,
    {
        let rest: &[u8] = vstd::slice::slice_subrange(input, pos, input.len());
        assert(rest@ =~= input@.skip(pos as int));
        proof {
            law_member_bounds(rest@, out@, index);
            law_member_appends(rest@, out@, index);
        }
        let start_len: usize = out.len();
        let consumed: usize = match decode_one_indexed(rest, out, index) {
            Ok(n) => n,
            Err(e) => {
                return Err(tell_error_at(e, pos as u64));
            },
        };
        let end_len: usize = out.len();
        total = total + (end_len - start_len) as u64;
        pos = pos + consumed;
        index = index.wrapping_add(1);
    }
    Ok(total)
}

/// Decoding a member only appends, whether it succeeds or fails.
pub proof fn law_member_appends(s: Seq<u8>, out: Seq<u8>, index: u32)
    ensures
        extends(member(s, out, index).out, out),
{
    lemma_extends_append(out, Seq::empty());
    if let Ok(h) = header_len(s) {
        let t = s.skip(h);
        law_decoding_appends(t, 0, bit_len(t) + 1, out);
    }
}

} // verus!
