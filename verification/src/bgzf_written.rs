//! BGZF files as they are written, and that decoding inverts writing.
use vstd::prelude::*;
use crate::Error;
use crate::bgzf::{Span, bgzf_spans, sizes_hold};
use crate::deflate::bits::bit_len;
use crate::file::{file_result, law_file_is_gunzip};
use crate::gzip::{GzipError, bgzf_block_size, bgzf_size_in, le16};
use crate::written::{
    Header, Member, file_bytes, file_data, file_wf, two_bytes, law_file_decodes, law_header_read, law_member_decodes,
    lemma_file_wf, lemma_flag_bits, lemma_flags, lemma_front,
};

verus! {

/// A part of the extra field of a header.
pub ghost struct Subfield {
    /// Two bytes that tell what it is.
    pub id: (u8, u8),
    pub data: Seq<u8>,
}

impl Subfield {
    pub open spec fn wf(self) -> bool {
        self.data.len() <= 65535
    }

    pub open spec fn bytes(self) -> Seq<u8> {
        seq![self.id.0, self.id.1] + two_bytes(self.data.len()) + self.data
    }

    /// It tells the size of a BGZF block: its name is `BC`, and it has two bytes.
    pub open spec fn is_size(self) -> bool {
        self.id == (66u8, 67u8) && self.data.len() == 2
    }
}

/// Subfields, one after the other.
pub open spec fn subfields_bytes(fields: Seq<Subfield>) -> Seq<u8>
    decreases fields.len(),
{
    if fields.len() == 0 {
        Seq::empty()
    } else {
        fields[0].bytes() + subfields_bytes(fields.skip(1))
    }
}

pub open spec fn subfields_wf(fields: Seq<Subfield>) -> bool {
    forall|i: int| 0 <= i < fields.len() ==> (#[trigger] fields[i]).wf()
}

/// Bytes that do not hold a subfield.
pub open spec fn no_subfield(x: Seq<u8>) -> bool {
    x.len() < 4 || x.len() < 4 + x[2] + 256 * x[3]
}

/// The size that the first subfield tells that tells one: its two bytes, the low one
/// first, give the size less 1.
pub open spec fn told(fields: Seq<Subfield>) -> Option<int>
    decreases fields.len(),
{
    if fields.len() == 0 {
        None
    } else if fields[0].is_size() {
        Some(fields[0].data[0] + 256 * fields[0].data[1] + 1)
    } else {
        told(fields.skip(1))
    }
}

/// A size as the library gives it.
pub open spec fn as_size(n: Option<int>) -> Option<u32> {
    match n {
        Some(n) => Some(n as u32),
        None => None,
    }
}

proof fn lemma_subfields_read(fields: Seq<Subfield>, rest: Seq<u8>, s: Seq<u8>, p: int)
    requires
        subfields_wf(fields),
        no_subfield(rest),
        0 <= p,
        p + subfields_bytes(fields).len() + rest.len() <= s.len(),
        s.subrange(p, p + subfields_bytes(fields).len() + rest.len()) == subfields_bytes(fields) + rest,
    ensures
        bgzf_size_in(s, p, p + subfields_bytes(fields).len() + rest.len()) == as_size(told(fields)),
        told(fields) matches Some(n) ==> 1 <= n <= 65536,
    decreases fields.len(),
{
    let all = subfields_bytes(fields) + rest;
    let end = p + all.len();
    if fields.len() == 0 {
        assert(all =~= rest);
        if rest.len() >= 4 {
            assert(s[p + 2] == s.subrange(p, end)[2] && s[p + 3] == s.subrange(p, end)[3]);
            assert(le16(s, p + 2) == rest[2] + 256 * rest[3]);
        }
    } else {
        let f = fields[0];
        let more = fields.skip(1);
        let x = f.bytes();
        let n = f.data.len() as int;
        assert(f.wf());
        assert forall|i: int| 0 <= i < more.len() implies (#[trigger] more[i]).wf() by {
            assert(more[i] == fields[i + 1]);
        }
        assert forall|i: int| 0 <= i < x.len() implies s[p + i] == #[trigger] x[i] by {
            assert(s.subrange(p, end)[i] == all[i]);
        }
        assert(x[0] == f.id.0 && x[1] == f.id.1);
        assert(x[2] == two_bytes(f.data.len())[0] && x[3] == two_bytes(f.data.len())[1]);
        assert(s[p] == x[0] && s[p + 1] == x[1] && s[p + 2] == x[2] && s[p + 3] == x[3]);
        assert(le16(s, p + 2) == n);
        let q = p + 4 + n;
        assert(s.subrange(q, end) =~= subfields_bytes(more) + rest) by {
            assert forall|i: int| 0 <= i < end - q implies s[q + i] == (subfields_bytes(more) + rest)[i] by {
                assert(s.subrange(p, end)[4 + n + i] == all[4 + n + i]);
            }
        }
        if f.is_size() {
            assert(s[p + 4] == x[4] && s[p + 5] == x[5]);
            assert(x[4] == f.data[0] && x[5] == f.data[1]);
        }
        lemma_subfields_read(more, rest, s, q);
    }
}

/// A file that starts with a header that has an extra field tells the size of a
/// BGZF block exactly if one of the subfields does: for all sizes up to 65536, the
/// first such subfield gives the size less 1, whatever else the field holds.
pub proof fn law_size_told(s: Seq<u8>, fields: Seq<Subfield>, rest: Seq<u8>)
    requires
        subfields_wf(fields),
        no_subfield(rest),
        12 + subfields_bytes(fields).len() + rest.len() <= s.len(),
        s[0] == 31 && s[1] == 139 && s[2] == 8 && (s[3] / 4) % 2 == 1,
        s[10] + 256 * s[11] == subfields_bytes(fields).len() + rest.len(),
        s.subrange(12, 12int + subfields_bytes(fields).len() + rest.len()) == subfields_bytes(fields) + rest,
    ensures
        bgzf_block_size(s) == as_size(told(fields)),
        told(fields) matches Some(n) ==> 1 <= n <= 65536,
{
    lemma_flag_bits(s[3]);
    assert(le16(s, 10) == s[10] + 256 * s[11]);
    lemma_subfields_read(fields, rest, s, 12);
}

/// Other files tell no size.
pub proof fn law_no_size_told(s: Seq<u8>)
    ensures
        s.len() < 12 ==> bgzf_block_size(s) is None,
        s.len() >= 12 && !(s[0] == 31 && s[1] == 139 && s[2] == 8) ==> bgzf_block_size(s) is None,
        s.len() >= 12 && (s[3] / 4) % 2 == 0 ==> bgzf_block_size(s) is None,
        s.len() >= 12 && 12 + s[10] + 256 * s[11] > s.len() ==> bgzf_block_size(s) is None,
{
    if s.len() >= 12 {
        lemma_flag_bits(s[3]);
        assert(le16(s, 10) == s[10] + 256 * s[11]);
    }
}

/// Bytes as subfields, and what does not hold one.
proof fn lemma_as_subfields(x: Seq<u8>) -> (r: (Seq<Subfield>, Seq<u8>))
    ensures
        subfields_wf(r.0),
        no_subfield(r.1),
        x == subfields_bytes(r.0) + r.1,
    decreases x.len(),
{
    if no_subfield(x) {
        assert(Seq::<u8>::empty() + x =~= x);
        (Seq::empty(), x)
    } else {
        let n = x[2] + 256 * x[3];
        let f = Subfield { id: (x[0], x[1]), data: x.subrange(4, 4 + n) };
        let (more, rest) = lemma_as_subfields(x.skip(4 + n));
        let fields = seq![f] + more;
        assert(fields.skip(1) =~= more);
        assert(fields[0] == f);
        assert(two_bytes(n as nat) =~= seq![x[2], x[3]]);
        assert(f.bytes() =~= x.take(4 + n));
        assert(x =~= f.bytes() + (subfields_bytes(more) + rest));
        assert(f.bytes() + (subfields_bytes(more) + rest) =~= subfields_bytes(fields) + rest);
        assert forall|i: int| 0 <= i < fields.len() implies (#[trigger] fields[i]).wf() by {
            if i > 0 {
                assert(fields[i] == more[i - 1]);
            }
        }
        (fields, rest)
    }
}

/// The extra field of a header tells a block size of `n` bytes.
#[verifier::opaque]
pub open spec fn tells(h: Header, n: int) -> bool {
    h.extra matches Some(x) && exists|fields: Seq<Subfield>, rest: Seq<u8>|
        {
            &&& subfields_wf(fields)
            &&& no_subfield(rest)
            &&& x == #[trigger] (subfields_bytes(fields) + rest)
            &&& told(fields) == Some(n)
        }
}

/// What a header tells of the size of a block is found.
pub proof fn law_header_tells(h: Header, rest: Seq<u8>)
    requires
        h.wf(),
        h.bytes().len() + rest.len() >= 18,
    ensures
        forall|n: int| #[trigger] tells(h, n) ==> bgzf_block_size(h.bytes() + rest) == Some(n as u32) && 1 <= n <= 65536,
        bgzf_block_size(h.bytes() + rest) matches Some(n) ==> tells(h, n as int),
{
    reveal(tells);
    let s = h.bytes() + rest;
    law_header_read(h, rest);
    lemma_flags(h);
    let f = h.fixed_part();
    assert(h.bytes()[0] == f[0] && h.bytes()[1] == f[1] && h.bytes()[2] == f[2] && h.bytes()[3] == f[3]);
    assert(s[0] == 31 && s[1] == 139 && s[2] == 8 && s[3] == h.flags());
    match h.extra {
        None => {
            law_no_size_told(s);
        },
        Some(x) => {
            let e = h.extra_part();
            let b = h.bytes();
            assert forall|i: int| 0 <= i < e.len() implies s[10 + i] == #[trigger] e[i] by {
                assert(b[10 + i] == e[i]);
            }
            assert(s[10] == e[0] && s[11] == e[1]);
            assert(e[0] == two_bytes(x.len())[0] && e[1] == two_bytes(x.len())[1]);
            assert(s.subrange(12, 12int + x.len()) =~= x) by {
                assert forall|i: int| 0 <= i < x.len() implies s[12 + i] == x[i] by {
                    assert(s[10 + (2 + i)] == e[2 + i]);
                }
            }
            let (fields, more) = lemma_as_subfields(x);
            law_size_told(s, fields, more);
            assert forall|n: int| #[trigger] tells(h, n) implies bgzf_block_size(s) == Some(n as u32) && 1 <= n <= 65536 by {
                let (fs, r) = choose|fs: Seq<Subfield>, r: Seq<u8>|
                    {
                        &&& subfields_wf(fs)
                        &&& no_subfield(r)
                        &&& x == #[trigger] (subfields_bytes(fs) + r)
                        &&& told(fs) == Some(n)
                    };
                law_size_told(s, fs, r);
            }
            if let Some(n) = bgzf_block_size(s) {
                assert(x == subfields_bytes(fields) + more);
                assert(told(fields) == Some(n as int));
                assert(tells(h, n as int));
            }
        },
    }
}

/// Each member that tells its size tells it truly.
pub open spec fn honest(ms: Seq<Member>) -> bool {
    forall|i: int, n: int| 0 <= i < ms.len() && #[trigger] tells(ms[i].header, n) ==> n == ms[i].bytes().len()
}

proof fn lemma_honest(ms: Seq<Member>)
    requires
        honest(ms),
        ms.len() > 0,
    ensures
        honest(ms.skip(1)),
        forall|n: int| #[trigger] tells(ms[0].header, n) ==> n == ms[0].bytes().len(),
{
    assert forall|i: int, n: int| 0 <= i < ms.skip(1).len() && #[trigger] tells(ms.skip(1)[i].header, n) implies n
        == ms.skip(1)[i].bytes().len() by {
        assert(ms.skip(1)[i] == ms[i + 1]);
    }
}

proof fn lemma_sizes_hold(ms: Seq<Member>, s: Seq<u8>, pos: int)
    requires
        file_wf(ms),
        honest(ms),
        0 <= pos <= s.len(),
        s.skip(pos) == file_bytes(ms),
    ensures
        sizes_hold(s, pos),
    decreases ms.len(),
{
    if ms.len() == 0 {
        assert(s.skip(pos).len() == 0);
    } else {
        lemma_file_wf(ms);
        lemma_honest(ms);
        let m = ms[0];
        let more = ms.skip(1);
        let n = m.bytes().len() as int;
        lemma_front(s, pos, m.bytes(), file_bytes(more));
        lemma_size_of(m, file_bytes(more));
        law_member_decodes(m, file_bytes(more), Seq::empty(), 0);
        lemma_sizes_hold(more, s, pos + n);
    }
}

/// What a member at the start of a file tells of its size.
proof fn lemma_size_of(m: Member, rest: Seq<u8>)
    requires
        m.wf(),
    ensures
        forall|n: int| #[trigger] tells(m.header, n) ==> bgzf_block_size(m.bytes() + rest) == Some(n as u32) && 1 <= n
            <= 65536,
        bgzf_block_size(m.bytes() + rest) matches Some(n) ==> tells(m.header, n as int),
{
    let tail = m.body + crate::written::trailer_bytes(m.data()) + rest;
    assert(m.bytes() + rest =~= m.header.bytes() + tail);
    law_header_read(m.header, tail);
    law_header_tells(m.header, tail);
}

/// Decoding a whole file inverts writing it, with any number of workers and any
/// size of chunks: a gzip file, or a BGZF file whose members tell their sizes truly.
pub proof fn law_whole_file_decodes(ms: Seq<Member>, num_threads: int, chunk_size_bytes: int)
    requires
        ms.len() > 0,
        file_wf(ms),
        honest(ms),
        file_bytes(ms).len() <= usize::MAX,
        bit_len(file_bytes(ms)) <= u64::MAX,
        file_data(ms).len() <= usize::MAX,
    ensures
        file_result(file_bytes(ms), num_threads, chunk_size_bytes) == Ok::<Seq<u8>, Error>(file_data(ms)),
{
    let s = file_bytes(ms);
    law_file_decodes(ms);
    assert(s.skip(0) =~= s);
    lemma_sizes_hold(ms, s, 0);
    law_file_is_gunzip(s, num_threads, chunk_size_bytes);
}

/// Where the members of a file stand, from byte `pos` on.
pub open spec fn spans_of(ms: Seq<Member>, pos: int) -> Seq<Span>
    decreases ms.len(),
{
    if ms.len() == 0 {
        Seq::empty()
    } else {
        let end = pos + ms[0].bytes().len();
        seq![(pos as usize, end as usize)] + spans_of(ms.skip(1), end)
    }
}

/// Each member tells its size.
pub open spec fn all_tell(ms: Seq<Member>) -> bool {
    forall|i: int| 0 <= i < ms.len() ==> tells((#[trigger] ms[i]).header, ms[i].bytes().len() as int)
}

proof fn lemma_all_tell(ms: Seq<Member>)
    requires
        all_tell(ms),
        ms.len() > 0,
    ensures
        tells(ms[0].header, ms[0].bytes().len() as int),
        all_tell(ms.skip(1)),
{
    let more = ms.skip(1);
    assert forall|i: int| 0 <= i < more.len() implies tells((#[trigger] more[i]).header, more[i].bytes().len() as int) by {
        assert(more[i] == ms[i + 1]);
    }
}

proof fn lemma_spans_step(s: Seq<u8>, pos: int, n: int)
    requires
        0 <= pos < s.len(),
        bgzf_block_size(s.skip(pos)) == Some(n as u32),
        1 <= n <= 65536,
        pos + n <= s.len(),
        bgzf_spans(s, pos + n) is Ok,
    ensures
        bgzf_spans(s, pos) == Ok::<(Seq<Span>, int), GzipError>(
            (seq![(pos as usize, (pos + n) as usize)] + bgzf_spans(s, pos + n)->Ok_0.0, bgzf_spans(s, pos + n)->Ok_0.1),
        ),
{
}

/// The members of a BGZF file are found where they stand, up to what follows them.
#[verifier::rlimit(60)]
pub proof fn law_members_found(ms: Seq<Member>, tail: Seq<u8>, s: Seq<u8>, pos: int)
    requires
        file_wf(ms),
        all_tell(ms),
        tail.len() == 0 || bgzf_block_size(tail) is None,
        0 <= pos <= s.len(),
        s.skip(pos) == file_bytes(ms) + tail,
    ensures
        bgzf_spans(s, pos) == Ok::<(Seq<Span>, int), GzipError>((spans_of(ms, pos), pos + file_bytes(ms).len())),
    decreases ms.len(),
{
    if ms.len() == 0 {
        lemma_no_more_spans(tail, s, pos);
    } else {
        lemma_file_wf(ms);
        lemma_all_tell(ms);
        let m = ms[0];
        let more = ms.skip(1);
        let n = m.bytes().len() as int;
        lemma_found_first(m, file_bytes(more), tail, s, pos);
        law_members_found(more, tail, s, pos + n);
        lemma_spans_step(s, pos, n);
        let end = pos + n;
        assert(spans_of(ms, pos) == seq![(pos as usize, end as usize)] + spans_of(more, end));
        assert(file_bytes(ms).len() == n + file_bytes(more).len());
        assert(bgzf_spans(s, end)->Ok_0.0 == spans_of(more, end));
        assert(bgzf_spans(s, pos)->Ok_0.0 == spans_of(ms, pos));
        assert(bgzf_spans(s, pos)->Ok_0.1 == pos + file_bytes(ms).len());
    }
}

proof fn lemma_no_more_spans(tail: Seq<u8>, s: Seq<u8>, pos: int)
    requires
        tail.len() == 0 || bgzf_block_size(tail) is None,
        0 <= pos <= s.len(),
        s.skip(pos) == Seq::<u8>::empty() + tail,
    ensures
        bgzf_spans(s, pos) == Ok::<(Seq<Span>, int), GzipError>((Seq::empty(), pos)),
{
    assert(s.skip(pos) =~= tail);
}

proof fn lemma_found_first(m: Member, more: Seq<u8>, tail: Seq<u8>, s: Seq<u8>, pos: int)
    requires
        m.wf(),
        tells(m.header, m.bytes().len() as int),
        0 <= pos <= s.len(),
        s.skip(pos) == m.bytes() + more + tail,
    ensures
        pos + m.bytes().len() <= s.len(),
        s.skip(pos + m.bytes().len()) == more + tail,
        bgzf_block_size(s.skip(pos)) == Some(m.bytes().len() as u32),
        1 <= m.bytes().len() <= 65536,
{
    assert(m.bytes() + more + tail =~= m.bytes() + (more + tail));
    lemma_front(s, pos, m.bytes(), more + tail);
    lemma_size_of(m, more + tail);
}

/// A member that tells more bytes than the file has left is cut off.
pub proof fn law_cut_member_told(ms: Seq<Member>, tail: Seq<u8>, s: Seq<u8>, pos: int)
    requires
        file_wf(ms),
        all_tell(ms),
        match bgzf_block_size(tail) {
            Some(n) => n > tail.len(),
            None => false,
        },
        0 <= pos <= s.len(),
        s.skip(pos) == file_bytes(ms) + tail,
    ensures
        bgzf_spans(s, pos) == Err::<(Seq<Span>, int), GzipError>(GzipError::Truncated),
    decreases ms.len(),
{
    if ms.len() == 0 {
        assert(s.skip(pos) =~= tail);
        assert(tail.len() > 0);
    } else {
        lemma_file_wf(ms);
        lemma_all_tell(ms);
        lemma_found_first(ms[0], file_bytes(ms.skip(1)), tail, s, pos);
        law_cut_member_told(ms.skip(1), tail, s, pos + ms[0].bytes().len());
    }
}

} // verus!
