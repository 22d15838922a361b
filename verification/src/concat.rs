//! gzip files put together are a gzip file.
use vstd::prelude::*;
use crate::agreement::{joined, law_until_resumes};
use crate::deflate::bits::{align_up, bit_len};
use crate::deflate::embed::law_until_embedded;
use crate::deflate::cells::{filled, until_cells, within, law_speculative_is_serial};
use crate::deflate::format::{inflate, until, lemma_until_advances, law_decoding_appends};
use crate::gzip::{header_len, index_after, le32, member, members, law_header_len_bounds, law_member_bounds};
use crate::members::{tally_end, tally_of};
use crate::serial::trailer_of;
use crate::stream::{
    gunzip, gunzip_blocks, gunzip_member, gunzip_trailer, law_header_stable, lemma_member_shift,
};

verus! {

/// What a file decodes to does not depend on how its members are numbered, nor on
/// where it stands.
pub proof fn lemma_numbers_irrelevant(s: Seq<u8>, b1: int, b2: int, a: int, n1: u32, n2: u32, any1: bool, any2: bool)
    requires
        0 <= a,
        gunzip_member(s, b1, a, n1, any1).end is Ok,
        a < s.len() || any2,
    ensures
        gunzip_member(s, b2, a, n2, any2).end is Ok,
        gunzip_member(s, b2, a, n2, any2).out == gunzip_member(s, b1, a, n1, any1).out,
    decreases s.len() - a,
{
    reveal(gunzip_blocks);
    reveal(gunzip_trailer);
    reveal(gunzip_member);
    if a < s.len() {
        law_header_len_bounds(s.skip(a));
        let h = header_len(s.skip(a))->Ok_0;
        let d = until(s, 8 * (a + h), bit_len(s) + 1, Seq::empty());
        lemma_until_advances(s, 8 * (a + h), bit_len(s) + 1, Seq::empty());
        let t = align_up(d.end->Ok_0.0) / 8;
        let e1 = tally_end(tally_of(d.out, n1), trailer_of(s, b1, t));
        let e2 = tally_end(tally_of(d.out, n2), trailer_of(s, b2, t));
        lemma_numbers_irrelevant(s, b1, b2, t + 8, e1->Ok_0.index, e2->Ok_0.index, true, true);
    }
}

/// Decoding from byte `pos` of the first of two files that decode.
proof fn lemma_member_then(a: Seq<u8>, b: Seq<u8>, pos: int, n: u32, any: bool)
    requires
        0 <= pos <= a.len(),
        gunzip_member(a, 0, pos, n, any).end is Ok,
        gunzip(b).end is Ok,
    ensures
        gunzip_member(a + b, 0, pos, n, any).end is Ok,
        gunzip_member(a + b, 0, pos, n, any).out == gunzip_member(a, 0, pos, n, any).out + gunzip(b).out,
    decreases a.len() - pos,
{
    reveal(gunzip_blocks);
    reveal(gunzip_trailer);
    reveal(gunzip_member);
    let s = a + b;
    if pos == a.len() {
        assert(s.skip(pos) =~= b);
        lemma_member_shift(s, 0, pos, 0, n, any);
        lemma_numbers_irrelevant(b, 0, pos, 0, 0, n, false, any);
        assert(Seq::<u8>::empty() + gunzip(b).out =~= gunzip(b).out);
    } else {
        let none = Seq::<u8>::empty();
        law_header_len_bounds(a.skip(pos));
        assert(s.skip(pos) =~= a.skip(pos) + b);
        law_header_stable(a.skip(pos), b);
        let h = header_len(a.skip(pos))->Ok_0;
        let p = 8 * (pos + h);
        let far = bit_len(a) + 1;
        assert(a =~= s.subrange(0, a.len() as int));
        law_until_embedded(a, s, 0, p, far, none);
        law_until_resumes(s, p, far, bit_len(s) + 1, none);
        lemma_until_advances(a, p, far, none);
        let d = until(a, p, far, none);
        let t = align_up(d.end->Ok_0.0) / 8;
        assert(trailer_of(a, 0, t) == trailer_of(s, 0, t));
        let next = tally_end(tally_of(d.out, n), trailer_of(a, 0, t))->Ok_0;
        lemma_member_then(a, b, t + 8, next.index, true);
        assert(d.out.skip(0) + (gunzip_member(a, 0, t + 8, next.index, true).out + gunzip(b).out) =~= gunzip_member(
            a,
            0,
            pos,
            n,
            any,
        ).out + gunzip(b).out);
    }
}

/// Two gzip files put together decode to what they decode to, put together.
pub proof fn law_concat(a: Seq<u8>, b: Seq<u8>)
    requires
        gunzip(a).end is Ok,
        gunzip(b).end is Ok,
    ensures
        gunzip(a + b).end is Ok,
        gunzip(a + b).out == gunzip(a).out + gunzip(b).out,
{
    lemma_member_then(a, b, 0, 0, false);
}

/// What each of some files decodes to.
pub open spec fn each_gunzipped(files: Seq<Seq<u8>>) -> Seq<Seq<u8>> {
    Seq::new(files.len(), |i: int| gunzip(files[i]).out)
}

/// Any number of gzip files put together decode to what they decode to, put together.
pub proof fn law_concat_all(files: Seq<Seq<u8>>)
    requires
        files.len() > 0,
        forall|i: int| 0 <= i < files.len() ==> (#[trigger] gunzip(files[i])).end is Ok,
    ensures
        gunzip(joined(files)).end is Ok,
        gunzip(joined(files)).out == joined(each_gunzipped(files)),
    decreases files.len(),
{
    let rest = files.drop_last();
    let last = files.last();
    assert(gunzip(files[files.len() - 1]).end is Ok);
    assert(each_gunzipped(files).drop_last() =~= each_gunzipped(rest));
    if rest.len() == 0 {
        assert(joined(rest) == Seq::<u8>::empty() && joined(each_gunzipped(rest)) == Seq::<u8>::empty());
        assert(joined(files) =~= last);
        assert(joined(each_gunzipped(files)) =~= gunzip(last).out);
    } else {
        assert forall|i: int| 0 <= i < rest.len() implies (#[trigger] gunzip(rest[i])).end is Ok by {
            assert(gunzip(files[i]).end is Ok);
        }
        law_concat_all(rest);
        law_concat(joined(rest), last);
    }
}

/// A stream that decodes after some output decodes alike with more output before that.
proof fn lemma_longer_history(input: Seq<u8>, pre: Seq<u8>, out: Seq<u8>)
    requires
        inflate(input, 0, out).end is Ok,
    ensures
        inflate(input, 0, pre + out).out == pre + inflate(input, 0, out).out,
        inflate(input, 0, pre + out).end == inflate(input, 0, out).end,
{
    let far = bit_len(input) + 1;
    let c = until_cells(input, 0, far, Seq::empty());
    law_speculative_is_serial(input, 0, far, out);
    law_speculative_is_serial(input, 0, far, pre + out);
    assert(within(c.out, out.len()));
    assert(within(c.out, (pre + out).len()));
    assert(filled(c.out, pre + out) =~= filled(c.out, out));
    assert(pre + out + filled(c.out, out) =~= pre + (out + filled(c.out, out)));
}

/// A member that decodes decodes alike with more output before it, whatever its number.
proof fn lemma_member_after(s: Seq<u8>, pre: Seq<u8>, out: Seq<u8>, n1: u32, n2: u32)
    requires
        member(s, out, n1).end is Ok,
    ensures
        member(s, pre + out, n2).end == member(s, out, n1).end,
        member(s, pre + out, n2).out == pre + member(s, out, n1).out,
{
    law_header_len_bounds(s);
    let h = header_len(s)->Ok_0;
    let t = s.skip(h);
    lemma_longer_history(t, pre, out);
    law_decoding_appends(t, 0, bit_len(t) + 1, out);
    let d = inflate(t, 0, out).out;
    assert((pre + d).skip((pre + out).len() as int) =~= d.skip(out.len() as int));
}

/// A member that decodes decodes alike when more follows it.
proof fn lemma_member_followed(s: Seq<u8>, more: Seq<u8>, out: Seq<u8>, index: u32)
    requires
        member(s, out, index).end is Ok,
    ensures
        member(s + more, out, index) == member(s, out, index),
{
    let w = s + more;
    law_header_len_bounds(s);
    law_header_stable(s, more);
    let h = header_len(s)->Ok_0;
    let t = s.skip(h);
    let u = w.skip(h);
    assert(u =~= t + more);
    assert(t =~= u.subrange(0, t.len() as int));
    let far = bit_len(t) + 1;
    lemma_until_advances(t, 0, far, out);
    law_until_embedded(t, u, 0, 0, far, out);
    law_until_resumes(u, 0, far, bit_len(u) + 1, out);
    let q = until(t, 0, far, out).end->Ok_0.0;
    let at = h + align_up(q) / 8;
    assert(le32(s, at) == le32(w, at) && le32(s, at + 4) == le32(w, at + 4));
}

/// Members from byte `j` of the second of two files on, after the output of the first.
proof fn lemma_members_after(a: Seq<u8>, b: Seq<u8>, j: int, pre: Seq<u8>, out: Seq<u8>, n1: u32, n2: u32)
    requires
        0 <= j <= b.len(),
        members(b, j, out, n1).end is Ok,
    ensures
        members(a + b, a.len() + j, pre + out, n2).end is Ok,
        members(a + b, a.len() + j, pre + out, n2).out == pre + members(b, j, out, n1).out,
    decreases b.len() - j,
{
    let s = a + b;
    if j < b.len() {
        let f = b.skip(j);
        assert(s.skip(a.len() + j) =~= f);
        law_member_bounds(f, out, n1);
        lemma_member_after(f, pre, out, n1, n2);
        let m = member(f, out, n1);
        let n = m.end->Ok_0;
        lemma_members_after(a, b, j + n, pre, m.out, index_after(n1), index_after(n2));
    }
}

/// Members from byte `pos` of the first of two files on.
proof fn lemma_members_then(a: Seq<u8>, b: Seq<u8>, pos: int, out: Seq<u8>, index: u32)
    requires
        0 <= pos <= a.len(),
        members(a, pos, out, index).end is Ok,
        members(b, 0, Seq::empty(), 0).end is Ok,
    ensures
        members(a + b, pos, out, index).end is Ok,
        members(a + b, pos, out, index).out == members(a, pos, out, index).out + members(b, 0, Seq::empty(), 0).out,
    decreases a.len() - pos,
{
    if pos == a.len() {
        lemma_members_after(a, b, 0, out, Seq::empty(), 0, index);
        assert(out + Seq::<u8>::empty() =~= out);
    } else {
        let f = a.skip(pos);
        assert((a + b).skip(pos) =~= f + b);
        law_member_bounds(f, out, index);
        lemma_member_followed(f, b, out, index);
        let m = member(f, out, index);
        lemma_members_then(a, b, pos + m.end->Ok_0, m.out, index_after(index));
    }
}

/// Decoding two gzip files put together member by member gives what decoding each
/// of them gives, put together.
pub proof fn law_concat_members(a: Seq<u8>, b: Seq<u8>, out: Seq<u8>)
    requires
        members(a, 0, out, 0).end is Ok,
        members(b, 0, Seq::empty(), 0).end is Ok,
    ensures
        members(a + b, 0, out, 0).end is Ok,
        members(a + b, 0, out, 0).out == members(a, 0, out, 0).out + members(b, 0, Seq::empty(), 0).out,
{
    lemma_members_then(a, b, 0, out, 0);
}

} // verus!
