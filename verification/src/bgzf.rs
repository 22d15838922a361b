//! BGZF files: gzip files whose members tell their size, so that they can be
//! decoded independently.
use vstd::prelude::*;
use crate::deflate::bit_reader::addressable;
use crate::agreement::{joined, law_until_resumes, lemma_first_member, lemma_joined_append};
use crate::deflate::bits::{align_up, bit_len};
use crate::deflate::cells::{filled, until_cells, within, law_speculative_is_serial};
use crate::deflate::cut::law_part_suffices;
use crate::deflate::format::{inflate, until, lemma_until_advances};
use crate::gzip::{
    GzipError, Gunzipped, bgzf_block_size, bgzf_size_in, decode_one_indexed_fast, error_at, tell_error_at, header_len,
    le32, member, parse_bgzf_block_size, law_header_cut, law_header_len_bounds,
};
use crate::stream::gunzip_member;

verus! {

/// Where a member starts and ends in the file.
pub type Span = (usize, usize);

/// The BGZF members from byte `pos` on, one after the other, and the byte
/// after them, from which on the file is no BGZF file.
pub open spec fn bgzf_spans(s: Seq<u8>, pos: int) -> Result<(Seq<Span>, int), GzipError>
    decreases s.len() - pos,
{
    proof {
        lemma_bgzf_size(s.skip(pos));
    }
    if pos < 0 || pos >= s.len() {
        Ok((Seq::empty(), pos))
    } else {
        match bgzf_block_size(s.skip(pos)) {
            None => Ok((Seq::empty(), pos)),
            Some(size) => if pos + size > s.len() {
                Err(GzipError::Truncated)
            } else {
                match bgzf_spans(s, pos + size) {
                    Err(e) => Err(e),
                    Ok((rest, end)) => Ok((seq![(pos as usize, (pos + size) as usize)] + rest, end)),
                }
            },
        }
    }
}

/// A BGZF block has at least one byte.
pub proof fn lemma_bgzf_size(s: Seq<u8>)
    ensures
        match bgzf_block_size(s) {
            Some(n) => n >= 1,
            None => true,
        },
{
    if s.len() >= 12 {
        lemma_size_in(s, 12, 12 + crate::gzip::le16(s, 10));
    }
}

proof fn lemma_size_in(s: Seq<u8>, p: int, end: int)
    ensures
        match bgzf_size_in(s, p, end) {
            Some(n) => n >= 1,
            None => true,
        },
    decreases end - p,
{
    if p + 4 <= end {
        let slen = crate::gzip::le16(s, p + 2);
        if p + 4 + slen <= end {
            lemma_size_in(s, p + 4 + slen, end);
        }
    }
}

/// Spans that follow one another without a gap, none of them empty.
pub open spec fn adjacent(spans: Seq<Span>) -> bool {
    &&& forall|i: int| 0 <= i < spans.len() ==> (#[trigger] spans[i]).0 < spans[i].1
    &&& forall|i: int, j: int| 0 <= i && j == i + 1 && j < spans.len() ==> (#[trigger] spans[i]).1 == (
    #[trigger] spans[j]).0
}

/// Finds the BGZF members at the start of a file.
pub fn find_members(file: &[u8]) -> (r: Result<(Vec<Span>, usize), GzipError>)
    ensures
        match bgzf_spans(file@, 0) {
            Ok((spans, end)) => r is Ok && r->Ok_0.0@ == spans && r->Ok_0.1 == end,
            Err(e) => r == Err::<(Vec<Span>, usize), GzipError>(e),
        },
        r is Ok ==> adjacent(r->Ok_0.0@) && (forall|i: int|
            0 <= i < r->Ok_0.0@.len() ==> (#[trigger] r->Ok_0.0@[i]).1 <= r->Ok_0.1) && r->Ok_0.1 <= file@.len(),
{
    let mut spans: Vec<Span> = Vec::new();
    let mut pos: usize = 0;
    let len: usize = file.len();
    assert(bgzf_spans(file@, 0) == prepended(spans@, bgzf_spans(file@, 0))) by {
        if let Ok((rest, end)) = bgzf_spans(file@, 0) {
            assert(spans@ + rest =~= rest);
        }
    }
    while pos < len
        invariant_except_break
            bgzf_spans(file@, 0) == prepended(spans@, bgzf_spans(file@, pos as int)),
        invariant
            len == file@.len(),
            pos <= len,
            adjacent(spans@),
            forall|i: int| 0 <= i < spans@.len() ==> (#[trigger] spans@[i]).1 <= pos,
            spans@.len() > 0 ==> spans@.last().1 == pos,
        ensures
            bgzf_spans(file@, 0) == Ok::<(Seq<Span>, int), GzipError>((spans@, pos as int)),
        decreases len - pos,
    {
        let rest: &[u8] = vstd::slice::slice_subrange(file, pos, len);
        assert(rest@ =~= file@.skip(pos as int));
        proof {
            lemma_bgzf_size(rest@);
            assert(spans@ + Seq::<Span>::empty() =~= spans@);
        }
        let size: usize = match parse_bgzf_block_size(rest) {
            Some(n) => n as usize,
            None => {
                break;
            },
        };
        if len - pos < size {
            return Err(GzipError::Truncated);
        }
        let ghost spans0 = spans@;
        spans.push((pos, pos + size));
        proof {
            let p1 = (pos + size) as int;
            if let Ok((rest, end)) = bgzf_spans(file@, p1) {
                assert(spans0 + (seq![(pos, (pos + size) as usize)] + rest) =~= spans@ + rest);
            }
        }
        pos = pos + size;
    }
    assert(spans@ + Seq::<Span>::empty() =~= spans@);
    Ok((spans, pos))
}

/// `spans` in front of what a walk found.
spec fn prepended(spans: Seq<Span>, r: Result<(Seq<Span>, int), GzipError>) -> Result<(Seq<Span>, int), GzipError> {
    match r {
        Err(e) => Err(e),
        Ok((rest, end)) => Ok((spans + rest, end)),
    }
}

/// How many compressed bytes a batch of members should have: about a quarter
/// of a worker's share, no more than a chunk, and no less than 64 KiB.
pub open spec fn target_of(total_compressed: int, num_threads: int, chunk_size_bytes: int) -> int {
    let share = total_compressed / (num_threads * 4);
    let at_most = if share > 65536 { share } else { 65536 };
    let wanted = if chunk_size_bytes < at_most { chunk_size_bytes } else { at_most };
    if wanted > 65536 { wanted } else { 65536 }
}

/// How many compressed bytes a batch of members should have.
pub fn batch_target(total_compressed: usize, num_threads: usize, chunk_size_bytes: usize) -> (n: usize)
    requires
        1 <= num_threads <= usize::MAX / 4,
    ensures
        n == target_of(total_compressed as int, num_threads as int, chunk_size_bytes as int),
        n >= 65536,
{
    let share: usize = total_compressed / (num_threads * 4);
    let at_most: usize = if share > 65536 {
        share
    } else {
        65536
    };
    let wanted: usize = if chunk_size_bytes < at_most {
        chunk_size_bytes
    } else {
        at_most
    };
    if wanted > 65536 {
        wanted
    } else {
        65536
    }
}

/// Bytes from the start of member `a` to the end of the member before `b`.
pub open spec fn spanned(spans: Seq<Span>, a: int, b: int) -> int {
    if a < b {
        spans[b - 1].1 - spans[a].0
    } else {
        0
    }
}

/// A batch of members: it has `target` bytes or ends with the last member, and
/// without its last member it has less.
pub open spec fn is_batch(spans: Seq<Span>, target: int, b: (usize, usize)) -> bool {
    &&& b.0 < b.1 <= spans.len()
    &&& b.1 == spans.len() || spanned(spans, b.0 as int, b.1 as int) >= target
    &&& spanned(spans, b.0 as int, b.1 - 1) < target
}

/// Batches that take up all members in order.
pub open spec fn in_batches(spans: Seq<Span>, target: int, batches: Seq<(usize, usize)>) -> bool {
    &&& forall|k: int| 0 <= k < batches.len() ==> is_batch(spans, target, #[trigger] batches[k])
    &&& forall|k: int, j: int| 0 <= k && j == k + 1 && j < batches.len() ==> (#[trigger] batches[k]).1 == (
    #[trigger] batches[j]).0
    &&& batches.len() > 0 ==> batches[0].0 == 0
}

/// The end of the batch that starts with member `start` and holds those up to `i`.
pub open spec fn batch_end(spans: Seq<Span>, target: int, start: int, i: int) -> int
    decreases spans.len() - i,
{
    if i < spans.len() && spanned(spans, start, i) < target {
        batch_end(spans, target, start, i + 1)
    } else {
        i
    }
}

/// The batches from member `i` on.
pub open spec fn batches_from(spans: Seq<Span>, target: int, i: int) -> Seq<(usize, usize)>
    decreases spans.len() - i,
{
    proof {
        lemma_batch_end(spans, target, i, i);
    }
    if i < 0 || i >= spans.len() || target <= 0 {
        Seq::empty()
    } else {
        let e = batch_end(spans, target, i, i);
        seq![(i as usize, e as usize)] + batches_from(spans, target, e)
    }
}

pub proof fn lemma_batch_end(spans: Seq<Span>, target: int, start: int, i: int)
    ensures
        i <= batch_end(spans, target, start, i),
        i <= spans.len() ==> batch_end(spans, target, start, i) <= spans.len(),
        0 <= i < spans.len() && start == i && target > 0 ==> i < batch_end(spans, target, start, i),
    decreases spans.len() - i,
{
    if i < spans.len() && spanned(spans, start, i) < target {
        lemma_batch_end(spans, target, start, i + 1);
    }
}

/// Groups members into batches of about `target` compressed bytes.
pub fn make_batches(spans: &[Span], target: usize) -> (batches: Vec<(usize, usize)>)
    requires
        adjacent(spans@),
        target > 0,
    ensures
        batches@ == batches_from(spans@, target as int, 0),
        in_batches(spans@, target as int, batches@),
        spans@.len() > 0 ==> batches@.len() > 0 && batches@.last().1 == spans@.len(),
        spans@.len() == 0 ==> batches@.len() == 0,
{
    let mut batches: Vec<(usize, usize)> = Vec::new();
    let mut i: usize = 0;
    let ghost all = batches_from(spans@, target as int, 0);
    assert(batches@ + all =~= all);
    while i < spans.len()
        invariant
            i <= spans@.len(),
            adjacent(spans@),
            target > 0,
            all == batches_from(spans@, target as int, 0),
            batches@ + batches_from(spans@, target as int, i as int) == all,
            in_batches(spans@, target as int, batches@),
            batches@.len() > 0 ==> batches@.last().1 == i,
            batches@.len() == 0 ==> i == 0,
        decreases spans@.len() - i,
    {
        let start: usize = i;
        let mut bytes: usize = 0;
        while i < spans.len() && bytes < target
            invariant
                start <= i <= spans@.len(),
                start < spans@.len(),
                adjacent(spans@),
                target > 0,
                bytes == spanned(spans@, start as int, i as int),
                batch_end(spans@, target as int, start as int, start as int) == batch_end(
                    spans@,
                    target as int,
                    start as int,
                    i as int,
                ),
                i > start ==> spanned(spans@, start as int, i - 1) < target,
            decreases spans@.len() - i,
        {
            proof {
                lemma_spanned_step(spans@, start as int, i as int);
            }
            bytes = bytes + (spans[i].1 - spans[i].0);
            i = i + 1;
        }
        let ghost before = batches@;
        batches.push((start, i));
        proof {
            let rest = batches_from(spans@, target as int, i as int);
            assert(before + (seq![(start, i)] + rest) =~= batches@ + rest);
        }
    }
    assert(batches@ + Seq::<(usize, usize)>::empty() =~= batches@);
    batches
}

proof fn lemma_spanned_step(spans: Seq<Span>, a: int, b: int)
    requires
        adjacent(spans),
        0 <= a <= b < spans.len(),
    ensures
        spanned(spans, a, b + 1) == spanned(spans, a, b) + (spans[b].1 - spans[b].0),
        0 <= spanned(spans, a, b + 1) <= usize::MAX,
        0 <= spanned(spans, a, b),
    decreases b - a,
{
    if a < b {
        lemma_spanned_step(spans, a, b - 1);
        assert(spans[b - 1].1 == spans[b].0);
    } else {
        assert(spans[b].0 < spans[b].1);
    }
}

/// Decodes members `i` up to `end` after the bytes `out`.
pub open spec fn batch_from(file: Seq<u8>, spans: Seq<Span>, i: int, end: int, out: Seq<u8>) -> Gunzipped
    decreases end - i,
{
    if i >= end {
        Gunzipped { out, end: Ok(i) }
    } else {
        let m = member(
            file.subrange(spans[i].0 as int, spans[i].1 as int),
            out,
            (i % 0x1_0000_0000) as u32,
        );
        match m.end {
            Err(e) => Gunzipped { out: m.out, end: Err(error_at(e, spans[i].0 as int)) },
            Ok(_) => batch_from(file, spans, i + 1, end, m.out),
        }
    }
}

/// Decodes a batch of members.
pub fn decode_batch(file: &[u8], spans: &[Span], start: usize, end: usize) -> (r: Result<Vec<u8>, GzipError>)
    requires
        addressable(file@),
        start <= end <= spans@.len(),
        forall|i: int| 0 <= i < spans@.len() ==> (#[trigger] spans@[i]).0 <= spans@[i].1 <= file@.len(),
    ensures
        ({
            let b = batch_from(file@, spans@, start as int, end as int, Seq::empty());
            match b.end {
                Ok(_) => r is Ok && r->Ok_0@ == b.out,
                Err(e) => r == Err::<Vec<u8>, GzipError>(e),
            }
        }),
{
    let mut out: Vec<u8> = Vec::new();
    let mut i: usize = start;
    assert(out@ =~= Seq::<u8>::empty());
    while i < end
        invariant
            start <= i <= end <= spans@.len(),
            addressable(file@),
            forall|i: int| 0 <= i < spans@.len() ==> (#[trigger] spans@[i]).0 <= spans@[i].1 <= file@.len(),
            batch_from(file@, spans@, i as int, end as int, out@) == batch_from(
                file@,
                spans@,
                start as int,
                end as int,
                Seq::empty(),
            ),
        decreases end - i,
    {
        let (s, e) = spans[i];
        assert(spans@[i as int].0 <= spans@[i as int].1 <= file@.len());
        let index: u32 = (i as u64 % 0x1_0000_0000) as u32;
        match decode_one_indexed_fast(vstd::slice::slice_subrange(file, s, e), &mut out, index) {
            Ok(_) => {},
            Err(e) => {
                return Err(tell_error_at(e, s as u64));
            },
        }
        i = i + 1;
    }
    Ok(out)
}

/// The members from byte `pos` on that tell their size tell it truly.
pub open spec fn sizes_hold(s: Seq<u8>, pos: int) -> bool
    decreases s.len() - pos,
{
    proof {
        lemma_bgzf_size(s.skip(pos));
    }
    if pos < 0 || pos >= s.len() {
        true
    } else {
        match bgzf_block_size(s.skip(pos)) {
            None => true,
            Some(size) => {
                &&& member(s.skip(pos), Seq::empty(), 0).end == Ok::<int, GzipError>(size as int)
                &&& sizes_hold(s, pos + size)
            },
        }
    }
}

/// What the member at byte `pos` decodes to on its own.
pub open spec fn alone(s: Seq<u8>, pos: int) -> Seq<u8> {
    member(s.skip(pos), Seq::empty(), 0).out
}

/// What each of some members decodes to on its own.
pub open spec fn each_alone(s: Seq<u8>, spans: Seq<Span>) -> Seq<Seq<u8>> {
    Seq::new(spans.len(), |i: int| alone(s, spans[i].0 as int))
}

/// The span holds one member and nothing else.
pub open spec fn is_member(s: Seq<u8>, span: Span) -> bool {
    &&& span.0 <= span.1 <= s.len()
    &&& member(s.skip(span.0 as int), Seq::empty(), 0).end == Ok::<int, GzipError>(span.1 - span.0)
}

/// Each span holds one member and nothing else.
pub open spec fn are_members(s: Seq<u8>, spans: Seq<Span>) -> bool {
    forall|i: int| 0 <= i < spans.len() ==> is_member(s, #[trigger] spans[i])
}

/// A stream that decodes decodes alike without what follows it, and after any
/// other output.
proof fn lemma_cut_stream(input: Seq<u8>, n: int, out: Seq<u8>)
    requires
        0 <= n <= input.len(),
        match inflate(input, 0, Seq::empty()).end {
            Ok(q) => q <= 8 * n,
            Err(_) => false,
        },
    ensures
        inflate(input.take(n), 0, out).end == inflate(input, 0, Seq::empty()).end,
        inflate(input.take(n), 0, out).out == out + inflate(input, 0, Seq::empty()).out,
{
    let none = Seq::<u8>::empty();
    let part = input.take(n);
    let far = bit_len(input) + 1;
    let near = bit_len(part) + 1;
    let all = until(input, 0, far, none);
    let cut = until(input, 0, near, none);
    lemma_until_advances(input, 0, far, none);
    lemma_until_advances(input, 0, near, none);
    law_until_resumes(input, 0, near, far, none);
    if let Ok((e, false)) = cut.end {
        lemma_until_advances(input, e, far, cut.out);
    }
    assert(cut == all);
    law_speculative_is_serial(input, 0, near, none);
    assert(part =~= input.subrange(0, n));
    law_part_suffices(part, input, 0, 0, near, Seq::empty());
    law_speculative_is_serial(part, 0, near, out);
    let c = until_cells(part, 0, near, Seq::empty());
    assert(within(c.out, 0));
    assert(within(c.out, out.len()));
    assert(filled(c.out, out) =~= filled(c.out, none));
    assert(none + filled(c.out, none) =~= filled(c.out, none));
}

/// A member that decodes decodes alike without what follows it, and after any
/// other output.
proof fn lemma_cut_member(s: Seq<u8>, span: Span, out: Seq<u8>, index: u32)
    requires
        is_member(s, span),
    ensures
        ({
            let m = member(s.subrange(span.0 as int, span.1 as int), out, index);
            m.end is Ok && m.out == out + alone(s, span.0 as int)
        }),
{
    let f = s.skip(span.0 as int);
    let size = span.1 - span.0;
    let g = s.subrange(span.0 as int, span.1 as int);
    assert(g =~= f.take(size));
    law_header_len_bounds(f);
    let h = header_len(f)->Ok_0;
    let fh = f.skip(h);
    let d = inflate(fh, 0, Seq::empty());
    let q = d.end->Ok_0;
    let t = h + align_up(q) / 8;
    lemma_until_advances(fh, 0, bit_len(fh) + 1, Seq::empty());
    assert(size == t + 8);
    law_header_cut(f, size);
    lemma_cut_stream(fh, size - h, out);
    assert(g.skip(h) =~= fh.take(size - h));
    assert((out + d.out).skip(out.len() as int) =~= d.out);
    assert(d.out.skip(0) =~= d.out);
    assert(le32(f, t) == le32(g, t) && le32(f, t + 4) == le32(g, t + 4));
}

/// A batch of members decodes to what they decode to on their own.
pub proof fn lemma_batch(s: Seq<u8>, spans: Seq<Span>, i: int, end: int, out: Seq<u8>)
    requires
        0 <= i <= end <= spans.len(),
        are_members(s, spans),
    ensures
        batch_from(s, spans, i, end, out).end is Ok,
        batch_from(s, spans, i, end, out).out == out + joined(each_alone(s, spans).subrange(i, end)),
    decreases end - i,
{
    let each = each_alone(s, spans);
    if i == end {
        assert(each.subrange(i, end) =~= Seq::<Seq<u8>>::empty());
        assert(out + joined(each.subrange(i, end)) =~= out);
    } else {
        let m = alone(s, spans[i].0 as int);
        assert(is_member(s, spans[i]));
        lemma_cut_member(s, spans[i], out, (i % 0x1_0000_0000) as u32);
        lemma_batch(s, spans, i + 1, end, out + m);
        let first = seq![m];
        let rest = each.subrange(i + 1, end);
        assert(each.subrange(i, end) =~= first + rest);
        lemma_joined_append(first, rest);
        assert(first.drop_last() =~= Seq::<Seq<u8>>::empty());
        assert(joined(first.drop_last()) == Seq::<u8>::empty());
        assert(joined(first) =~= m);
        assert(out + m + joined(rest) =~= out + (m + joined(rest)));
    }
}

/// The BGZF members of a file that decodes, whose sizes are true. Returns the
/// number of the member that follows them, and whether there was any before it.
pub proof fn lemma_walk(s: Seq<u8>, pos: int, n: u32, any: bool) -> (r: (u32, bool))
    requires
        0 <= pos <= s.len() <= usize::MAX,
        gunzip_member(s, 0, pos, n, any).end is Ok,
        sizes_hold(s, pos),
    ensures
        bgzf_spans(s, pos) is Ok,
        ({
            let (spans, end) = bgzf_spans(s, pos)->Ok_0;
            let after = gunzip_member(s, 0, end, r.0, r.1);
            &&& are_members(s, spans)
            &&& pos <= end <= s.len()
            &&& spans.len() <= end - pos
            &&& after.end is Ok
            &&& gunzip_member(s, 0, pos, n, any).out == joined(each_alone(s, spans)) + after.out
        }),
    decreases s.len() - pos,
{
    lemma_bgzf_size(s.skip(pos));
    let g = gunzip_member(s, 0, pos, n, any);
    let none = each_alone(s, Seq::empty());
    assert(joined(none) == Seq::<u8>::empty());
    if pos < s.len() && bgzf_block_size(s.skip(pos)) is Some {
        let (size, next) = lemma_first_member(s, pos, Seq::empty(), 0, n, any);
        let r = lemma_walk(s, pos + size, next, true);
        let (rest, end) = bgzf_spans(s, pos + size)->Ok_0;
        let (spans, _) = bgzf_spans(s, pos)->Ok_0;
        let m = alone(s, pos);
        assert(spans =~= seq![(pos as usize, (pos + size) as usize)] + rest);
        assert forall|i: int| 0 <= i < spans.len() implies is_member(s, #[trigger] spans[i]) by {
            if i > 0 {
                assert(spans[i] == rest[i - 1]);
            }
        }
        let first = seq![m];
        assert(each_alone(s, spans) =~= first + each_alone(s, rest)) by {
            assert forall|i: int| 1 <= i < spans.len() implies spans[i] == #[trigger] rest[i - 1] by {
            }
        }
        lemma_joined_append(first, each_alone(s, rest));
        assert(first.drop_last() =~= Seq::<Seq<u8>>::empty());
        assert(joined(first.drop_last()) == Seq::<u8>::empty());
        assert(joined(first) =~= m);
        let after = gunzip_member(s, 0, end, r.0, r.1).out;
        assert(m + (joined(each_alone(s, rest)) + after) =~= joined(each_alone(s, spans)) + after);
        r
    } else {
        assert(each_alone(s, Seq::empty()) =~= Seq::<Seq<u8>>::empty());
        assert(Seq::<u8>::empty() + g.out =~= g.out);
        (n, any)
    }
}

/// A batch has at least 64 KiB and no more than a chunk, if that is more. It has no
/// more than a quarter of a worker's share, if that is more than 64 KiB, and no less
/// unless a chunk has less.
pub proof fn law_target(total: int, num_threads: int, chunk_size_bytes: int)
    requires
        0 <= total,
        1 <= num_threads,
    ensures
        ({
            let t = target_of(total, num_threads, chunk_size_bytes);
            &&& t >= 65536
            &&& t > 65536 ==> t <= chunk_size_bytes && t * (4 * num_threads) <= total
            &&& t < chunk_size_bytes ==> (t + 1) * (4 * num_threads) > total
        }),
{
    let d = 4 * num_threads;
    let share = total / d;
    vstd::arithmetic::div_mod::lemma_fundamental_div_mod(total, d);
    vstd::arithmetic::div_mod::lemma_mod_bound(total, d);
    let t = target_of(total, num_threads, chunk_size_bytes);
    assert(num_threads * 4 == d);
    assert(d * share == share * d) by (nonlinear_arith);
    assert(t <= share ==> t * d <= share * d) by (nonlinear_arith)
        requires
            d >= 4,
    ;
    assert(t >= share ==> (t + 1) * d >= share * d + d) by (nonlinear_arith)
        requires
            d >= 4,
    ;
}

/// The compressed size of members `a` up to `b`.
pub open spec fn size_of(spans: Seq<Span>, a: int, b: int) -> int
    decreases b - a,
{
    if a >= b {
        0
    } else {
        size_of(spans, a, b - 1) + (spans[b - 1].1 - spans[b - 1].0)
    }
}

proof fn lemma_size_of(spans: Seq<Span>, a: int, b: int)
    requires
        adjacent(spans),
        0 <= a <= b <= spans.len(),
    ensures
        size_of(spans, a, b) == spanned(spans, a, b),
    decreases b - a,
{
    if a < b {
        lemma_size_of(spans, a, b - 1);
        lemma_spanned_step(spans, a, b - 1);
    }
}

proof fn lemma_batch_size(spans: Seq<Span>, target: int, start: int, i: int)
    requires
        adjacent(spans),
        0 <= start <= i <= spans.len(),
        target > 0,
        i > start ==> size_of(spans, start, i - 1) < target,
    ensures
        ({
            let e = batch_end(spans, target, start, i);
            &&& i <= e <= spans.len()
            &&& e > start ==> size_of(spans, start, e - 1) < target
            &&& e < spans.len() ==> size_of(spans, start, e) >= target
        }),
    decreases spans.len() - i,
{
    lemma_size_of(spans, start, i);
    if i < spans.len() && spanned(spans, start, i) < target {
        lemma_batch_size(spans, target, start, i + 1);
    }
}

/// Members are grouped in order, each into one batch. A batch ends as soon as its
/// members have the target size together, and only the last may have less.
pub proof fn law_batches(spans: Seq<Span>, target: int, i: int)
    requires
        adjacent(spans),
        target > 0,
        0 <= i <= spans.len() <= usize::MAX,
    ensures
        ({
            let batches = batches_from(spans, target, i);
            let n = batches.len() as int;
            &&& n == 0 <==> i == spans.len()
            &&& n > 0 ==> batches[0].0 == i && batches[n - 1].1 == spans.len()
            &&& forall|k: int, j: int|
                0 <= k && j == k + 1 && j < n ==> (#[trigger] batches[k]).1 == (#[trigger] batches[j]).0
            &&& forall|k: int|
                0 <= k < n ==> (#[trigger] batches[k]).0 < batches[k].1 && size_of(
                    spans,
                    batches[k].0 as int,
                    batches[k].1 - 1,
                ) < target && (k < n - 1 ==> size_of(spans, batches[k].0 as int, batches[k].1 as int) >= target)
        }),
    decreases spans.len() - i,
{
    let batches = batches_from(spans, target, i);
    let n = batches.len() as int;
    if i < spans.len() {
        lemma_batch_end(spans, target, i, i);
        lemma_batch_size(spans, target, i, i);
        let e = batch_end(spans, target, i, i);
        let rest = batches_from(spans, target, e);
        law_batches(spans, target, e);
        assert(batches == seq![(i as usize, e as usize)] + rest);
        assert(forall|k: int| 0 < k < n ==> batches[k] == rest[k - 1]);
        assert forall|k: int, j: int| 0 <= k && j == k + 1 && j < n implies (#[trigger] batches[k]).1 == (
        #[trigger] batches[j]).0 by {
            if k > 0 {
                assert(rest[k - 1].1 == rest[j - 1].0);
            }
        }
        assert forall|k: int| 0 <= k < n implies (#[trigger] batches[k]).0 < batches[k].1 && size_of(
            spans,
            batches[k].0 as int,
            batches[k].1 - 1,
        ) < target && (k < n - 1 ==> size_of(spans, batches[k].0 as int, batches[k].1 as int) >= target) by {
            if k > 0 {
                assert(batches[k] == rest[k - 1]);
            }
        }
        if rest.len() > 0 {
            assert(batches[n - 1] == rest[rest.len() - 1]);
        }
    }
}

} // verus!
