//! Decoding a whole file that is in memory.
use vstd::prelude::*;
use crate::{DecodeStats, Error};
use crate::agreement::{joined, law_all_agree, law_chunked_is_serial, lemma_body_in_order, lemma_joined_append};
use crate::bgzf::{
    Span, adjacent, are_members, batch_end, batch_from, batch_target, batches_from, bgzf_spans, decode_batch,
    each_alone, find_members, is_batch, make_batches, sizes_hold, spanned, target_of, lemma_batch, lemma_batch_end,
    lemma_walk,
};
use crate::concat::lemma_numbers_irrelevant;
use crate::stream::{gunzip, gunzip_member, lemma_member_shift};
use crate::chain::{chain, chunk_views, decode_member_chunked, first_link};
use crate::deflate::bit_reader::addressable;
use crate::deflate::bits::bit_len;
use crate::deflate::block_finder::{find_next_dynamic_block, first_block, next_block, lemma_next_block};
use crate::deflate::format::WINDOW;
use crate::gzip::{
    GzipError, bgzf_block_size, header_len, members, law_header_len_bounds, parse_bgzf_block_size, parse_header,
};
use crate::schedule::{
    ascending_from_zero, boundaries_of, boundary_targets, chunk_bits, items_of, leads, merge_boundaries,
    law_boundaries_kept,
};
use crate::serial::{SerialDecoder, SerialStep, member_from, piece_target, serial_from, serial_pieces};

verus! {

/// How many bits a chunk spans: at least 64 KiB.
pub open spec fn step_bits(chunk_size_bytes: int) -> int {
    if chunk_size_bytes > 65536 {
        chunk_size_bytes * 8
    } else {
        524288
    }
}

/// How many multiples of `step` lie inside `total`.
pub open spec fn steps_inside(total: int, step: int) -> nat {
    if total <= 0 || step <= 0 {
        0
    } else {
        ((total - 1) / step) as nat
    }
}

/// What the searches for block boundaries find, one for each multiple of the
/// chunk size inside the body.
pub open spec fn found_in(body: Seq<u8>, chunk_size_bytes: int) -> Seq<Option<u64>> {
    let step = step_bits(chunk_size_bytes);
    Seq::new(
        steps_inside(bit_len(body), step),
        |i: int|
            match next_block(body, (i + 1) * step, bit_len(body)) {
                Some(b) => Some(b as u64),
                None => None,
            },
    )
}

/// Where a body is cut into chunks.
pub open spec fn planned(body: Seq<u8>, chunk_size_bytes: int) -> Seq<u64> {
    boundaries_of(found_in(body, chunk_size_bytes))
}

proof fn lemma_steps_inside(total: int, step: int, n: int)
    requires
        step > 0,
        total > 0,
        0 <= n,
        n * step < total,
        (n + 1) * step >= total,
    ensures
        steps_inside(total, step) == n,
{
    let x = total - 1 - n * step;
    assert(0 <= x < step) by (nonlinear_arith)
        requires
            x == total - 1 - n * step,
            n * step < total,
            (n + 1) * step >= total,
    ;
    vstd::arithmetic::div_mod::lemma_fundamental_div_mod_converse(total - 1, step, n, x);
}

/// Searches for block boundaries, and cuts the body at those found.
pub fn plan_boundaries(body: &[u8], chunk_size_bytes: usize) -> (b: Vec<u64>)
    requires
        addressable(body@),
        chunk_size_bytes <= u64::MAX / 8,
    ensures
        b@ == planned(body@, chunk_size_bytes as int),
        ascending_from_zero(b@),
{
    let total_bits: u64 = body.len() as u64 * 8;
    let step: u64 = chunk_bits(chunk_size_bytes);
    let targets: Vec<u64> = boundary_targets(total_bits, step);
    let mut found: Vec<Option<u64>> = Vec::with_capacity(targets.len());
    let mut i: usize = 0;
    while i < targets.len()
        invariant
            i <= targets@.len(),
            addressable(body@),
            total_bits == bit_len(body@),
            forall|j: int| 0 <= j < targets@.len() ==> #[trigger] targets@[j] == (j + 1) * step,
            found@.len() == i,
            forall|j: int|
                0 <= j < i ==> #[trigger] found@[j] == match next_block(body@, (j + 1) * step, bit_len(body@)) {
                    Some(b) => Some(b as u64),
                    None => None::<u64>,
                },
        decreases targets@.len() - i,
    {
        found.push(find_next_dynamic_block(body, targets[i], total_bits));
        i = i + 1;
    }
    proof {
        let n = targets@.len() as int;
        if total_bits > 0 {
            assert(n * step < total_bits) by {
                if n == 0 {
                    assert(n * step == 0) by (nonlinear_arith)
                        requires
                            n == 0,
                    ;
                }
            }
            lemma_steps_inside(total_bits as int, step as int, n);
        } else {
            assert(n == 0) by {
                if n > 0 {
                    assert(n * step >= 0) by (nonlinear_arith)
                        requires
                            n > 0,
                            step > 0,
                    ;
                }
            }
        }
        assert(found@ =~= found_in(body@, chunk_size_bytes as int));
    }
    merge_boundaries(found.as_slice())
}

/// A decoded body.
pub struct BodyOutput {
    pub chunks: Vec<Vec<u8>>,
    /// Bytes of the body that were decoded.
    pub consumed: usize,
    pub spec_failures: u64,
}

/// What a body decodes to: in order with one worker, in chunks with more.
pub open spec fn body_result(body: Seq<u8>, offset: int, num_threads: int, chunk_size_bytes: int) -> Result<
    Seq<u8>,
    Error,
> {
    if num_threads == 1 {
        let r = serial_from(body, offset, 0, Seq::empty(), 0);
        match r.end {
            Ok(_) => Ok(r.out),
            Err(e) => Err(e),
        }
    } else {
        match chain(body, offset, items_of(planned(body, chunk_size_bytes)), 0, first_link()) {
            Ok(c) => Ok(joined(c.chunks)),
            Err(e) => Err(e),
        }
    }
}

/// The pieces in which a body that decodes is handed on.
pub open spec fn body_chunks(body: Seq<u8>, offset: int, num_threads: int, chunk_size_bytes: int) -> Seq<Seq<u8>> {
    if num_threads == 1 {
        serial_pieces(body, offset, piece_target(chunk_size_bytes), member_from(0, 0), Seq::empty()).chunks
    } else {
        chain(body, offset, items_of(planned(body, chunk_size_bytes)), 0, first_link())->Ok_0.chunks
    }
}

/// How many bytes of a body that decodes were decoded.
pub open spec fn body_consumed(body: Seq<u8>, offset: int, num_threads: int, chunk_size_bytes: int) -> int {
    if num_threads == 1 {
        serial_from(body, offset, 0, Seq::empty(), 0).end->Ok_0
    } else {
        chain(body, offset, items_of(planned(body, chunk_size_bytes)), 0, first_link())->Ok_0.consumed
    }
}

/// How many chunks of a body that decodes were cut at a false boundary.
pub open spec fn body_failures(body: Seq<u8>, offset: int, num_threads: int, chunk_size_bytes: int) -> int {
    if num_threads == 1 {
        0
    } else {
        chain(body, offset, items_of(planned(body, chunk_size_bytes)), 0, first_link())->Ok_0.failures
    }
}

/// Decodes a body in order, in pieces.
fn decode_in_order(body: &[u8], body_offset: usize, chunk_size_bytes: usize) -> (r: Result<BodyOutput, Error>)
    requires
        addressable(body@),
        body_offset + body@.len() <= u64::MAX,
        chunk_size_bytes + WINDOW <= usize::MAX,
    ensures
        ({
            let s = serial_from(body@, body_offset as int, 0, Seq::empty(), 0);
            match s.end {
                Ok(n) => {
                    &&& r is Ok
                    &&& joined(chunk_views(r->Ok_0.chunks@)) == s.out
                    &&& chunk_views(r->Ok_0.chunks@) == body_chunks(
                        body@,
                        body_offset as int,
                        1,
                        chunk_size_bytes as int,
                    )
                    &&& r->Ok_0.consumed == n
                    &&& r->Ok_0.spec_failures == 0
                },
                Err(e) => r == Err::<BodyOutput, Error>(e),
            }
        }),
{
    let mut d = SerialDecoder::new(body, body_offset, chunk_size_bytes);
    let mut chunks: Vec<Vec<u8>> = Vec::new();
    let ghost s = serial_from(body@, body_offset as int, 0, Seq::empty(), 0);
    let ghost target = piece_target(chunk_size_bytes as int);
    assert(joined(chunk_views(chunks@)) + d.remaining().out =~= s.out);
    assert(chunk_views(chunks@) =~= Seq::<Seq<u8>>::empty());
    loop
        invariant
            d.wf(),
            d.input() == body@,
            d.offset() == body_offset,
            d.target() == target,
            target == piece_target(chunk_size_bytes as int),
            serial_pieces(body@, body_offset as int, target, d.state(), chunk_views(chunks@)) == serial_pieces(
                body@,
                body_offset as int,
                target,
                member_from(0, 0),
                Seq::empty(),
            ),
            s == serial_from(body@, body_offset as int, 0, Seq::empty(), 0),
            joined(chunk_views(chunks@)) + d.remaining().out == s.out,
            d.remaining().end == s.end,
        decreases d.remaining().out.len(),
    {
        let ghost rest = d.remaining().out;
        match d.next() {
            Ok(SerialStep::Chunk(c)) => {
                let ghost before = chunk_views(chunks@);
                chunks.push(c);
                proof {
                    assert(chunk_views(chunks@).drop_last() =~= before);
                    assert(chunk_views(chunks@) =~= before.push(c@));
                    assert(joined(before) + (c@ + d.remaining().out) =~= joined(chunk_views(chunks@))
                        + d.remaining().out);
                    assert(rest.len() == c@.len() + d.remaining().out.len());
                }
            },
            Ok(SerialStep::Done(consumed)) => {
                assert(joined(chunk_views(chunks@)) + Seq::<u8>::empty() =~= joined(chunk_views(chunks@)));
                return Ok(BodyOutput { chunks, consumed, spec_failures: 0 });
            },
            Err(e) => {
                return Err(e);
            },
        }
    }
}

/// Decodes a body, which starts at byte `body_offset` of the file.
pub fn decode_body(body: &[u8], body_offset: usize, num_threads: usize, chunk_size_bytes: usize) -> (r: Result<
    BodyOutput,
    Error,
>)
    requires
        addressable(body@),
        body_offset + body@.len() <= u64::MAX,
        chunk_size_bytes + WINDOW <= usize::MAX,
        chunk_size_bytes <= u64::MAX / 8,
    ensures
        match body_result(body@, body_offset as int, num_threads as int, chunk_size_bytes as int) {
            Ok(out) => {
                &&& r is Ok
                &&& joined(chunk_views(r->Ok_0.chunks@)) == out
                &&& chunk_views(r->Ok_0.chunks@) == body_chunks(
                    body@,
                    body_offset as int,
                    num_threads as int,
                    chunk_size_bytes as int,
                )
                &&& r->Ok_0.consumed == body_consumed(
                    body@,
                    body_offset as int,
                    num_threads as int,
                    chunk_size_bytes as int,
                )
                &&& r->Ok_0.spec_failures == body_failures(
                    body@,
                    body_offset as int,
                    num_threads as int,
                    chunk_size_bytes as int,
                )
            },
            Err(e) => r == Err::<BodyOutput, Error>(e),
        },
{
    if num_threads == 1 {
        return decode_in_order(body, body_offset, chunk_size_bytes);
    }
    let boundaries: Vec<u64> = plan_boundaries(body, chunk_size_bytes);
    match decode_member_chunked(body, body_offset, boundaries.as_slice()) {
        Ok(c) => Ok(BodyOutput { chunks: c.chunks, consumed: c.consumed, spec_failures: c.spec_failures }),
        Err(e) => Err(e),
    }
}

/// Decodes batches from number `k` on, after the bytes `out`.
pub open spec fn batches_result(
    file: Seq<u8>,
    spans: Seq<Span>,
    batches: Seq<(usize, usize)>,
    k: int,
    out: Seq<u8>,
) -> Result<Seq<u8>, GzipError>
    decreases batches.len() - k,
{
    if k >= batches.len() {
        Ok(out)
    } else {
        let b = batch_from(file, spans, batches[k].0 as int, batches[k].1 as int, Seq::empty());
        match b.end {
            Err(e) => Err(e),
            Ok(_) => batches_result(file, spans, batches, k + 1, out + b.out),
        }
    }
}

/// What each batch of a file decodes to.
pub open spec fn batch_chunks(file: Seq<u8>, spans: Seq<Span>, batches: Seq<(usize, usize)>) -> Seq<Seq<u8>> {
    Seq::new(
        batches.len(),
        |k: int| batch_from(file, spans, batches[k].0 as int, batches[k].1 as int, Seq::empty()).out,
    )
}

/// What a BGZF file decodes to: its members in batches, and then what follows
/// them as an ordinary gzip file.
pub open spec fn bgzf_result(file: Seq<u8>, num_threads: int, chunk_size_bytes: int) -> Result<Seq<u8>, Error> {
    match bgzf_spans(file, 0) {
        Err(e) => Err(Error::Gzip(e)),
        Ok((spans, end)) => {
            let target = target_of(spanned(spans, 0, spans.len() as int), num_threads, chunk_size_bytes);
            match batches_result(file, spans, batches_from(spans, target, 0), 0, Seq::empty()) {
                Err(e) => Err(Error::Gzip(e)),
                Ok(out) => if end < file.len() {
                    match header_len(file.skip(end)) {
                        Err(e) => Err(Error::Gzip(e)),
                        Ok(h) => match body_result(file.skip(end + h), end + h, num_threads, chunk_size_bytes) {
                            Err(e) => Err(e),
                            Ok(rest) => Ok(out + rest),
                        },
                    }
                } else {
                    Ok(out)
                },
            }
        },
    }
}

/// What a file decodes to.
pub open spec fn file_result(file: Seq<u8>, num_threads: int, chunk_size_bytes: int) -> Result<Seq<u8>, Error> {
    if bgzf_block_size(file) is Some {
        bgzf_result(file, num_threads, chunk_size_bytes)
    } else {
        match header_len(file) {
            Err(e) => Err(Error::Gzip(e)),
            Ok(h) => body_result(file.skip(h), h, num_threads, chunk_size_bytes),
        }
    }
}

/// The pieces in which a file that decodes is handed on.
pub open spec fn file_chunks(file: Seq<u8>, num_threads: int, chunk_size_bytes: int) -> Seq<Seq<u8>> {
    if bgzf_block_size(file) is Some {
        let (spans, end) = bgzf_spans(file, 0)->Ok_0;
        let target = target_of(spanned(spans, 0, spans.len() as int), num_threads, chunk_size_bytes);
        let chunks = batch_chunks(file, spans, batches_from(spans, target, 0));
        if end < file.len() {
            let h = header_len(file.skip(end))->Ok_0;
            chunks + body_chunks(file.skip(end + h), end + h, num_threads, chunk_size_bytes)
        } else {
            chunks
        }
    } else {
        let h = header_len(file)->Ok_0;
        body_chunks(file.skip(h), h, num_threads, chunk_size_bytes)
    }
}

/// How many chunks of a file that decodes were cut at a false boundary; those of
/// what follows BGZF members are not counted.
pub open spec fn file_failures(file: Seq<u8>, num_threads: int, chunk_size_bytes: int) -> int {
    if bgzf_block_size(file) is Some {
        0
    } else {
        let h = header_len(file)->Ok_0;
        body_failures(file.skip(h), h, num_threads, chunk_size_bytes)
    }
}

/// Decodes the BGZF members of a file; returns the byte after them too.
fn decode_bgzf_members(file: &[u8], num_threads: usize, chunk_size_bytes: usize) -> (r: Result<
    (Vec<Vec<u8>>, usize),
    GzipError,
>)
    requires
        addressable(file@),
        1 <= num_threads <= usize::MAX / 4,
    ensures
        match bgzf_spans(file@, 0) {
            Err(e) => r == Err::<(Vec<Vec<u8>>, usize), GzipError>(e),
            Ok((spans, end)) => {
                let target = target_of(
                    spanned(spans, 0, spans.len() as int),
                    num_threads as int,
                    chunk_size_bytes as int,
                );
                match batches_result(file@, spans, batches_from(spans, target, 0), 0, Seq::empty()) {
                    Err(e) => r == Err::<(Vec<Vec<u8>>, usize), GzipError>(e),
                    Ok(out) => {
                        &&& r is Ok
                        &&& joined(chunk_views(r->Ok_0.0@)) == out
                        &&& chunk_views(r->Ok_0.0@) == batch_chunks(file@, spans, batches_from(spans, target, 0))
                        &&& r->Ok_0.1 == end
                        &&& end <= file@.len()
                    },
                }
            },
        },
{
    let (spans, end) = match find_members(file) {
        Ok(v) => v,
        Err(e) => {
            return Err(e);
        },
    };
    let n: usize = spans.len();
    proof {
        if n > 0 {
            lemma_spans_order(spans@, 0, n - 1);
        }
    }
    let total: usize = if n > 0 {
        spans[n - 1].1 - spans[0].0
    } else {
        0
    };
    let target: usize = batch_target(total, num_threads, chunk_size_bytes);
    let batches: Vec<(usize, usize)> = make_batches(spans.as_slice(), target);
    let mut chunks: Vec<Vec<u8>> = Vec::new();
    let mut k: usize = 0;
    assert(joined(chunk_views(chunks@)) =~= Seq::<u8>::empty());
    assert(chunk_views(chunks@) =~= batch_chunks(file@, spans@, batches@).take(0));
    while k < batches.len()
        invariant
            k <= batches@.len(),
            addressable(file@),
            bgzf_spans(file@, 0) == Ok::<(Seq<Span>, int), GzipError>((spans@, end as int)),
            target == target_of(
                spanned(spans@, 0, spans@.len() as int),
                num_threads as int,
                chunk_size_bytes as int,
            ),
            batches@ == batches_from(spans@, target as int, 0),
            forall|i: int| 0 <= i < spans@.len() ==> (#[trigger] spans@[i]).0 <= spans@[i].1 <= file@.len(),
            forall|j: int| 0 <= j < batches@.len() ==> is_batch(spans@, target as int, #[trigger] batches@[j]),
            chunk_views(chunks@) == batch_chunks(file@, spans@, batches@).take(k as int),
            batches_result(file@, spans@, batches@, k as int, joined(chunk_views(chunks@))) == batches_result(
                file@,
                spans@,
                batches@,
                0,
                Seq::empty(),
            ),
        decreases batches@.len() - k,
    {
        let (start, stop) = batches[k];
        assert(is_batch(spans@, target as int, batches@[k as int]));
        let out: Vec<u8> = match decode_batch(file, spans.as_slice(), start, stop) {
            Ok(v) => v,
            Err(e) => {
                return Err(e);
            },
        };
        let ghost before = chunk_views(chunks@);
        chunks.push(out);
        assert(chunk_views(chunks@).drop_last() =~= before);
        assert(chunk_views(chunks@) =~= batch_chunks(file@, spans@, batches@).take(k + 1));
        k = k + 1;
    }
    assert(chunk_views(chunks@) =~= batch_chunks(file@, spans@, batches@));
    Ok((chunks, end))
}

proof fn lemma_spans_order(spans: Seq<Span>, a: int, b: int)
    requires
        adjacent(spans),
        0 <= a <= b < spans.len(),
    ensures
        spans[a].0 <= spans[b].0 < spans[b].1,
    decreases b - a,
{
    assert(spans[b].0 < spans[b].1);
    if a < b {
        lemma_spans_order(spans, a, b - 1);
        assert(spans[b - 1].1 == spans[b].0);
    }
}

/// A decoded file.
pub struct FileOutput {
    pub chunks: Vec<Vec<u8>>,
    pub stats: DecodeStats,
}

/// How many bytes the pieces have, modulo 2^64.
fn total_len(chunks: &Vec<Vec<u8>>) -> (n: u64)
    ensures
        n == joined(chunk_views(chunks@)).len() % 0x1_0000_0000_0000_0000,
{
    let mut n: u64 = 0;
    let mut i: usize = 0;
    let ghost views = chunk_views(chunks@);
    assert(views.take(0) =~= Seq::<Seq<u8>>::empty());
    while i < chunks.len()
        invariant
            i <= chunks@.len(),
            views == chunk_views(chunks@),
            n == joined(views.take(i as int)).len() % 0x1_0000_0000_0000_0000,
        decreases chunks@.len() - i,
    {
        assert(views.take(i + 1).drop_last() =~= views.take(i as int));
        n = n.wrapping_add(chunks[i].len() as u64);
        i = i + 1;
    }
    assert(views.take(views.len() as int) =~= views);
    n
}

/// Decodes a file: a BGZF file member by member, any other in order with one
/// worker or in chunks with more.
pub fn decode_file(file: &[u8], num_threads: usize, chunk_size_bytes: usize) -> (r: Result<FileOutput, Error>)
    requires
        addressable(file@),
        1 <= num_threads <= usize::MAX / 4,
        chunk_size_bytes + WINDOW <= usize::MAX,
        chunk_size_bytes <= u64::MAX / 8,
    ensures
        match file_result(file@, num_threads as int, chunk_size_bytes as int) {
            Ok(out) => {
                &&& r is Ok
                &&& joined(chunk_views(r->Ok_0.chunks@)) == out
                &&& chunk_views(r->Ok_0.chunks@) == file_chunks(file@, num_threads as int, chunk_size_bytes as int)
                &&& r->Ok_0.stats.compressed_bytes == file@.len()
                &&& r->Ok_0.stats.uncompressed_bytes == out.len() % 0x1_0000_0000_0000_0000
                &&& r->Ok_0.stats.chunks_decoded == r->Ok_0.chunks@.len()
                &&& r->Ok_0.stats.speculation_failures == file_failures(
                    file@,
                    num_threads as int,
                    chunk_size_bytes as int,
                )
            },
            Err(e) => r == Err::<FileOutput, Error>(e),
        },
{
    let len: usize = file.len();
    let mut chunks: Vec<Vec<u8>> = Vec::new();
    let mut speculation_failures: u64 = 0;
    let mut from: usize = 0;
    let mut whole: bool = false;
    let bgzf: bool = parse_bgzf_block_size(file).is_some();
    if bgzf {
        match decode_bgzf_members(file, num_threads, chunk_size_bytes) {
            Ok((c, end)) => {
                chunks = c;
                from = end;
                whole = end >= len;
            },
            Err(e) => {
                return Err(Error::Gzip(e));
            },
        }
    }
    if !whole {
        let rest: &[u8] = vstd::slice::slice_subrange(file, from, len);
        assert(rest@ =~= file@.skip(from as int));
        assert(file@.skip(0) =~= file@);
        proof {
            law_header_len_bounds(rest@);
        }
        let header: usize = match parse_header(rest) {
            Ok(h) => h,
            Err(e) => {
                return Err(Error::Gzip(e));
            },
        };
        let body: &[u8] = vstd::slice::slice_subrange(file, from + header, len);
        assert(body@ =~= file@.skip(from + header));
        let out: BodyOutput = match decode_body(body, from + header, num_threads, chunk_size_bytes) {
            Ok(o) => o,
            Err(e) => {
                return Err(e);
            },
        };
        if !bgzf {
            speculation_failures = out.spec_failures;
        }
        let mut more: Vec<Vec<u8>> = out.chunks;
        let ghost a = chunk_views(chunks@);
        let ghost b = chunk_views(more@);
        chunks.append(&mut more);
        proof {
            assert(chunk_views(chunks@) =~= a + b);
            lemma_joined_append(a, b);
            assert(Seq::<u8>::empty() + joined(b) =~= joined(b));
            assert(a.len() == 0 ==> joined(a) =~= Seq::<u8>::empty());
            assert(a.len() == 0 ==> a + b =~= b);
        }
    }
    let stats = DecodeStats {
        compressed_bytes: len as u64,
        uncompressed_bytes: total_len(&chunks),
        chunks_decoded: chunks.len() as u64,
        speculation_failures,
    };
    Ok(FileOutput { chunks, stats })
}

/// The body of a file that decodes, after its first header, is decoded to the
/// bytes that decoding the file member by member gives, all of it, with any number
/// of workers and any size of chunks; with one worker no chunk is decoded again.
pub proof fn law_body_is_decode_all(file: Seq<u8>, num_threads: int, chunk_size_bytes: int)
    requires
        gunzip(file).end is Ok,
        gunzip(file).out.len() <= usize::MAX,
        bit_len(file) <= u64::MAX,
    ensures
        members(file, 0, Seq::empty(), 0).end is Ok,
        header_len(file) is Ok,
        ({
            let h = header_len(file)->Ok_0;
            let body = file.skip(h);
            &&& body_result(body, h, num_threads, chunk_size_bytes) == Ok::<Seq<u8>, Error>(
                members(file, 0, Seq::empty(), 0).out,
            )
            &&& body_consumed(body, h, num_threads, chunk_size_bytes) == file.len() - h
            &&& num_threads == 1 ==> body_failures(body, h, num_threads, chunk_size_bytes) == 0
        }),
{
    law_all_agree(file, Seq::empty());
    law_header_len_bounds(file);
    let h = header_len(file)->Ok_0;
    lemma_body_is_gunzip(file, 0, num_threads, chunk_size_bytes);
    lemma_boundaries_nonempty(found_in(file.skip(h), chunk_size_bytes));
    law_chunked_is_serial(file.skip(h), h, planned(file.skip(h), chunk_size_bytes));
    assert(Seq::<u8>::empty() + gunzip(file).out =~= gunzip(file).out);
}

/// A body that follows a header of a file that decodes, wherever it stands.
proof fn lemma_body_is_gunzip(file: Seq<u8>, base: int, num_threads: int, chunk_size_bytes: int)
    requires
        gunzip_member(file, base, 0, 0, false).end is Ok,
        gunzip_member(file, base, 0, 0, false).out.len() <= usize::MAX,
        bit_len(file) <= u64::MAX,
    ensures
        header_len(file) is Ok,
        ({
            let h = header_len(file)->Ok_0;
            body_result(file.skip(h), base + h, num_threads, chunk_size_bytes) == Ok::<Seq<u8>, Error>(
                gunzip_member(file, base, 0, 0, false).out,
            )
        }),
{
    lemma_body_in_order(file, base);
    law_header_len_bounds(file);
    let h = header_len(file)->Ok_0;
    let body = file.skip(h);
    lemma_boundaries_nonempty(found_in(body, chunk_size_bytes));
    law_chunked_is_serial(body, base + h, planned(body, chunk_size_bytes));
}

proof fn lemma_batches_shift(
    file: Seq<u8>,
    spans: Seq<Span>,
    first: (usize, usize),
    rest: Seq<(usize, usize)>,
    k: int,
    out: Seq<u8>,
)
    requires
        0 <= k,
    ensures
        batches_result(file, spans, seq![first] + rest, k + 1, out) == batches_result(file, spans, rest, k, out),
    decreases rest.len() - k,
{
    let all = seq![first] + rest;
    if k < rest.len() {
        assert(all[k + 1] == rest[k]);
        let b = batch_from(file, spans, rest[k].0 as int, rest[k].1 as int, Seq::empty());
        lemma_batches_shift(file, spans, first, rest, k + 1, out + b.out);
    }
}

/// Members decode in batches to what they decode to on their own.
proof fn lemma_batches_join(file: Seq<u8>, spans: Seq<Span>, target: int, i: int, out: Seq<u8>)
    requires
        0 <= i <= spans.len() <= usize::MAX,
        target > 0,
        are_members(file, spans),
    ensures
        batches_result(file, spans, batches_from(spans, target, i), 0, out) == Ok::<Seq<u8>, GzipError>(
            out + joined(each_alone(file, spans).skip(i)),
        ),
    decreases spans.len() - i,
{
    let each = each_alone(file, spans);
    if i == spans.len() {
        assert(each.skip(i) =~= Seq::<Seq<u8>>::empty());
        assert(out + joined(each.skip(i)) =~= out);
    } else {
        lemma_batch_end(spans, target, i, i);
        let e = batch_end(spans, target, i, i);
        let rest = batches_from(spans, target, e);
        let none = Seq::<u8>::empty();
        lemma_batch(file, spans, i, e, none);
        let b = batch_from(file, spans, i, e, none).out;
        assert(none + joined(each.subrange(i, e)) =~= joined(each.subrange(i, e)));
        lemma_batches_shift(file, spans, (i as usize, e as usize), rest, 0, out + b);
        lemma_batches_join(file, spans, target, e, out + b);
        assert(each.skip(i) =~= each.subrange(i, e) + each.skip(e));
        lemma_joined_append(each.subrange(i, e), each.skip(e));
        assert(out + b + joined(each.skip(e)) =~= out + joined(each.skip(i)));
    }
}

/// A gzip file that decodes is decoded to its bytes, with any number of
/// workers and any size of chunks. If it starts as a BGZF file, the sizes that
/// its members tell must be true.
pub proof fn law_file_is_gunzip(file: Seq<u8>, num_threads: int, chunk_size_bytes: int)
    requires
        gunzip(file).end is Ok,
        gunzip(file).out.len() <= usize::MAX,
        file.len() <= usize::MAX,
        bit_len(file) <= u64::MAX,
        sizes_hold(file, 0),
    ensures
        file_result(file, num_threads, chunk_size_bytes) == Ok::<Seq<u8>, Error>(gunzip(file).out),
{
    if bgzf_block_size(file) is None {
        lemma_body_is_gunzip(file, 0, num_threads, chunk_size_bytes);
    } else {
        let (n, any) = lemma_walk(file, 0, 0, false);
        let (spans, end) = bgzf_spans(file, 0)->Ok_0;
        let each = each_alone(file, spans);
        let target = target_of(spanned(spans, 0, spans.len() as int), num_threads, chunk_size_bytes);
        lemma_batches_join(file, spans, target, 0, Seq::empty());
        assert(each.skip(0) =~= each);
        assert(Seq::<u8>::empty() + joined(each) =~= joined(each));
        let after = gunzip_member(file, 0, end, n, any);
        if end < file.len() {
            let rest = file.skip(end);
            assert(rest.skip(0) =~= rest);
            lemma_member_shift(file, 0, end, 0, n, any);
            lemma_numbers_irrelevant(rest, end, end, 0, n, 0, any, false);
            let h = header_len(rest)->Ok_0;
            lemma_body_is_gunzip(rest, end, num_threads, chunk_size_bytes);
            law_header_len_bounds(rest);
            assert(rest.skip(h) =~= file.skip(end + h));
        } else {
            reveal(gunzip_member);
            assert(joined(each) + after.out =~= joined(each));
        }
    }
}

proof fn lemma_boundaries_nonempty(found: Seq<Option<u64>>)
    ensures
        boundaries_of(found).len() > 0,
    decreases found.len(),
{
    if found.len() > 0 {
        lemma_boundaries_nonempty(found.drop_last());
    }
}

/// `b` is the first block from multiple `k` of `step` on, which lies inside the body.
pub open spec fn cut_at(body: Seq<u8>, step: int, k: int, b: int) -> bool {
    &&& 1 <= k
    &&& k * step < bit_len(body)
    &&& first_block(body, k * step, bit_len(body), b)
}

/// A body is cut at its start and at the first block from each multiple of the
/// chunk size on, but no less than 64 KiB, and nowhere else.
pub proof fn law_planned(body: Seq<u8>, chunk_size_bytes: int, b: u64)
    requires
        bit_len(body) <= u64::MAX,
    ensures
        chunk_size_bytes <= 65536 ==> (planned(body, chunk_size_bytes).contains(b) <==> b == 0 || exists|k: int|
            #[trigger] cut_at(body, 524288, k, b as int)),
        chunk_size_bytes > 65536 ==> (planned(body, chunk_size_bytes).contains(b) <==> b == 0 || exists|k: int|
            #[trigger] cut_at(body, 8 * chunk_size_bytes, k, b as int)),
{
    let step = step_bits(chunk_size_bytes);
    let found = found_in(body, chunk_size_bytes);
    law_boundaries_kept(found);
    if planned(body, chunk_size_bytes).contains(b) && b != 0 {
        let i = choose|i: int| #[trigger] leads(found, i) && found[i] == Some(b);
        lemma_found(body, chunk_size_bytes, i);
        assert(cut_at(body, step, i + 1, b as int));
    }
    if exists|k: int| #[trigger] cut_at(body, step, k, b as int) {
        let k = choose|k: int| #[trigger] cut_at(body, step, k, b as int);
        lemma_inside(bit_len(body), step, k);
        lemma_found_leads(body, chunk_size_bytes, k - 1, b);
    }
}

/// A multiple of `step` inside `total` is one of those that are counted.
proof fn lemma_inside(total: int, step: int, k: int)
    requires
        step > 0,
        1 <= k,
    ensures
        k * step < total <==> k <= steps_inside(total, step),
{
    let n = steps_inside(total, step) as int;
    if total > 0 {
        vstd::arithmetic::div_mod::lemma_fundamental_div_mod(total - 1, step);
        vstd::arithmetic::div_mod::lemma_mod_bound(total - 1, step);
        vstd::arithmetic::div_mod::lemma_div_pos_is_pos(total - 1, step);
        assert(k <= n ==> k * step <= n * step) by (nonlinear_arith)
            requires
                step > 0,
        ;
        assert(k >= n + 1 ==> k * step >= n * step + step) by (nonlinear_arith)
            requires
                step > 0,
        ;
        assert(step * n == n * step) by (nonlinear_arith);
    } else {
        assert(k * step > 0) by (nonlinear_arith)
            requires
                k >= 1,
                step > 0,
        ;
    }
}

/// What search `i` finds.
proof fn lemma_found(body: Seq<u8>, chunk_size_bytes: int, i: int)
    requires
        bit_len(body) <= u64::MAX,
        0 <= i < found_in(body, chunk_size_bytes).len(),
    ensures
        (i + 1) * step_bits(chunk_size_bytes) < bit_len(body),
        forall|b: u64| found_in(body, chunk_size_bytes)[i] == Some(b) <==> #[trigger] first_block(
            body,
            (i + 1) * step_bits(chunk_size_bytes),
            bit_len(body),
            b as int,
        ),
        found_in(body, chunk_size_bytes)[i] is Some ==> found_in(body, chunk_size_bytes)[i]->Some_0 >= (i + 1) * step_bits(
            chunk_size_bytes,
        ),
{
    let step = step_bits(chunk_size_bytes);
    let far = bit_len(body);
    lemma_inside(far, step, i + 1);
    let from = (i + 1) * step;
    assert(from > 0) by (nonlinear_arith)
        requires
            from == (i + 1) * step,
            i >= 0,
            step > 0,
    ;
    assert forall|b: u64| #[trigger] first_block(body, from, far, b as int) implies found_in(body, chunk_size_bytes)[i]
        == Some(b) by {
        lemma_next_block(body, from, far, b as int);
    }
}

/// What a search finds leads, or was found by one before it that does.
proof fn lemma_found_leads(body: Seq<u8>, chunk_size_bytes: int, i: int, b: u64)
    requires
        bit_len(body) <= u64::MAX,
        0 <= i < found_in(body, chunk_size_bytes).len(),
        found_in(body, chunk_size_bytes)[i] == Some(b) || first_block(
            body,
            (i + 1) * step_bits(chunk_size_bytes),
            bit_len(body),
            b as int,
        ),
    ensures
        exists|j: int| #[trigger]
            leads(found_in(body, chunk_size_bytes), j) && found_in(body, chunk_size_bytes)[j] == Some(b),
    decreases i,
{
    let found = found_in(body, chunk_size_bytes);
    let step = step_bits(chunk_size_bytes);
    let far = bit_len(body);
    lemma_found(body, chunk_size_bytes, i);
    assert(first_block(body, (i + 1) * step, far, b as int));
    assert(found[i] == Some(b));
    if exists|j: int| 0 <= j < i && #[trigger] found[j] == Some(b) {
        let j = choose|j: int| 0 <= j < i && #[trigger] found[j] == Some(b);
        lemma_found_leads(body, chunk_size_bytes, j, b);
    } else {
        assert forall|j: int| 0 <= j < i && (#[trigger] found[j]) is Some implies found[j]->Some_0 < b by {
            lemma_found(body, chunk_size_bytes, j);
            let c = found[j]->Some_0;
            assert(first_block(body, (j + 1) * step, far, c as int));
            assert((j + 1) * step <= (i + 1) * step) by (nonlinear_arith)
                requires
                    j <= i,
                    step > 0,
            ;
            if c > b {
                assert(!crate::deflate::block_finder::looks_like_block(body, b as int));
            }
        }
        assert((i + 1) * step > 0) by (nonlinear_arith)
            requires
                i >= 0,
                step > 0,
        ;
        assert(leads(found, i));
    }
}

} // verus!
