//! What a DEFLATE stream decodes to (RFC 1951), as spec functions.
//!
//! A stream is a sequence of blocks, a compressed block a sequence of symbols.
//! Decoding appends to a history of bytes, from which matches copy. It yields
//! what was decoded and how it ended, so that a failure is described as
//! exactly as a success.
use vstd::prelude::*;
use crate::deflate::DeflateError;
use crate::deflate::bits::{bits_at, bit_len, align_up, lemma_bits_bound};
use crate::deflate::canonical::{lookup_at, code_matches, tree_error};
use crate::deflate::tables::{
    DISTANCE_BASE, DISTANCE_EXTRA, LENGTH_BASE, LENGTH_EXTRA, PRECODE_ORDER, fixed_literals, fixed_distances,
};

verus! {

/// One symbol of a compressed block.
pub enum Symbol {
    Literal(u8),
    EndOfBlock,
    Match { length: int, distance: int },
}

/// The bytes decoded so far, and how decoding ended.
pub struct Decoded<T, E> {
    pub out: Seq<T>,
    pub end: Result<E, DeflateError>,
}

/// The farthest that a match reaches back.
pub const WINDOW: usize = 32768;

/// Extra bits: their value, and the position after them.
pub open spec fn extra_at(input: Seq<u8>, p: int, n: u8) -> Result<(nat, int), DeflateError> {
    if bit_len(input) - p < n {
        Err(DeflateError::UnexpectedEof)
    } else {
        Ok((bits_at(input, p, n as nat), p + n))
    }
}

/// The rest of a match whose length symbol is number `li` of the length
/// alphabet and ends at `p`.
pub open spec fn match_at(dist: Seq<u8>, input: Seq<u8>, p: int, li: int) -> Result<(Symbol, int), DeflateError> {
    match extra_at(input, p, LENGTH_EXTRA[li]) {
        Err(e) => Err(e),
        Ok((len_extra, q)) => match lookup_at(dist, input, q) {
            Err(e) => Err(e),
            Ok(d) => if d >= 30 {
                Err(DeflateError::Invalid("distance symbol out of range"))
            } else {
                match extra_at(input, q + dist[d], DISTANCE_EXTRA[d]) {
                    Err(e) => Err(e),
                    Ok((dist_extra, r)) => Ok(
                        (
                            Symbol::Match {
                                length: LENGTH_BASE[li] + len_extra,
                                distance: DISTANCE_BASE[d] + dist_extra,
                            },
                            r,
                        ),
                    ),
                }
            },
        },
    }
}

/// The symbol at `p` and the position after it.
pub open spec fn symbol_at(lit: Seq<u8>, dist: Seq<u8>, input: Seq<u8>, p: int) -> Result<
    (Symbol, int),
    DeflateError,
> {
    match lookup_at(lit, input, p) {
        Err(e) => Err(e),
        Ok(s) => if s < 256 {
            Ok((Symbol::Literal(s as u8), p + lit[s]))
        } else if s == 256 {
            Ok((Symbol::EndOfBlock, p + lit[s]))
        } else if s > 285 {
            Err(DeflateError::Invalid("literal/length symbol out of range"))
        } else {
            match_at(dist, input, p + lit[s], s - 257)
        },
    }
}

/// Appends `n` bytes, each a copy of the one `distance` before it.
pub open spec fn copy_back(out: Seq<u8>, distance: int, n: int) -> Seq<u8>
    decreases n,
{
    if n <= 0 {
        out
    } else {
        copy_back(out.push(out[out.len() - distance]), distance, n - 1)
    }
}

/// Decodes symbols from `p` on, up to the end of the block.
#[verifier::opaque]
pub open spec fn run(lit: Seq<u8>, dist: Seq<u8>, input: Seq<u8>, p: int, out: Seq<u8>) -> Decoded<u8, int>
    decreases bit_len(input) - p,
{
    proof {
        lemma_symbol_advances(lit, dist, input, p);
    }
    match symbol_at(lit, dist, input, p) {
        Err(e) => Decoded { out, end: Err(e) },
        Ok((Symbol::EndOfBlock, q)) => Decoded { out, end: Ok(q) },
        Ok((Symbol::Literal(b), q)) => run(lit, dist, input, q, out.push(b)),
        Ok((Symbol::Match { length, distance }, q)) => if distance > out.len() {
            Decoded { out, end: Err(DeflateError::Invalid("back-reference distance out of bounds")) }
        } else {
            run(lit, dist, input, q, copy_back(out, distance, length))
        },
    }
}

pub proof fn lemma_lookup_advances(lengths: Seq<u8>, input: Seq<u8>, p: int)
    ensures
        match lookup_at(lengths, input, p) {
            Ok(s) => 0 <= s < lengths.len() && 1 <= lengths[s] <= 15 && p + lengths[s] <= bit_len(input)
                && code_matches(lengths, s, input, p),
            Err(_) => true,
        },
{
}

pub proof fn lemma_symbol_advances(lit: Seq<u8>, dist: Seq<u8>, input: Seq<u8>, p: int)
    ensures
        match symbol_at(lit, dist, input, p) {
            Ok((_, q)) => p < q <= bit_len(input),
            Err(_) => true,
        },
{
    lemma_lookup_advances(lit, input, p);
    if let Ok(s) = lookup_at(lit, input, p) {
        if 257 <= s <= 285 {
            let p2 = p + lit[s];
            if let Ok((_, q)) = extra_at(input, p2, LENGTH_EXTRA[s - 257]) {
                lemma_lookup_advances(dist, input, q);
            }
        }
    }
}

/// Where a stored block's bytes stand: the first byte, and how many.
pub open spec fn stored_at(input: Seq<u8>, p: int) -> Result<(int, int), DeflateError> {
    let q = align_up(p);
    if bit_len(input) - q < 32 {
        Err(DeflateError::UnexpectedEof)
    } else if bits_at(input, q, 16) + bits_at(input, q + 16, 16) != 0xffff {
        Err(DeflateError::Invalid("stored block: LEN/NLEN mismatch"))
    } else {
        Ok((q / 8 + 4, bits_at(input, q, 16) as int))
    }
}

/// The lengths of the precode, `n` of which the header gives from `p` on.
pub open spec fn precode_lengths(input: Seq<u8>, p: int, n: int) -> Seq<u8>
    decreases n,
{
    if n <= 0 {
        Seq::new(19, |i: int| 0u8)
    } else {
        precode_lengths(input, p, n - 1).update(
            PRECODE_ORDER[n - 1] as int,
            bits_at(input, p + 3 * (n - 1), 3) as u8,
        )
    }
}

/// Reads code lengths from `p` on until there are `total` of them.
#[verifier::opaque]
pub open spec fn code_lengths(pre: Seq<u8>, input: Seq<u8>, p: int, acc: Seq<u8>, total: int) -> Result<
    (Seq<u8>, int),
    DeflateError,
>
    decreases bit_len(input) - p,
{
    proof {
        lemma_lookup_advances(pre, input, p);
    }
    if acc.len() >= total {
        Ok((acc, p))
    } else {
        match lookup_at(pre, input, p) {
            Err(e) => Err(e),
            Ok(s) => {
                let q = p + pre[s];
                if s < 16 {
                    code_lengths(pre, input, q, acc.push(s as u8), total)
                } else if s == 16 && acc.len() == 0 {
                    Err(DeflateError::Invalid("code length repeat without a previous length"))
                } else {
                    match extra_at(input, q, repeat_extra(s)) {
                        Err(e) => Err(e),
                        Ok((extra, r)) => {
                            let n = repeat_base(s) + extra;
                            if acc.len() + n > total {
                                Err(DeflateError::Invalid("code length repeat past the end"))
                            } else {
                                code_lengths(pre, input, r, acc + repeated(acc, s, n), total)
                            }
                        },
                    }
                }
            },
        }
    }
}

/// Extra bits of the precode symbols that repeat a length.
pub open spec fn repeat_extra(s: int) -> u8 {
    if s == 16 {
        2
    } else if s == 17 {
        3
    } else {
        7
    }
}

/// Fewest repeats of the precode symbols that repeat a length.
pub open spec fn repeat_base(s: int) -> int {
    if s == 18 {
        11
    } else {
        3
    }
}

/// What a repeat symbol appends: the previous length, or zeros.
pub open spec fn repeated(acc: Seq<u8>, s: int, n: int) -> Seq<u8> {
    Seq::new(
        n as nat,
        |i: int|
            if s == 16 {
                acc.last()
            } else {
                0u8
            },
    )
}

/// The two codes of a block, and where its symbols start.
pub struct Codes {
    pub lit: Seq<u8>,
    pub dist: Seq<u8>,
    pub at: int,
}

/// The header of a block with codes of its own; `strict` asks that these be complete.
#[verifier::opaque]
pub open spec fn dynamic_header(input: Seq<u8>, p: int, strict: bool) -> Result<Codes, DeflateError> {
    if bit_len(input) - p < 14 {
        Err(DeflateError::UnexpectedEof)
    } else {
        let hlit = bits_at(input, p, 5) + 257;
        let hdist = bits_at(input, p + 5, 5) + 1;
        let hclen = bits_at(input, p + 10, 4) + 4;
        if hlit > 286 {
            Err(DeflateError::Invalid("too many literal/length codes"))
        } else if bit_len(input) - p < 14 + 3 * hclen {
            Err(DeflateError::UnexpectedEof)
        } else {
            let pre = precode_lengths(input, p + 14, hclen as int);
            match tree_error(pre, strict) {
                Some(e) => Err(e),
                None => match code_lengths(pre, input, p + 14 + 3 * hclen, Seq::empty(), (hlit + hdist) as int) {
                    Err(e) => Err(e),
                    Ok((all, q)) => {
                        let lit = all.take(hlit as int);
                        let dist = all.skip(hlit as int);
                        match tree_error(lit, strict) {
                            Some(e) => Err(e),
                            None => match tree_error(dist, strict) {
                                Some(e) => Err(e),
                                None => Ok(Codes { lit, dist, at: q }),
                            },
                        }
                    },
                },
            }
        }
    }
}

/// What follows the three header bits of a block.
pub enum Body {
    /// Bytes as they are.
    Stored { from: int, len: int },
    /// Symbols in two prefix codes.
    Compressed(Codes),
}

/// The body of a block of type `btype` whose header bits end at `p`.
pub open spec fn body_at(input: Seq<u8>, p: int, btype: nat) -> Result<Body, DeflateError> {
    if btype == 0 {
        match stored_at(input, p) {
            Err(e) => Err(e),
            Ok((from, len)) => Ok(Body::Stored { from, len }),
        }
    } else if btype == 1 {
        Ok(Body::Compressed(Codes { lit: fixed_literals(), dist: fixed_distances(), at: p }))
    } else if btype == 2 {
        match dynamic_header(input, p, false) {
            Err(e) => Err(e),
            Ok(c) => Ok(Body::Compressed(c)),
        }
    } else {
        Err(DeflateError::Invalid("reserved block type"))
    }
}

/// The end of a stored block: the position after its bytes, if they are all there.
pub open spec fn stored_end(input: Seq<u8>, from: int, len: int) -> Result<int, DeflateError> {
    if from + len <= input.len() {
        Ok(8 * (from + len))
    } else {
        Err(DeflateError::UnexpectedEof)
    }
}

/// The bytes of a stored block that are there.
pub open spec fn stored_bytes(input: Seq<u8>, from: int, len: int) -> Seq<u8> {
    if from + len <= input.len() {
        input.subrange(from, from + len)
    } else {
        input.skip(from)
    }
}

/// Decodes the body of a block.
pub open spec fn body(input: Seq<u8>, p: int, btype: nat, out: Seq<u8>) -> Decoded<u8, int> {
    match body_at(input, p, btype) {
        Err(e) => Decoded { out, end: Err(e) },
        Ok(Body::Stored { from, len }) => Decoded {
            out: out + stored_bytes(input, from, len),
            end: stored_end(input, from, len),
        },
        Ok(Body::Compressed(c)) => run(c.lit, c.dist, input, c.at, out),
    }
}

/// Decodes the block at `p`. On success: the position after it, and whether it is the last.
pub open spec fn block(input: Seq<u8>, p: int, out: Seq<u8>) -> Decoded<u8, (int, bool)> {
    if bit_len(input) - p < 3 {
        Decoded { out, end: Err(DeflateError::UnexpectedEof) }
    } else {
        let d = body(input, p + 3, bits_at(input, p + 1, 2), out);
        Decoded {
            out: d.out,
            end: match d.end {
                Err(e) => Err(e),
                Ok(q) => Ok((q, bits_at(input, p, 1) == 1)),
            },
        }
    }
}

/// Decodes blocks from `p` on, up to the last one or to the first that ends at
/// or after bit `hint`.
#[verifier::opaque]
pub open spec fn until(input: Seq<u8>, p: int, hint: int, out: Seq<u8>) -> Decoded<u8, (int, bool)>
    decreases bit_len(input) - p,
{
    proof {
        lemma_block_advances(input, p, out);
    }
    let b = block(input, p, out);
    match b.end {
        Err(e) => b,
        Ok((q, last)) => if last || q >= hint {
            b
        } else {
            until(input, q, hint, b.out)
        },
    }
}

/// Decodes the whole stream that starts at `p`. On success: the position after it.
pub open spec fn inflate(input: Seq<u8>, p: int, out: Seq<u8>) -> Decoded<u8, int> {
    let d = until(input, p, bit_len(input) + 1, out);
    Decoded {
        out: d.out,
        end: match d.end {
            Err(e) => Err(e),
            Ok((q, _)) => Ok(q),
        },
    }
}

pub proof fn lemma_run_advances(lit: Seq<u8>, dist: Seq<u8>, input: Seq<u8>, p: int, out: Seq<u8>)
    ensures
        match run(lit, dist, input, p, out).end {
            Ok(q) => p < q <= bit_len(input),
            Err(_) => true,
        },
    decreases bit_len(input) - p,
{
    reveal(run);
    lemma_symbol_advances(lit, dist, input, p);
    match symbol_at(lit, dist, input, p) {
        Ok((Symbol::Literal(b), q)) => {
            lemma_run_advances(lit, dist, input, q, out.push(b));
        },
        Ok((Symbol::Match { length, distance }, q)) => {
            if distance <= out.len() {
                lemma_run_advances(lit, dist, input, q, copy_back(out, distance, length));
            }
        },
        _ => {},
    }
}

pub proof fn lemma_code_lengths_advances(pre: Seq<u8>, input: Seq<u8>, p: int, acc: Seq<u8>, total: int)
    requires
        acc.len() <= total,
    ensures
        match code_lengths(pre, input, p, acc, total) {
            Ok((all, q)) => p <= q && (p <= bit_len(input) ==> q <= bit_len(input)) && all.len() == total,
            Err(_) => true,
        },
    decreases bit_len(input) - p,
{
    reveal(code_lengths);
    lemma_lookup_advances(pre, input, p);
    if acc.len() < total {
        if let Ok(s) = lookup_at(pre, input, p) {
            let q = p + pre[s];
            if s < 16 {
                lemma_code_lengths_advances(pre, input, q, acc.push(s as u8), total);
            } else if !(s == 16 && acc.len() == 0) {
                if let Ok((extra, r)) = extra_at(input, q, repeat_extra(s)) {
                    let n = repeat_base(s) + extra;
                    if acc.len() + n <= total {
                        lemma_code_lengths_advances(pre, input, r, acc + repeated(acc, s, n), total);
                    }
                }
            }
        }
    }
}

pub proof fn lemma_dynamic_header_advances(input: Seq<u8>, p: int, strict: bool)
    ensures
        match dynamic_header(input, p, strict) {
            Ok(c) => p <= c.at <= bit_len(input) && c.lit.len() <= 286 && c.dist.len() <= 32,
            Err(_) => true,
        },
{
    reveal(dynamic_header);
    if bit_len(input) - p >= 14 {
        lemma_bits_bound(input, p, 5);
        lemma_bits_bound(input, p + 5, 5);
        vstd::arithmetic::power2::lemma2_to64();
        let hlit = bits_at(input, p, 5) + 257;
        let hdist = bits_at(input, p + 5, 5) + 1;
        let hclen = bits_at(input, p + 10, 4) + 4;
        if bit_len(input) - p >= 14 + 3 * hclen {
            let pre = precode_lengths(input, p + 14, hclen as int);
            lemma_code_lengths_advances(pre, input, p + 14 + 3 * hclen, Seq::empty(), (hlit + hdist) as int);
        }
    }
}

pub proof fn lemma_block_advances(input: Seq<u8>, p: int, out: Seq<u8>)
    ensures
        match block(input, p, out).end {
            Ok((q, _)) => p < q <= bit_len(input),
            Err(_) => true,
        },
{
    if bit_len(input) - p >= 3 {
        lemma_dynamic_header_advances(input, p + 3, false);
        match body_at(input, p + 3, bits_at(input, p + 1, 2)) {
            Ok(Body::Compressed(c)) => {
                lemma_run_advances(c.lit, c.dist, input, c.at, out);
            },
            _ => {},
        }
    }
}

/// Decoding blocks is decoding the first one and then the others.
pub proof fn lemma_until_step(input: Seq<u8>, p: int, hint: int, out: Seq<u8>)
    ensures
        ({
            let b = block(input, p, out);
            match b.end {
                Err(e) => until(input, p, hint, out) == b,
                Ok((q, last)) => until(input, p, hint, out) == if last || q >= hint {
                    b
                } else {
                    until(input, q, hint, b.out)
                },
            }
        }),
{
    reveal(until);
}

pub proof fn lemma_until_advances(input: Seq<u8>, p: int, hint: int, out: Seq<u8>)
    ensures
        match until(input, p, hint, out).end {
            Ok((q, last)) => p < q <= bit_len(input) && (last || q >= hint),
            Err(_) => true,
        },
    decreases bit_len(input) - p,
{
    reveal(until);
    lemma_block_advances(input, p, out);
    let b = block(input, p, out);
    if let Ok((q, last)) = b.end {
        if !(last || q >= hint) {
            lemma_until_advances(input, q, hint, b.out);
        }
    }
}

/// `a` begins with `b`.
pub open spec fn extends<T>(a: Seq<T>, b: Seq<T>) -> bool {
    a.len() >= b.len() && a.take(b.len() as int) == b
}

pub proof fn lemma_extends_trans<T>(a: Seq<T>, b: Seq<T>, c: Seq<T>)
    requires
        extends(a, b),
        extends(b, c),
    ensures
        extends(a, c),
{
    assert(a.take(c.len() as int) =~= a.take(b.len() as int).take(c.len() as int));
}

pub proof fn lemma_extends_append<T>(a: Seq<T>, b: Seq<T>)
    ensures
        extends(a + b, a),
        extends(a, a),
{
    assert((a + b).take(a.len() as int) =~= a);
    assert(a.take(a.len() as int) =~= a);
}

pub proof fn lemma_copy_back_extends(out: Seq<u8>, distance: int, n: int)
    ensures
        extends(copy_back(out, distance, n), out),
    decreases n,
{
    lemma_extends_append(out, Seq::empty());
    if n > 0 {
        let o1 = out.push(out[out.len() - distance]);
        lemma_copy_back_extends(o1, distance, n - 1);
        assert(o1.take(out.len() as int) =~= out);
        lemma_extends_trans(copy_back(out, distance, n), o1, out);
    }
}

pub proof fn lemma_run_extends(lit: Seq<u8>, dist: Seq<u8>, input: Seq<u8>, p: int, out: Seq<u8>)
    ensures
        extends(run(lit, dist, input, p, out).out, out),
    decreases bit_len(input) - p,
{
    reveal(run);
    lemma_symbol_advances(lit, dist, input, p);
    lemma_extends_append(out, Seq::empty());
    let r = run(lit, dist, input, p, out).out;
    match symbol_at(lit, dist, input, p) {
        Ok((Symbol::Literal(b), q)) => {
            lemma_run_extends(lit, dist, input, q, out.push(b));
            assert(out.push(b).take(out.len() as int) =~= out);
            lemma_extends_trans(r, out.push(b), out);
        },
        Ok((Symbol::Match { length, distance }, q)) => {
            if distance <= out.len() {
                let o1 = copy_back(out, distance, length);
                lemma_run_extends(lit, dist, input, q, o1);
                lemma_copy_back_extends(out, distance, length);
                lemma_extends_trans(r, o1, out);
            }
        },
        _ => {},
    }
}

pub proof fn lemma_block_extends(input: Seq<u8>, p: int, out: Seq<u8>)
    ensures
        extends(block(input, p, out).out, out),
{
    lemma_extends_append(out, Seq::empty());
    if bit_len(input) - p >= 3 {
        match body_at(input, p + 3, bits_at(input, p + 1, 2)) {
            Ok(Body::Stored { from, len }) => {
                lemma_extends_append(out, stored_bytes(input, from, len));
            },
            Ok(Body::Compressed(c)) => {
                lemma_run_extends(c.lit, c.dist, input, c.at, out);
            },
            _ => {},
        }
    }
}

/// Decoding only appends, whether it succeeds or fails.
pub proof fn law_decoding_appends(input: Seq<u8>, p: int, hint: int, out: Seq<u8>)
    ensures
        extends(until(input, p, hint, out).out, out),
    decreases bit_len(input) - p,
{
    reveal(until);
    lemma_block_advances(input, p, out);
    lemma_block_extends(input, p, out);
    let b = block(input, p, out);
    if let Ok((q, last)) = b.end {
        if !(last || q >= hint) {
            law_decoding_appends(input, q, hint, b.out);
            lemma_extends_trans(until(input, p, hint, out).out, b.out, out);
        }
    }
}

} // verus!
