//! Textbook decoder: symbol by symbol, with no look-ahead beyond the next code.
use vstd::prelude::*;
use crate::deflate::DeflateError;
use crate::deflate::bit_reader::BitReader;
use crate::deflate::bits::{bits_at, bit_len, lemma_bits_bound, lemma_bits_byte};
use crate::deflate::canonical::{tree_error, used, lemma_fixed_codes};
use crate::deflate::format::{
    Codes, run, block, body, until, inflate as inflated, stored_at, precode_lengths, code_lengths, dynamic_header,
    repeated, lemma_symbol_advances, lemma_lookup_advances, lemma_code_lengths_advances, lemma_block_advances,
};
use crate::deflate::huffman::{HuffmanDecoder, Encoding, count_used};
use crate::deflate::symbols::{Token, read_symbol, append_match, lemma_symbol_bounds};
use crate::deflate::tables::{
    PRECODE_ORDER, fixed_literals, fixed_distances, fixed_literal_lengths, fixed_distance_lengths,
};

verus! {

/// Reads the `n` precode lengths that a dynamic header gives.
fn read_precode(br: &mut BitReader<'_>, n: usize) -> (r: Result<Vec<u8>, DeflateError>)
    requires
        old(br).wf(),
        n <= 19,
    ensures
        final(br).wf(),
        final(br).stream() == old(br).stream(),
        old(br).remaining() < 3 * n ==> r == Err::<Vec<u8>, DeflateError>(DeflateError::UnexpectedEof),
        old(br).remaining() >= 3 * n ==> r is Ok && r->Ok_0@ == precode_lengths(
            old(br).stream(),
            old(br).pos(),
            n as int,
        ) && final(br).pos() == old(br).pos() + 3 * n,
        r is Ok ==> r->Ok_0@.len() == 19,
{
    let mut pre: Vec<u8> = Vec::with_capacity(19);
    let mut k: usize = 0;
    while k < 19
        invariant
            k <= 19,
            pre@ =~= Seq::new(k as nat, |i: int| 0u8),
        decreases 19 - k,
    {
        pre.push(0);
        k = k + 1;
    }
    let mut i: usize = 0;
    while i < n
        invariant
            i <= n <= 19,
            br.wf(),
            br.stream() == old(br).stream(),
            br.pos() == old(br).pos() + 3 * i,
            pre@.len() == 19,
            pre@ == precode_lengths(old(br).stream(), old(br).pos(), i as int),
        decreases n - i,
    {
        match br.read(3) {
            Ok(v) => {
                proof {
                    lemma_bits_bound(old(br).stream(), old(br).pos() + 3 * i, 3);
                    vstd::arithmetic::power2::lemma2_to64();
                    assert(forall|j: int| 0 <= j < 19 ==> #[trigger] PRECODE_ORDER[j] < 19);
                }
                pre.set(PRECODE_ORDER[i] as usize, v as u8);
            },
            Err(e) => {
                return Err(e);
            },
        }
        i = i + 1;
    }
    proof {
        br.lemma_wf();
    }
    Ok(pre)
}

/// Reads the code lengths of both codes of a dynamic block.
fn read_code_lengths(br: &mut BitReader<'_>, pre: &HuffmanDecoder, total: usize) -> (r: Result<Vec<u8>, DeflateError>)
    requires
        old(br).wf(),
        pre.wf(),
        pre.encoding() == Encoding::Simple,
        total <= 318,
    ensures
        final(br).wf(),
        final(br).stream() == old(br).stream(),
        match code_lengths(pre.lengths(), old(br).stream(), old(br).pos(), Seq::empty(), total as int) {
            Ok((all, q)) => r is Ok && r->Ok_0@ == all && final(br).pos() == q,
            Err(e) => r == Err::<Vec<u8>, DeflateError>(e),
        },
{
    proof {
        reveal(code_lengths);
    }
    let mut acc: Vec<u8> = Vec::with_capacity(total);
    while acc.len() < total
        invariant
            br.wf(),
            br.stream() == old(br).stream(),
            pre.wf(),
            pre.encoding() == Encoding::Simple,
            acc@.len() <= total <= 318,
            code_lengths(pre.lengths(), br.stream(), br.pos(), acc@, total as int) == code_lengths(
                pre.lengths(),
                old(br).stream(),
                old(br).pos(),
                Seq::empty(),
                total as int,
            ),
        decreases bit_len(br.stream()) - br.pos(),
    {
        proof {
            br.lemma_wf();
            pre.lemma_wf();
            reveal(code_lengths);
            lemma_lookup_advances(pre.lengths(), br.stream(), br.pos());
        }
        let ghost acc0 = acc@;
        let s: u16 = match pre.decode(br) {
            Ok(s) => s,
            Err(e) => {
                return Err(e);
            },
        };
        if s < 16 {
            acc.push(s as u8);
        } else {
            if s == 16 && acc.len() == 0 {
                return Err(DeflateError::Invalid("code length repeat without a previous length"));
            }
            let extra: u32 = if s == 16 {
                2
            } else if s == 17 {
                3
            } else {
                7
            };
            let base: usize = if s == 18 {
                11
            } else {
                3
            };
            let ghost q = br.pos();
            let add: u32 = match br.read(extra) {
                Ok(v) => v,
                Err(e) => {
                    return Err(e);
                },
            };
            proof {
                lemma_bits_bound(br.stream(), q, extra as nat);
                vstd::arithmetic::power2::lemma2_to64();
            }
            let n: usize = base + add as usize;
            if acc.len() + n > total {
                return Err(DeflateError::Invalid("code length repeat past the end"));
            }
            let value: u8 = if s == 16 {
                acc[acc.len() - 1]
            } else {
                0
            };
            let mut k: usize = 0;
            while k < n
                invariant
                    k <= n,
                    acc@ =~= acc0 + Seq::new(k as nat, |i: int| value),
                decreases n - k,
            {
                acc.push(value);
                k = k + 1;
            }
            assert(acc@ =~= acc0 + repeated(acc0, s as int, n as int));
        }
    }
    Ok(acc)
}

/// Reads the header of a dynamic block up to the code lengths of its two codes,
/// which follow one another, the first being as many as returned beside them.
fn read_header_lengths(br: &mut BitReader<'_>, strict: bool) -> (r: Result<(Vec<u8>, usize), DeflateError>)
    requires
        old(br).wf(),
    ensures
        final(br).wf(),
        final(br).stream() == old(br).stream(),
        match r {
            Ok((all, n)) => {
                let lit = all@.take(n as int);
                let dist = all@.skip(n as int);
                &&& n <= 286
                &&& n <= all@.len() <= n + 32
                &&& dynamic_header(old(br).stream(), old(br).pos(), strict) == match tree_error(lit, strict) {
                    Some(e) => Err::<Codes, DeflateError>(e),
                    None => match tree_error(dist, strict) {
                        Some(e) => Err::<Codes, DeflateError>(e),
                        None => Ok::<Codes, DeflateError>(Codes { lit, dist, at: final(br).pos() }),
                    },
                }
            },
            Err(e) => dynamic_header(old(br).stream(), old(br).pos(), strict) == Err::<Codes, DeflateError>(e),
        },
{
    proof {
        reveal(dynamic_header);
    }
    let ghost input = br.stream();
    let ghost p = br.pos();
    let hlit: u32 = match br.read(5) {
        Ok(v) => v,
        Err(e) => {
            return Err(e);
        },
    };
    let hdist: u32 = match br.read(5) {
        Ok(v) => v,
        Err(e) => {
            return Err(e);
        },
    };
    let hclen: u32 = match br.read(4) {
        Ok(v) => v,
        Err(e) => {
            return Err(e);
        },
    };
    proof {
        lemma_bits_bound(input, p, 5);
        lemma_bits_bound(input, p + 5, 5);
        lemma_bits_bound(input, p + 10, 4);
        vstd::arithmetic::power2::lemma2_to64();
    }
    let n_lit: usize = hlit as usize + 257;
    let n_dist: usize = hdist as usize + 1;
    let n_pre: usize = hclen as usize + 4;
    if n_lit > 286 {
        return Err(DeflateError::Invalid("too many literal/length codes"));
    }
    let pre_lengths: Vec<u8> = match read_precode(br, n_pre) {
        Ok(v) => v,
        Err(e) => {
            return Err(e);
        },
    };
    let built: Result<HuffmanDecoder, DeflateError> = if strict {
        HuffmanDecoder::from_lengths_strict(pre_lengths.as_slice())
    } else {
        HuffmanDecoder::from_lengths(pre_lengths.as_slice())
    };
    let pre: HuffmanDecoder = match built {
        Ok(d) => d,
        Err(e) => {
            return Err(e);
        },
    };
    proof {
        lemma_code_lengths_advances(pre.lengths(), input, br.pos(), Seq::empty(), n_lit + n_dist);
    }
    match read_code_lengths(br, &pre, n_lit + n_dist) {
        Ok(all) => Ok((all, n_lit)),
        Err(e) => Err(e),
    }
}

/// Reads the header of a dynamic block: its two codes.
pub fn read_dynamic_header(br: &mut BitReader<'_>) -> (r: Result<(HuffmanDecoder, HuffmanDecoder), DeflateError>)
    requires
        old(br).wf(),
    ensures
        final(br).wf(),
        final(br).stream() == old(br).stream(),
        match dynamic_header(old(br).stream(), old(br).pos(), false) {
            Ok(c) => {
                &&& r is Ok
                &&& r->Ok_0.0.wf() && r->Ok_0.0.encoding() == Encoding::LitLen && r->Ok_0.0.lengths() == c.lit
                &&& r->Ok_0.1.wf() && r->Ok_0.1.encoding() == Encoding::Dist && r->Ok_0.1.lengths() == c.dist
                &&& final(br).pos() == c.at
            },
            Err(e) => r == Err::<(HuffmanDecoder, HuffmanDecoder), DeflateError>(e),
        },
{
    let (all, n_lit) = match read_header_lengths(br, false) {
        Ok(v) => v,
        Err(e) => {
            return Err(e);
        },
    };
    let (lit_lengths, dist_lengths) = all.as_slice().split_at(n_lit);
    assert(lit_lengths@ =~= all@.take(n_lit as int));
    assert(dist_lengths@ =~= all@.skip(n_lit as int));
    let lit: HuffmanDecoder = match HuffmanDecoder::from_lengths_litlen(lit_lengths) {
        Ok(d) => d,
        Err(e) => {
            return Err(e);
        },
    };
    let dist: HuffmanDecoder = match HuffmanDecoder::from_lengths_dist(dist_lengths) {
        Ok(d) => d,
        Err(e) => {
            return Err(e);
        },
    };
    Ok((lit, dist))
}

/// A dynamic block header whose codes are all complete, and whose block can
/// hold something and end.
pub open spec fn plausible_header(input: Seq<u8>, p: int) -> bool {
    match dynamic_header(input, p, true) {
        Ok(c) => c.lit.len() > 256 && c.lit[256] > 0 && used(c.lit, c.lit.len() as int) >= 2,
        Err(_) => false,
    }
}

/// True if a plausible dynamic block header stands here.
pub(crate) fn verify_dynamic_header(br: &mut BitReader<'_>) -> (b: bool)
    requires
        old(br).wf(),
    ensures
        final(br).wf(),
        final(br).stream() == old(br).stream(),
        b == plausible_header(old(br).stream(), old(br).pos()),
{
    let (all, n_lit) = match read_header_lengths(br, true) {
        Ok(v) => v,
        Err(_) => {
            return false;
        },
    };
    let (lit_lengths, dist_lengths) = all.as_slice().split_at(n_lit);
    assert(lit_lengths@ =~= all@.take(n_lit as int));
    assert(dist_lengths@ =~= all@.skip(n_lit as int));
    if lit_lengths.len() <= 256 || lit_lengths[256] == 0 || count_used(lit_lengths) < 2 {
        return false;
    }
    match HuffmanDecoder::from_lengths_strict(lit_lengths) {
        Ok(_) => {},
        Err(_) => {
            return false;
        },
    }
    HuffmanDecoder::from_lengths_strict(dist_lengths).is_ok()
}

/// The decoders of the fixed codes.
pub(crate) fn fixed_decoders() -> (r: Result<(HuffmanDecoder, HuffmanDecoder), DeflateError>)
    ensures
        r is Ok,
        r->Ok_0.0.wf() && r->Ok_0.0.encoding() == Encoding::LitLen && r->Ok_0.0.lengths() == fixed_literals(),
        r->Ok_0.1.wf() && r->Ok_0.1.encoding() == Encoding::Dist && r->Ok_0.1.lengths() == fixed_distances(),
{
    proof {
        lemma_fixed_codes();
    }
    let lit: HuffmanDecoder = match HuffmanDecoder::from_lengths_litlen(fixed_literal_lengths().as_slice()) {
        Ok(d) => d,
        Err(e) => {
            return Err(e);
        },
    };
    let dist: HuffmanDecoder = match HuffmanDecoder::from_lengths_dist(fixed_distance_lengths().as_slice()) {
        Ok(d) => d,
        Err(e) => {
            return Err(e);
        },
    };
    Ok((lit, dist))
}

/// Reads the header of a stored block: how many bytes follow.
pub(crate) fn read_stored_header(br: &mut BitReader<'_>) -> (r: Result<usize, DeflateError>)
    requires
        old(br).wf(),
    ensures
        final(br).wf(),
        final(br).stream() == old(br).stream(),
        match stored_at(old(br).stream(), old(br).pos()) {
            Ok((from, len)) => r is Ok && r->Ok_0 == len && len <= 0xffff && final(br).pos() == 8 * from && from
                <= old(br).stream().len(),
            Err(e) => r == Err::<usize, DeflateError>(e),
        },
{
    br.byte_align();
    let ghost q = br.pos();
    proof {
        lemma_bits_bound(br.stream(), q, 16);
        lemma_bits_bound(br.stream(), q + 16, 16);
        vstd::arithmetic::power2::lemma2_to64();
    }
    let len: u32 = match br.read(16) {
        Ok(v) => v,
        Err(e) => {
            return Err(e);
        },
    };
    let nlen: u32 = match br.read(16) {
        Ok(v) => v,
        Err(e) => {
            return Err(e);
        },
    };
    if len + nlen != 0xffff {
        return Err(DeflateError::Invalid("stored block: LEN/NLEN mismatch"));
    }
    Ok(len as usize)
}

/// Reads a stored block after its three header bits.
pub(crate) fn decode_stored(br: &mut BitReader<'_>, out: &mut Vec<u8>) -> (r: Result<(), DeflateError>)
    requires
        old(br).wf(),
    ensures
        final(br).wf(),
        final(br).stream() == old(br).stream(),
        final(out)@ == body(old(br).stream(), old(br).pos(), 0, old(out)@).out,
        match body(old(br).stream(), old(br).pos(), 0, old(out)@).end {
            Ok(q) => r is Ok && final(br).pos() == q,
            Err(e) => r == Err::<(), DeflateError>(e),
        },
{
    let len: usize = match read_stored_header(br) {
        Ok(v) => v,
        Err(e) => {
            return Err(e);
        },
    };
    let ghost input = br.stream();
    let ghost from = br.pos() / 8;
    let mut i: usize = 0;
    while i < len
        invariant
            i <= len,
            br.wf(),
            br.stream() == input,
            0 <= from,
            from + i <= input.len(),
            br.pos() == 8 * (from + i),
            out@ =~= old(out)@ + input.subrange(from, from + i),
            input == old(br).stream(),
            stored_at(input, old(br).pos()) == Ok::<(int, int), DeflateError>((from, len as int)),
        decreases len - i,
    {
        match br.read(8) {
            Ok(v) => {
                proof {
                    lemma_bits_byte(input, from + i);
                }
                out.push(v as u8);
            },
            Err(e) => {
                assert(out@ =~= old(out)@ + input.skip(from));
                return Err(e);
            },
        }
        i = i + 1;
    }
    Ok(())
}

/// Decodes the symbols of a block, up to and with its end.
fn decode_symbols(br: &mut BitReader<'_>, lit: &HuffmanDecoder, dist: &HuffmanDecoder, out: &mut Vec<u8>) -> (r: Result<
    (),
    DeflateError,
>)
    requires
        old(br).wf(),
        lit.wf(),
        lit.encoding() == Encoding::LitLen,
        dist.wf(),
        dist.encoding() == Encoding::Dist,
    ensures
        final(br).wf(),
        final(br).stream() == old(br).stream(),
        final(out)@ == run(lit.lengths(), dist.lengths(), old(br).stream(), old(br).pos(), old(out)@).out,
        match run(lit.lengths(), dist.lengths(), old(br).stream(), old(br).pos(), old(out)@).end {
            Ok(q) => r is Ok && final(br).pos() == q,
            Err(e) => r == Err::<(), DeflateError>(e),
        },
{
    loop
        invariant
            br.wf(),
            br.stream() == old(br).stream(),
            lit.wf(),
            lit.encoding() == Encoding::LitLen,
            dist.wf(),
            dist.encoding() == Encoding::Dist,
            run(lit.lengths(), dist.lengths(), br.stream(), br.pos(), out@) == run(
                lit.lengths(),
                dist.lengths(),
                old(br).stream(),
                old(br).pos(),
                old(out)@,
            ),
        decreases bit_len(br.stream()) - br.pos(),
    {
        proof {
            reveal(run);
            lemma_symbol_advances(lit.lengths(), dist.lengths(), br.stream(), br.pos());
            lemma_symbol_bounds(lit.lengths(), dist.lengths(), br.stream(), br.pos());
        }
        match read_symbol(br, lit, dist) {
            Ok(Token::Literal(b)) => {
                out.push(b);
            },
            Ok(Token::EndOfBlock) => {
                return Ok(());
            },
            Ok(Token::Match { length, distance }) => {
                if distance > out.len() {
                    return Err(DeflateError::Invalid("back-reference distance out of bounds"));
                }
                append_match(out, distance, length);
            },
            Err(e) => {
                return Err(e);
            },
        }
    }
}

/// Decodes one block; true if it is the last.
pub fn inflate_block(br: &mut BitReader<'_>, out: &mut Vec<u8>) -> (r: Result<bool, DeflateError>)
    requires
        old(br).wf(),
    ensures
        final(br).wf(),
        final(br).stream() == old(br).stream(),
        final(out)@ == block(old(br).stream(), old(br).pos(), old(out)@).out,
        match block(old(br).stream(), old(br).pos(), old(out)@).end {
            Ok((q, last)) => r == Ok::<bool, DeflateError>(last) && final(br).pos() == q,
            Err(e) => r == Err::<bool, DeflateError>(e),
        },
{
    let (bfinal, btype) = match read_block_bits(br) {
        Ok(v) => v,
        Err(e) => {
            return Err(e);
        },
    };
    let done: Result<(), DeflateError> = match btype {
        0 => decode_stored(br, out),
        1 => match fixed_decoders() {
            Ok((lit, dist)) => decode_symbols(br, &lit, &dist, out),
            Err(e) => Err(e),
        },
        2 => match read_dynamic_header(br) {
            Ok((lit, dist)) => decode_symbols(br, &lit, &dist, out),
            Err(e) => Err(e),
        },
        _ => Err(DeflateError::Invalid("reserved block type")),
    };
    match done {
        Ok(()) => Ok(bfinal),
        Err(e) => Err(e),
    }
}

/// Reads the three header bits of a block: whether it is the last, and its type.
pub(crate) fn read_block_bits(br: &mut BitReader<'_>) -> (r: Result<(bool, u32), DeflateError>)
    requires
        old(br).wf(),
    ensures
        final(br).wf(),
        final(br).stream() == old(br).stream(),
        old(br).remaining() < 3 ==> r == Err::<(bool, u32), DeflateError>(DeflateError::UnexpectedEof),
        old(br).remaining() >= 3 ==> r is Ok && r->Ok_0.0 == (bits_at(old(br).stream(), old(br).pos(), 1) == 1)
            && r->Ok_0.1 == bits_at(old(br).stream(), old(br).pos() + 1, 2) && r->Ok_0.1 < 4 && final(br).pos()
            == old(br).pos() + 3,
{
    proof {
        lemma_bits_bound(br.stream(), br.pos(), 1);
        lemma_bits_bound(br.stream(), br.pos() + 1, 2);
        vstd::arithmetic::power2::lemma2_to64();
    }
    let bfinal: u32 = match br.read(1) {
        Ok(v) => v,
        Err(e) => {
            return Err(e);
        },
    };
    let btype: u32 = match br.read(2) {
        Ok(v) => v,
        Err(e) => {
            return Err(e);
        },
    };
    Ok((bfinal != 0, btype))
}

/// Decodes a whole stream.
pub fn inflate(br: &mut BitReader<'_>, out: &mut Vec<u8>) -> (r: Result<(), DeflateError>)
    requires
        old(br).wf(),
    ensures
        final(br).wf(),
        final(br).stream() == old(br).stream(),
        final(out)@ == inflated(old(br).stream(), old(br).pos(), old(out)@).out,
        match inflated(old(br).stream(), old(br).pos(), old(out)@).end {
            Ok(q) => r is Ok && final(br).pos() == q,
            Err(e) => r == Err::<(), DeflateError>(e),
        },
{
    let ghost hint = bit_len(br.stream()) + 1;
    loop
        invariant
            br.wf(),
            br.stream() == old(br).stream(),
            hint == bit_len(br.stream()) + 1,
            until(br.stream(), br.pos(), hint, out@) == until(
                old(br).stream(),
                old(br).pos(),
                hint,
                old(out)@,
            ),
        decreases bit_len(br.stream()) - br.pos(),
    {
        proof {
            reveal(until);
            lemma_block_advances(br.stream(), br.pos(), out@);
        }
        match inflate_block(br, out) {
            Ok(last) => {
                if last {
                    return Ok(());
                }
            },
            Err(e) => {
                return Err(e);
            },
        }
    }
}

} // verus!
