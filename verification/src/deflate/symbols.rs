//! Reading the symbols of a compressed block.
use vstd::prelude::*;
use vstd::arithmetic::power2::pow2;
use vstd::arithmetic::power2::lemma2_to64;
use crate::deflate::DeflateError;
use crate::deflate::bit_reader::BitReader;
use crate::deflate::bits::lemma_bits_bound;
use crate::deflate::canonical::lookup_at;
use crate::deflate::format::{Symbol, symbol_at, match_at, extra_at, copy_back, lemma_lookup_advances};
use crate::deflate::huffman::{
    HuffmanDecoder, Encoding, HUFFDEC_EXCEPTIONAL, HUFFDEC_LITERAL, entry_of, lemma_pack, lemma_pack_literal,
    lemma_pack_exceptional,
};
use crate::deflate::tables::{DISTANCE_BASE, DISTANCE_EXTRA, LENGTH_BASE, LENGTH_EXTRA, lemma_alphabet_bounds};

verus! {

/// One decoded symbol.
#[derive(Debug, Clone, Copy)]
pub enum Token {
    Literal(u8),
    EndOfBlock,
    Match { length: usize, distance: usize },
}

impl View for Token {
    type V = Symbol;

    open spec fn view(&self) -> Symbol {
        match *self {
            Token::Literal(b) => Symbol::Literal(b),
            Token::EndOfBlock => Symbol::EndOfBlock,
            Token::Match { length, distance } => Symbol::Match { length: length as int, distance: distance as int },
        }
    }
}

/// The longest match, and the farthest that one reaches back.
pub proof fn lemma_match_bounds(dist: Seq<u8>, input: Seq<u8>, p: int, li: int)
    requires
        0 <= li < 29,
    ensures
        match match_at(dist, input, p, li) {
            Ok((Symbol::Match { length, distance }, _)) => 3 <= length <= 258 && 1 <= distance <= 32768,
            Ok(_) => false,
            Err(_) => true,
        },
{
    lemma2_to64();
    lemma_alphabet_bounds();
    assert(forall|i: int| 0 <= i < 29 ==> LENGTH_BASE[i] + pow2(#[trigger] LENGTH_EXTRA[i] as nat) <= 259);
    assert(forall|i: int| 0 <= i < 30 ==> DISTANCE_BASE[i] + pow2(#[trigger] DISTANCE_EXTRA[i] as nat) <= 32769);
    lemma_bits_bound(input, p, LENGTH_EXTRA[li] as nat);
    if let Ok((_, q)) = extra_at(input, p, LENGTH_EXTRA[li]) {
        lemma_lookup_advances(dist, input, q);
        if let Ok(d) = lookup_at(dist, input, q) {
            if d < 30 {
                lemma_bits_bound(input, q + dist[d], DISTANCE_EXTRA[d] as nat);
            }
        }
    }
}

pub proof fn lemma_symbol_bounds(lit: Seq<u8>, dist: Seq<u8>, input: Seq<u8>, p: int)
    ensures
        match symbol_at(lit, dist, input, p) {
            Ok((Symbol::Match { length, distance }, _)) => 3 <= length <= 258 && 1 <= distance <= 32768,
            _ => true,
        },
{
    lemma_lookup_advances(lit, input, p);
    if let Ok(s) = lookup_at(lit, input, p) {
        if 257 <= s <= 285 {
            lemma_match_bounds(dist, input, p + lit[s], s - 257);
        }
    }
}

/// Reads the rest of a match, whose length symbol gave `entry`.
pub(crate) fn read_match(br: &mut BitReader<'_>, dist: &HuffmanDecoder, entry: u32, Ghost(s): Ghost<int>) -> (r: Result<
    (usize, usize),
    DeflateError,
>)
    requires
        old(br).wf(),
        dist.wf(),
        dist.encoding() == Encoding::Dist,
        257 <= s <= 285,
        exists|len: int| 1 <= len <= 15 && entry == #[trigger] entry_of(s, len, Encoding::LitLen),
    ensures
        final(br).wf(),
        final(br).stream() == old(br).stream(),
        match match_at(dist.lengths(), old(br).stream(), old(br).pos(), s - 257) {
            Ok((Symbol::Match { length, distance }, q)) => r is Ok && r->Ok_0.0 == length && r->Ok_0.1 == distance
                && final(br).pos() == q,
            Ok(_) => false,
            Err(e) => r == Err::<(usize, usize), DeflateError>(e),
        },
{
    proof {
        let len = choose|len: int| 1 <= len <= 15 && entry == #[trigger] entry_of(s, len, Encoding::LitLen);
        lemma_alphabet_bounds();
        lemma_pack(LENGTH_BASE[s - 257] as u32, LENGTH_EXTRA[s - 257] as u32, len as u32);
        lemma_match_bounds(dist.lengths(), br.stream(), br.pos(), s - 257);
        assert(forall|e: u32| (#[trigger] (e >> 16u32)) <= 258 ==> (e >> 16u32) & 0x1ffu32 == e >> 16u32) by (bit_vector);
    }
    let length_base: usize = ((entry >> 16) & 0x1ff) as usize;
    let len_extra: u32 = (entry >> 8) & 0x1f;
    let length_add: u32 = match br.read(len_extra) {
        Ok(v) => v,
        Err(e) => {
            return Err(e);
        },
    };
    let ghost p1 = br.pos();
    proof {
        lemma_bits_bound(br.stream(), old(br).pos(), len_extra as nat);
        lemma_lookup_advances(dist.lengths(), br.stream(), br.pos());
    }
    let dentry: u32 = match dist.lookup(br) {
        Ok(e) => e,
        Err(e) => {
            return Err(e);
        },
    };
    let ghost d = lookup_at(dist.lengths(), br.stream(), p1)->Ok_0;
    proof {
        dist.lemma_wf();
        if d < 30 {
            lemma_pack(DISTANCE_BASE[d] as u32, DISTANCE_EXTRA[d] as u32, dist.lengths()[d] as u32);
        } else {
            lemma_pack_exceptional(0, dist.lengths()[d] as u32);
        }
    }
    if dentry & HUFFDEC_EXCEPTIONAL != 0 {
        return Err(DeflateError::Invalid("distance symbol out of range"));
    }
    let dist_base: usize = (dentry >> 16) as usize;
    let dist_extra: u32 = (dentry >> 8) & 0x1f;
    let dist_add: u32 = match br.read(dist_extra) {
        Ok(v) => v,
        Err(e) => {
            return Err(e);
        },
    };
    Ok((length_base + length_add as usize, dist_base + dist_add as usize))
}

/// Reads one symbol.
pub(crate) fn read_symbol(br: &mut BitReader<'_>, lit: &HuffmanDecoder, dist: &HuffmanDecoder) -> (r: Result<
    Token,
    DeflateError,
>)
    requires
        old(br).wf(),
        lit.wf(),
        lit.encoding() == Encoding::LitLen,
        dist.wf(),
        dist.encoding() == Encoding::Dist,
    ensures
        final(br).wf(),
        final(br).stream() == old(br).stream(),
        match symbol_at(lit.lengths(), dist.lengths(), old(br).stream(), old(br).pos()) {
            Ok((sym, q)) => r is Ok && r->Ok_0@ == sym && final(br).pos() == q,
            Err(e) => r == Err::<Token, DeflateError>(e),
        },
{
    let entry: u32 = match lit.lookup(br) {
        Ok(e) => e,
        Err(e) => {
            return Err(e);
        },
    };
    let ghost s = lookup_at(lit.lengths(), old(br).stream(), old(br).pos())->Ok_0;
    proof {
        lit.lemma_wf();
        lemma_litlen_entry(s, lit.lengths()[s] as int);
    }
    if entry & HUFFDEC_LITERAL != 0 {
        return Ok(Token::Literal(((entry >> 16) & 0xff) as u8));
    }
    if entry & HUFFDEC_EXCEPTIONAL != 0 {
        if entry >> 16 == 0 {
            return Ok(Token::EndOfBlock);
        }
        return Err(DeflateError::Invalid("literal/length symbol out of range"));
    }
    match read_match(br, dist, entry, Ghost(s)) {
        Ok((length, distance)) => Ok(Token::Match { length, distance }),
        Err(e) => Err(e),
    }
}

/// How the entry of a literal/length symbol tells its kind.
pub proof fn lemma_litlen_entry(s: int, len: int)
    requires
        0 <= s < 288,
        1 <= len <= 15,
    ensures
        ({
            let e = entry_of(s, len, Encoding::LitLen) as u32;
            &&& e == entry_of(s, len, Encoding::LitLen)
            &&& (e & HUFFDEC_LITERAL != 0) == (s < 256)
            &&& s < 256 ==> (e >> 16u32) & 0xffu32 == s
            &&& s >= 256 ==> (e & HUFFDEC_EXCEPTIONAL != 0) == (s == 256 || s > 285)
            &&& s == 256 ==> e >> 16u32 == 0
            &&& s > 285 ==> e >> 16u32 != 0
        }),
{
    lemma_alphabet_bounds();
    let c = len as u32;
    if s < 256 {
        lemma_pack_literal(s as u32, c);
    } else if s == 256 {
        lemma_pack_exceptional(0, c);
    } else if s <= 285 {
        lemma_pack(LENGTH_BASE[s - 257] as u32, LENGTH_EXTRA[s - 257] as u32, c);
    } else {
        lemma_pack_exceptional(s as u32, c);
    }
}

/// Appends a match: `length` bytes, each a copy of the one `distance` before it.
pub(crate) fn append_match(out: &mut Vec<u8>, distance: usize, length: usize)
    requires
        1 <= distance <= old(out)@.len(),
    ensures
        final(out)@ == copy_back(old(out)@, distance as int, length as int),
{
    let mut n: usize = 0;
    while n < length
        invariant
            n <= length,
            1 <= distance <= out@.len(),
            copy_back(out@, distance as int, length - n) == copy_back(old(out)@, distance as int, length as int),
        decreases length - n,
    {
        let b: u8 = out[out.len() - distance];
        out.push(b);
        n = n + 1;
    }
}

} // verus!
