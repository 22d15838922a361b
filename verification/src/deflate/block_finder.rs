//! Finding block boundaries in the middle of a stream.
use vstd::prelude::*;
use crate::deflate::bit_reader::{BitReader, addressable};
use crate::deflate::bits::{bits_at, bit_len, lemma_bits_bound};
use crate::deflate::inflate::{plausible_header, read_block_bits, verify_dynamic_header};

verus! {

/// The bits at `p` look like a dynamic block that is not the last one: its
/// header can be read, and all its codes are complete; it has a code for its end
/// and one for something else.
pub open spec fn looks_like_block(input: Seq<u8>, p: int) -> bool {
    &&& bit_len(input) - p >= 3
    &&& bits_at(input, p, 1) == 0
    &&& bits_at(input, p + 1, 2) == 2
    &&& plausible_header(input, p + 3)
}

/// `b` is the first bit from `from` up to `end` at which a block seems to start.
pub open spec fn first_block(input: Seq<u8>, from: int, end: int, b: int) -> bool {
    &&& from <= b < end
    &&& looks_like_block(input, b)
    &&& forall|p: int| from <= p < b ==> !looks_like_block(input, p)
}

/// The first bit from `from` up to `end` at which a block seems to start, if any.
pub open spec fn next_block(input: Seq<u8>, from: int, end: int) -> Option<int> {
    if exists|b: int| first_block(input, from, end, b) {
        Some(choose|b: int| first_block(input, from, end, b))
    } else {
        None
    }
}

pub proof fn lemma_next_block(input: Seq<u8>, from: int, end: int, b: int)
    requires
        first_block(input, from, end, b),
    ensures
        next_block(input, from, end) == Some(b),
{
    let c = choose|c: int| first_block(input, from, end, c);
    if c < b {
        assert(!looks_like_block(input, c));
    } else if b < c {
        assert(!looks_like_block(input, b));
    }
}

/// The first bit from `from_bit` up to `end_bit` at which a dynamic block seems
/// to start. It may be a false one.
pub fn find_next_dynamic_block(input: &[u8], from_bit: u64, end_bit: u64) -> (r: Option<u64>)
    requires
        addressable(input@),
    ensures
        match r {
            Some(b) => first_block(input@, from_bit as int, end_bit as int, b as int) && next_block(
                input@,
                from_bit as int,
                end_bit as int,
            ) == Some(b as int),
            None => (forall|p: int| from_bit <= p < end_bit ==> !looks_like_block(input@, p)) && next_block(
                input@,
                from_bit as int,
                end_bit as int,
            ) is None,
        },
{
    let mut br = BitReader::new(input);
    let mut p: u64 = from_bit;
    while p < end_bit
        invariant
            br.wf(),
            br.stream() == input@,
            from_bit <= p,
            p <= end_bit || p == from_bit,
            forall|q: int| from_bit <= q < p ==> !looks_like_block(input@, q),
        decreases end_bit - p,
    {
        match br.seek_to_bit(p) {
            Ok(()) => {},
            Err(_) => {
                assert(forall|q: int| p <= q ==> !looks_like_block(input@, q));
                return None;
            },
        }
        match read_block_bits(&mut br) {
            Ok((bfinal, btype)) => {
                proof {
                    lemma_bits_bound(input@, p as int, 1);
                    vstd::arithmetic::power2::lemma2_to64();
                }
                if !bfinal && btype == 2 && verify_dynamic_header(&mut br) {
                    proof {
                        lemma_next_block(input@, from_bit as int, end_bit as int, p as int);
                    }
                    return Some(p);
                }
            },
            Err(_) => {
                assert(forall|q: int| p <= q ==> !looks_like_block(input@, q));
                return None;
            },
        }
        p = p + 1;
    }
    None
}

} // verus!
