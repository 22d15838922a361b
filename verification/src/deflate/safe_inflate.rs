//! The textbook decoder on a byte slice.
use vstd::prelude::*;
use crate::deflate::DeflateError;
use crate::deflate::bit_reader::{BitReader, addressable};
use crate::deflate::bits::align_up;
use crate::deflate::format::inflate as inflated;
use crate::deflate::inflate::inflate;

verus! {

/// Decodes the stream at the start of `input`. Returns how many bytes of
/// `input` it takes up.
pub fn inflate_into(input: &[u8], out: &mut Vec<u8>) -> (r: Result<usize, DeflateError>)
    requires
        addressable(input@),
    ensures
        final(out)@ == inflated(input@, 0, old(out)@).out,
        match inflated(input@, 0, old(out)@).end {
            Ok(q) => r is Ok && r->Ok_0 == align_up(q) / 8 && r->Ok_0 <= input@.len(),
            Err(e) => r == Err::<usize, DeflateError>(e),
        },
{
    let mut br = BitReader::new(input);
    match inflate(&mut br, out) {
        Ok(()) => {},
        Err(e) => {
            return Err(e);
        },
    }
    br.byte_align();
    proof {
        br.lemma_wf();
    }
    let len: usize = input.len();
    Ok((br.tell_bit() / 8) as usize)
}

} // verus!
