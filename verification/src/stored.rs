//! Streams of stored blocks, byte for byte.
use vstd::prelude::*;
use vstd::arithmetic::power2::lemma2_to64;
use crate::agreement::joined;
use crate::deflate::DeflateError;
use crate::deflate::bits::{bit_len, bits_at, lemma_bits_byte, lemma_bits_div_mod, lemma_bits_split};
use crate::deflate::format::{Decoded, block, inflate, until};
use crate::written::{lemma_front, two_bytes};

verus! {

/// A stored block that starts a byte: one byte that tells its kind and whether it is
/// the last, its length, its length with every bit flipped, and its bytes.
pub open spec fn stored_block(data: Seq<u8>, last: bool) -> Seq<u8> {
    seq![
        if last {
            1u8
        } else {
            0u8
        },
    ] + two_bytes(data.len()) + two_bytes((65535 - data.len()) as nat) + data
}

/// Stored blocks, one for each part.
pub open spec fn stored_stream(parts: Seq<Seq<u8>>) -> Seq<u8>
    decreases parts.len(),
{
    if parts.len() == 0 {
        Seq::empty()
    } else {
        stored_block(parts[0], parts.len() == 1) + stored_stream(parts.skip(1))
    }
}

/// Sixteen bits that start a byte.
proof fn lemma_two_bytes_read(input: Seq<u8>, k: int, v: nat)
    requires
        0 <= k,
        k + 2 <= input.len(),
        v <= 65535,
        input.subrange(k, k + 2) == two_bytes(v),
    ensures
        bits_at(input, 8 * k, 16) == v,
{
    let x = input.subrange(k, k + 2);
    assert(input[k] == x[0] && input[k + 1] == x[1]);
    lemma_bits_byte(input, k);
    lemma_bits_byte(input, k + 1);
    lemma_bits_split(input, 8 * k, 8, 8);
    lemma2_to64();
}

/// The first three bits of a byte that is 0 or 1.
proof fn lemma_kind_read(input: Seq<u8>, k: int)
    requires
        0 <= k < input.len(),
        input[k] <= 1,
    ensures
        bits_at(input, 8 * k, 1) == input[k],
        bits_at(input, 8 * k + 1, 2) == 0,
{
    lemma_bits_byte(input, k);
    lemma_bits_div_mod(input, 8 * k, 1, 8);
    lemma_bits_div_mod(input, 8 * k, 3, 8);
    lemma_bits_div_mod(input, 8 * k, 1, 3);
    lemma2_to64();
}

/// A stored block is decoded to its bytes, however many there are: none, or up to
/// 65535.
pub proof fn law_stored_block(data: Seq<u8>, last: bool, input: Seq<u8>, k: int, out: Seq<u8>)
    requires
        data.len() <= 65535,
        0 <= k,
        k + 5 + data.len() <= input.len(),
        input.subrange(k, k + 5 + data.len()) == stored_block(data, last),
    ensures
        block(input, 8 * k, out) == (Decoded {
            out: out + data,
            end: Ok::<(int, bool), DeflateError>((8 * (k + 5 + data.len()), last)),
        }),
{
    let n = data.len();
    let x = stored_block(data, last);
    assert(input[k] == x[0]);
    assert(input.subrange(k + 1, k + 3) =~= two_bytes(n)) by {
        assert(input.subrange(k + 1, k + 3) =~= x.subrange(1, 3));
        assert(x.subrange(1, 3) =~= two_bytes(n));
    }
    assert(input.subrange(k + 3, k + 5) =~= two_bytes((65535 - n) as nat)) by {
        assert(input.subrange(k + 3, k + 5) =~= x.subrange(3, 5));
        assert(x.subrange(3, 5) =~= two_bytes((65535 - n) as nat));
    }
    assert(input.subrange(k + 5, k + 5 + n) =~= data) by {
        assert(input.subrange(k + 5, k + 5 + n) =~= x.subrange(5, 5 + n as int));
        assert(x.subrange(5, 5 + n as int) =~= data);
    }
    lemma_kind_read(input, k);
    lemma_two_bytes_read(input, k + 1, n);
    lemma_two_bytes_read(input, k + 3, (65535 - n) as nat);
    assert(8 * (k + 1) + 16 == 8 * (k + 3));
}

proof fn lemma_stored_from(parts: Seq<Seq<u8>>, rest: Seq<u8>, input: Seq<u8>, k: int, out: Seq<u8>)
    requires
        parts.len() > 0,
        forall|i: int| 0 <= i < parts.len() ==> (#[trigger] parts[i]).len() <= 65535,
        0 <= k <= input.len(),
        input.skip(k) == stored_stream(parts) + rest,
    ensures
        until(input, 8 * k, bit_len(input) + 1, out) == (Decoded {
            out: out + joined(parts),
            end: Ok::<(int, bool), DeflateError>((8 * (k + stored_stream(parts).len()), true)),
        }),
    decreases parts.len(),
{
    reveal(until);
    let data = parts[0];
    let last = parts.len() == 1;
    let more = parts.skip(1);
    let b = stored_block(data, last);
    assert(stored_stream(parts) + rest =~= b + (stored_stream(more) + rest));
    lemma_front(input, k, b, stored_stream(more) + rest);
    assert(b.len() == 5 + data.len());
    law_stored_block(data, last, input, k, out);
    lemma_joined_first(parts);
    if last {
        assert(joined(more) == Seq::<u8>::empty());
        assert(stored_stream(more) == Seq::<u8>::empty());
        assert(data + Seq::<u8>::empty() =~= data);
    } else {
        assert forall|i: int| 0 <= i < more.len() implies (#[trigger] more[i]).len() <= 65535 by {
            assert(more[i] == parts[i + 1]);
        }
        lemma_stored_from(more, rest, input, k + b.len(), out + data);
        assert(out + data + joined(more) =~= out + (data + joined(more)));
    }
}

proof fn lemma_joined_first(parts: Seq<Seq<u8>>)
    requires
        parts.len() > 0,
    ensures
        joined(parts) == parts[0] + joined(parts.skip(1)),
{
    assert(seq![parts[0]] + parts.skip(1) =~= parts);
    crate::agreement::lemma_joined_append(seq![parts[0]], parts.skip(1));
    let one = seq![parts[0]];
    assert(one.drop_last() =~= Seq::<Seq<u8>>::empty());
    assert(joined(one.drop_last()) == Seq::<u8>::empty());
    assert(joined(one) =~= parts[0]);
}

/// A stream of stored blocks is decoded to its parts, one after the other, however
/// the data was cut into parts: parts without a byte too.
pub proof fn law_stored_stream(parts: Seq<Seq<u8>>, rest: Seq<u8>, out: Seq<u8>)
    requires
        parts.len() > 0,
        forall|i: int| 0 <= i < parts.len() ==> (#[trigger] parts[i]).len() <= 65535,
    ensures
        inflate(stored_stream(parts) + rest, 0, out) == (Decoded {
            out: out + joined(parts),
            end: Ok::<int, DeflateError>((8 * stored_stream(parts).len()) as int),
        }),
{
    let input = stored_stream(parts) + rest;
    assert(input.skip(0) =~= input);
    lemma_stored_from(parts, rest, input, 0, out);
}

} // verus!
