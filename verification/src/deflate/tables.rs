//! The constants of DEFLATE: length and distance alphabets, and the fixed codes.
use vstd::prelude::*;

verus! {

/// Shortest match length of each length symbol, from symbol 257 on.
pub const LENGTH_BASE: [u16; 29] = [
    3, 4, 5, 6, 7, 8, 9, 10, 11, 13, 15, 17, 19, 23, 27, 31, 35, 43, 51, 59, 67, 83, 99, 115, 131, 163, 195, 227, 258,
];

/// Extra bits that follow each length symbol, from symbol 257 on.
pub const LENGTH_EXTRA: [u8; 29] = [
    0, 0, 0, 0, 0, 0, 0, 0, 1, 1, 1, 1, 2, 2, 2, 2, 3, 3, 3, 3, 4, 4, 4, 4, 5, 5, 5, 5, 0,
];

/// Smallest distance of each distance symbol.
pub const DISTANCE_BASE: [u16; 30] = [
    1, 2, 3, 4, 5, 7, 9, 13, 17, 25, 33, 49, 65, 97, 129, 193, 257, 385, 513, 769, 1025, 1537, 2049, 3073, 4097, 6145,
    8193, 12289, 16385, 24577,
];

/// Extra bits that follow each distance symbol.
pub const DISTANCE_EXTRA: [u8; 30] = [
    0, 0, 0, 0, 1, 1, 2, 2, 3, 3, 4, 4, 5, 5, 6, 6, 7, 7, 8, 8, 9, 9, 10, 10, 11, 11, 12, 12, 13, 13,
];

/// The order in which a dynamic block header gives the lengths of the precode.
pub const PRECODE_ORDER: [u8; 19] = [16, 17, 18, 0, 8, 7, 9, 6, 10, 5, 11, 4, 12, 3, 13, 2, 14, 1, 15];

/// Code lengths of the fixed literal/length code.
pub open spec fn fixed_literals() -> Seq<u8> {
    Seq::new(
        288,
        |i: int|
            if i < 144 {
                8u8
            } else if i < 256 {
                9u8
            } else if i < 280 {
                7u8
            } else {
                8u8
            },
    )
}

/// Code lengths of the fixed distance code.
pub open spec fn fixed_distances() -> Seq<u8> {
    Seq::new(32, |i: int| 5u8)
}

/// Code lengths of the fixed literal/length code.
pub fn fixed_literal_lengths() -> (r: Vec<u8>)
    ensures
        r@ == fixed_literals(),
{
    let mut r: Vec<u8> = Vec::with_capacity(288);
    let mut i: usize = 0;
    while i < 288
        invariant
            i <= 288,
            r@ =~= fixed_literals().take(i as int),
        decreases 288 - i,
    {
        if i < 144 {
            r.push(8);
        } else if i < 256 {
            r.push(9);
        } else if i < 280 {
            r.push(7);
        } else {
            r.push(8);
        }
        i = i + 1;
    }
    assert(fixed_literals().take(288) =~= fixed_literals());
    r
}

/// Code lengths of the fixed distance code.
pub fn fixed_distance_lengths() -> (r: Vec<u8>)
    ensures
        r@ == fixed_distances(),
{
    let mut r: Vec<u8> = Vec::with_capacity(32);
    let mut i: usize = 0;
    while i < 32
        invariant
            i <= 32,
            r@ =~= fixed_distances().take(i as int),
        decreases 32 - i,
    {
        r.push(5);
        i = i + 1;
    }
    assert(fixed_distances().take(32) =~= fixed_distances());
    r
}

/// The bounds of the length and distance alphabets.
pub proof fn lemma_alphabet_bounds()
    ensures
        forall|i: int| 0 <= i < 29 ==> 3 <= #[trigger] LENGTH_BASE[i] <= 258,
        forall|i: int| 0 <= i < 29 ==> #[trigger] LENGTH_EXTRA[i] <= 5,
        forall|i: int| 0 <= i < 30 ==> 1 <= #[trigger] DISTANCE_BASE[i] <= 24577,
        forall|i: int| 0 <= i < 30 ==> #[trigger] DISTANCE_EXTRA[i] <= 13,
{
}

} // verus!
