//! CRC-32, as gzip uses it.
use vstd::prelude::*;

verus! {

/// Shifts `n` bits out of a CRC register.
pub open spec fn crc32_shift(c: u32, n: nat) -> u32
    decreases n,
{
    if n == 0 {
        c
    } else {
        let d = crc32_shift(c, (n - 1) as nat);
        if d & 1u32 == 1u32 {
            (d >> 1u32) ^ 0xEDB8_8320u32
        } else {
            d >> 1u32
        }
    }
}

/// The CRC register `c` after the bytes `s`.
pub open spec fn crc32_fold(c: u32, s: Seq<u8>) -> u32
    decreases s.len(),
{
    if s.len() == 0 {
        c
    } else {
        crc32_shift(crc32_fold(c, s.drop_last()) ^ (s.last() as u32), 8)
    }
}

/// The checksum of some bytes followed by `s`, from the checksum of the former.
pub open spec fn crc32_from(prev: u32, s: Seq<u8>) -> u32 {
    crc32_fold(prev ^ 0xFFFF_FFFFu32, s) ^ 0xFFFF_FFFFu32
}

/// The CRC-32 (IEEE) checksum of `s`.
pub open spec fn crc32(s: Seq<u8>) -> u32 {
    crc32_fold(0xFFFF_FFFFu32, s) ^ 0xFFFF_FFFFu32
}

/// The checksum of `data`, by `crc32fast::hash`.
///
/// Trusted: that `crc32fast::hash` computes the CRC-32 (IEEE) checksum.
#[verifier::external_body]
pub(crate) fn crc32_hash(data: &[u8]) -> (c: u32)
    ensures
        c == crc32(data@),
{
    crc32fast::hash(data)
}

/// Continues a checksum over `data`, by a `crc32fast::Hasher` that starts from `prev`.
///
/// Trusted: that a `Hasher` made by `new_with_initial(prev)` and fed `data` by
/// `update` returns from `finalize` the CRC-32 (IEEE) checksum of whatever
/// `prev` is the checksum of, followed by `data`.
#[verifier::external_body]
pub(crate) fn crc32_continue(prev: u32, data: &[u8]) -> (c: u32)
    ensures
        c == crc32_from(prev, data@),
{
    let mut hasher = crc32fast::Hasher::new_with_initial(prev);
    hasher.update(data);
    hasher.finalize()
}

proof fn lemma_fold_append(c: u32, a: Seq<u8>, b: Seq<u8>)
    ensures
        crc32_fold(c, a + b) == crc32_fold(crc32_fold(c, a), b),
    decreases b.len(),
{
    if b.len() == 0 {
        assert(a + b =~= a);
    } else {
        assert((a + b).drop_last() =~= a + b.drop_last());
        lemma_fold_append(c, a, b.drop_last());
    }
}

/// A checksum can be computed piece by piece.
pub proof fn law_crc32_append(a: Seq<u8>, b: Seq<u8>)
    ensures
        crc32_from(crc32(a), b) == crc32(a + b),
{
    lemma_fold_append(0xFFFF_FFFFu32, a, b);
    let x = crc32_fold(0xFFFF_FFFFu32, a);
    assert((x ^ 0xFFFF_FFFFu32) ^ 0xFFFF_FFFFu32 == x) by (bit_vector);
}

/// Continuing a checksum twice is continuing it once over both pieces.
pub proof fn law_crc32_from_append(prev: u32, a: Seq<u8>, b: Seq<u8>)
    ensures
        crc32_from(crc32_from(prev, a), b) == crc32_from(prev, a + b),
{
    lemma_fold_append(prev ^ 0xFFFF_FFFFu32, a, b);
    let x = crc32_fold(prev ^ 0xFFFF_FFFFu32, a);
    assert((x ^ 0xFFFF_FFFFu32) ^ 0xFFFF_FFFFu32 == x) by (bit_vector);
}

/// The checksum of nothing.
pub proof fn lemma_crc32_empty()
    ensures
        crc32(Seq::<u8>::empty()) == 0,
{
    assert(0xFFFF_FFFFu32 ^ 0xFFFF_FFFFu32 == 0) by (bit_vector);
}

} // verus!
