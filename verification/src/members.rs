//! Checking gzip members against their trailers as their bytes come by.
use vstd::prelude::*;
use crate::checksum::{crc32, crc32_from, crc32_continue, law_crc32_append};
use crate::gzip::GzipError;
use crate::pipeline::MemberBoundary;

verus! {

/// The checksum of the current member so far, its size modulo 2^64, and its
/// number modulo 2^32.
#[derive(Debug, Clone, Copy, PartialEq, Eq, Structural)]
pub struct MemberTally {
    pub crc: u32,
    pub uncompressed: u64,
    pub index: u32,
}

/// The tally after `piece`.
pub open spec fn tally_add(t: MemberTally, piece: Seq<u8>) -> MemberTally {
    MemberTally {
        crc: crc32_from(t.crc, piece),
        uncompressed: ((t.uncompressed + piece.len()) % 0x1_0000_0000_0000_0000) as u64,
        index: t.index,
    }
}

/// Holds a finished member against its trailer. On success: the tally of the next.
pub open spec fn tally_end(t: MemberTally, mb: MemberBoundary) -> Result<MemberTally, GzipError> {
    if t.crc != mb.crc_expected {
        Err(
            GzipError::CrcMismatch {
                expected: mb.crc_expected,
                got: t.crc,
                member: t.index,
                uncompressed: t.uncompressed,
                trailer_byte: mb.trailer_input_byte,
            },
        )
    } else if t.uncompressed % 0x1_0000_0000 != mb.isize_expected {
        Err(
            GzipError::IsizeMismatch {
                expected: mb.isize_expected,
                got: t.uncompressed,
                member: t.index,
                trailer_byte: mb.trailer_input_byte,
            },
        )
    } else {
        Ok(MemberTally { crc: 0, uncompressed: 0, index: ((t.index + 1) % 0x1_0000_0000) as u32 })
    }
}

/// The tally after the first `n` boundaries of a chunk.
pub open spec fn tally_bounds(t: MemberTally, bytes: Seq<u8>, bounds: Seq<MemberBoundary>, n: int) -> Result<
    MemberTally,
    GzipError,
>
    decreases n,
{
    if n <= 0 {
        Ok(t)
    } else {
        match tally_bounds(t, bytes, bounds, n - 1) {
            Err(e) => Err(e),
            Ok(u) => tally_end(
                tally_add(u, bytes.subrange(cut_before(bounds, n - 1), bounds[n - 1].byte_offset_in_chunk as int)),
                bounds[n - 1],
            ),
        }
    }
}

/// Where the piece before boundary `i` starts.
pub open spec fn cut_before(bounds: Seq<MemberBoundary>, i: int) -> int {
    if i <= 0 {
        0
    } else {
        bounds[i - 1].byte_offset_in_chunk as int
    }
}

/// The tally after a chunk whose members end at `bounds`.
pub open spec fn tally_chunk(t: MemberTally, bytes: Seq<u8>, bounds: Seq<MemberBoundary>) -> Result<
    MemberTally,
    GzipError,
> {
    match tally_bounds(t, bytes, bounds, bounds.len() as int) {
        Err(e) => Err(e),
        Ok(u) => Ok(tally_add(u, bytes.skip(cut_before(bounds, bounds.len() as int)))),
    }
}

/// Boundaries that stand in ascending order inside `len` bytes.
pub open spec fn bounds_in_order(bounds: Seq<MemberBoundary>, len: nat) -> bool {
    &&& forall|i: int| 0 <= i < bounds.len() ==> (#[trigger] bounds[i]).byte_offset_in_chunk <= len
    &&& forall|i: int, j: int|
        0 <= i <= j < bounds.len() ==> (#[trigger] bounds[i]).byte_offset_in_chunk <= (
        #[trigger] bounds[j]).byte_offset_in_chunk
}

impl MemberTally {
    /// The tally at the start of the first member.
    pub fn new() -> (t: MemberTally)
        ensures
            t == (MemberTally { crc: 0, uncompressed: 0, index: 0 }),
    {
        MemberTally { crc: 0, uncompressed: 0, index: 0 }
    }

    /// Adds bytes of the current member.
    pub fn update(&mut self, piece: &[u8])
        ensures
            *final(self) == tally_add(*old(self), piece@),
    {
        self.crc = crc32_continue(self.crc, piece);
        self.uncompressed = self.uncompressed.wrapping_add(piece.len() as u64);
    }

    /// Ends the current member and holds it against its trailer.
    pub fn finish_member(&mut self, mb: &MemberBoundary) -> (r: Result<(), GzipError>)
        ensures
            match tally_end(*old(self), *mb) {
                Ok(t) => r is Ok && *final(self) == t,
                Err(e) => r == Err::<(), GzipError>(e),
            },
    {
        if self.crc != mb.crc_expected {
            return Err(
                GzipError::CrcMismatch {
                    expected: mb.crc_expected,
                    got: self.crc,
                    member: self.index,
                    uncompressed: self.uncompressed,
                    trailer_byte: mb.trailer_input_byte,
                },
            );
        }
        if self.uncompressed % 0x1_0000_0000 != mb.isize_expected as u64 {
            return Err(
                GzipError::IsizeMismatch {
                    expected: mb.isize_expected,
                    got: self.uncompressed,
                    member: self.index,
                    trailer_byte: mb.trailer_input_byte,
                },
            );
        }
        self.crc = 0;
        self.uncompressed = 0;
        self.index = self.index.wrapping_add(1);
        Ok(())
    }

    /// Adds a chunk and checks every member that ends in it.
    pub fn check_chunk(&mut self, bytes: &[u8], bounds: &[MemberBoundary]) -> (r: Result<(), GzipError>)
        requires
            bounds_in_order(bounds@, bytes@.len()),
        ensures
            match tally_chunk(*old(self), bytes@, bounds@) {
                Ok(t) => r is Ok && *final(self) == t,
                Err(e) => r == Err::<(), GzipError>(e),
            },
    {
        let mut cursor: usize = 0;
        let mut i: usize = 0;
        let len: usize = bytes.len();
        while i < bounds.len()
            invariant
                i <= bounds@.len(),
                len == bytes@.len(),
                bounds_in_order(bounds@, bytes@.len()),
                cursor == cut_before(bounds@, i as int),
                cursor <= len,
                tally_bounds(*old(self), bytes@, bounds@, i as int) == Ok::<MemberTally, GzipError>(*self),
            decreases bounds@.len() - i,
        {
            let mb: MemberBoundary = bounds[i];
            assert(i > 0 ==> bounds@[i - 1].byte_offset_in_chunk <= bounds@[i as int].byte_offset_in_chunk);
            let piece: &[u8] = vstd::slice::slice_subrange(bytes, cursor, mb.byte_offset_in_chunk);
            self.update(piece);
            match self.finish_member(&mb) {
                Ok(()) => {},
                Err(e) => {
                    proof {
                        lemma_tally_stops(*old(self), bytes@, bounds@, i + 1, bounds@.len() as int);
                    }
                    return Err(e);
                },
            }
            cursor = mb.byte_offset_in_chunk;
            i = i + 1;
        }
        let tail: &[u8] = vstd::slice::slice_subrange(bytes, cursor, len);
        assert(tail@ =~= bytes@.skip(cursor as int));
        self.update(tail);
        Ok(())
    }
}

pub proof fn lemma_tally_stops(t: MemberTally, bytes: Seq<u8>, bounds: Seq<MemberBoundary>, i: int, n: int)
    requires
        0 <= i <= n,
        tally_bounds(t, bytes, bounds, i) is Err,
    ensures
        tally_bounds(t, bytes, bounds, n) == tally_bounds(t, bytes, bounds, i),
    decreases n - i,
{
    if i < n {
        lemma_tally_stops(t, bytes, bounds, i, n - 1);
    }
}

/// The tally of a member of which `m` has come by.
pub open spec fn tally_of(m: Seq<u8>, index: u32) -> MemberTally {
    MemberTally { crc: crc32(m), uncompressed: (m.len() % 0x1_0000_0000_0000_0000) as u64, index }
}

/// A tally knows the checksum and the size of all that came by.
pub proof fn law_tally_append(m: Seq<u8>, piece: Seq<u8>, index: u32)
    ensures
        tally_add(tally_of(m, index), piece) == tally_of(m + piece, index),
{
    law_crc32_append(m, piece);
}

} // verus!
