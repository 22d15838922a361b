//! Decoding whole members with other engines.
//!
//! An engine decodes one member at a time and tells how many bytes it took.
//! What its answer means for a chunk is decided here.
use vstd::prelude::*;
use crate::deflate::DeflateError;
use crate::gzip::{le32, read_le32};

verus! {

/// What came of decoding a member inside a chunk.
#[derive(Debug, Clone, Copy, PartialEq, Eq, Structural)]
pub enum MemberOutcome {
    /// The member ends at this bit, with its last block.
    Done(u64, bool),
    /// The member ends after the chunk; nothing was kept of it.
    Straddle,
}

/// The byte at which a member starts, if it lies inside the body.
pub fn member_start(body_len: usize, start_bit: u64) -> (r: Result<usize, DeflateError>)
    requires
        start_bit % 8 == 0,
    ensures
        r == if start_bit / 8 >= body_len {
            Err::<usize, DeflateError>(DeflateError::UnexpectedEof)
        } else {
            Ok((start_bit / 8) as usize)
        },
{
    let byte_pos: u64 = start_bit / 8;
    if byte_pos >= body_len as u64 {
        return Err(DeflateError::UnexpectedEof);
    }
    Ok(byte_pos as usize)
}

/// Keeps a member that an engine decoded, unless it ends after the chunk: it
/// took `in_used` bytes from byte `byte_pos` of the body on.
pub fn commit_member(byte_pos: usize, in_used: usize, end_bit_hint: u64, decoded: &[u8], out: &mut Vec<u8>) -> (r:
    MemberOutcome)
    requires
        (byte_pos + in_used) * 8 <= u64::MAX,
    ensures
        ({
            let end = (byte_pos + in_used) * 8;
            if end > end_bit_hint {
                r == MemberOutcome::Straddle && final(out)@ == old(out)@
            } else {
                r == MemberOutcome::Done(end as u64, true) && final(out)@ == old(out)@ + decoded@
            }
        }),
{
    let new_end_bit: u64 = (byte_pos as u64 + in_used as u64) * 8;
    if new_end_bit > end_bit_hint {
        return MemberOutcome::Straddle;
    }
    out.extend_from_slice(decoded);
    assert(out@ =~= old(out)@ + decoded@);
    MemberOutcome::Done(new_end_bit, true)
}

/// How much room to make after an engine ran out of `have` bytes of it, having
/// been given `want` last: at least twice either.
pub fn more_room(have: usize, want: usize) -> (n: usize)
    ensures
        n == if have >= want {
            if have * 2 > usize::MAX { usize::MAX as int } else { have * 2 }
        } else {
            if want * 2 > usize::MAX { usize::MAX as int } else { want * 2 }
        },
{
    let most: usize = if have >= want {
        have
    } else {
        want
    };
    most.saturating_add(most)
}

/// The size that the trailer of a complete member tells; a member has at least 18 bytes.
pub fn member_isize(member: &[u8]) -> (r: Result<usize, DeflateError>)
    ensures
        if member@.len() < 18 {
            r == Err::<usize, DeflateError>(DeflateError::UnexpectedEof)
        } else {
            r is Ok && r->Ok_0 == le32(member@, member@.len() - 4)
        },
{
    if member.len() < 18 {
        return Err(DeflateError::UnexpectedEof);
    }
    Ok(read_le32(member, member.len() - 4) as usize)
}

/// Keeps what an engine decoded of a complete member; returns how many bytes that is.
pub fn keep_gzip_member(decoded: Option<Vec<u8>>, out: &mut Vec<u8>) -> (r: Result<usize, DeflateError>)
    ensures
        match decoded {
            Some(v) => r is Ok && r->Ok_0 == v@.len() && final(out)@ == old(out)@ + v@,
            None => r == Err::<usize, DeflateError>(DeflateError::Invalid("zune-inflate gzip decode failed"))
                && final(out)@ == old(out)@,
        },
{
    match decoded {
        Some(v) => {
            let n: usize = v.len();
            out.extend_from_slice(v.as_slice());
            assert(out@ =~= old(out)@ + v@);
            Ok(n)
        },
        None => Err(DeflateError::Invalid("zune-inflate gzip decode failed")),
    }
}

} // verus!
