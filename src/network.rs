use vstd::prelude::*;

use crate::bytes::{push_u64, u64_be, u64_of_be};

verus! {

/// Largest payload a peer accepts: 10 MiB.
pub const MAX_MESSAGE_SIZE: u64 = 10_485_760;

/// Why a frame header was refused.
#[derive(Clone, Copy, Debug, PartialEq, Eq, Structural)]
pub enum FrameError {
    /// Fewer or more than eight length bytes.
    BadPrefix,
    /// The announced payload exceeds `MAX_MESSAGE_SIZE`.
    InvalidData,
}

/// Reads the payload length from an 8-byte big-endian prefix; a length above the
/// limit is refused before anything is allocated for the payload.
pub fn frame_length(prefix: &Vec<u8>) -> (r: Result<usize, FrameError>)
    ensures
        prefix@.len() != 8 ==> r == Err::<usize, FrameError>(FrameError::BadPrefix),
        prefix@.len() == 8 && u64_of_be(prefix@) > 10_485_760 ==> r == Err::<usize, FrameError>(FrameError::InvalidData),
        prefix@.len() == 8 && u64_of_be(prefix@) <= 10_485_760 ==> r == Ok::<usize, FrameError>(u64_of_be(prefix@) as usize),
{
    if prefix.len() != 8 {
        return Err(FrameError::BadPrefix);
    }
    let len = crate::bytes::read_u64(prefix, 0).unwrap();
    assert(prefix@.subrange(0, 8) =~= prefix@);
    if len > MAX_MESSAGE_SIZE {
        Err(FrameError::InvalidData)
    } else {
        Ok(len as usize)
    }
}

/// A payload preceded by its length as eight big-endian bytes.
pub fn frame(payload: &Vec<u8>) -> (r: Vec<u8>)
    ensures
        r@ == u64_be(payload@.len() as u64) + payload@,
{
    let mut out: Vec<u8> = Vec::new();
    push_u64(&mut out, payload.len() as u64);
    let mut i: usize = 0;
    while i < payload.len()
        invariant
            0 <= i <= payload@.len(),
            out@ == u64_be(payload@.len() as u64) + payload@.take(i as int),
        decreases payload@.len() - i,
    {
        out.push(payload[i]);
        assert(payload@.take(i + 1) =~= payload@.take(i as int).push(payload@[i as int]));
        i += 1;
    }
    assert(payload@.take(i as int) =~= payload@);
    out
}

/// The length prefix of a frame, read back, is the payload's length.
pub proof fn lemma_frame_length_round_trip(payload: Seq<u8>)
    requires
        payload.len() <= 10_485_760,
    ensures
        (u64_be(payload.len() as u64) + payload).subrange(0, 8) == u64_be(payload.len() as u64),
        u64_of_be(u64_be(payload.len() as u64)) == payload.len(),
{
    crate::bytes::lemma_u64_be_round_trip(payload.len() as u64);
    assert((u64_be(payload.len() as u64) + payload).subrange(0, 8) =~= u64_be(payload.len() as u64));
}

} // verus!
