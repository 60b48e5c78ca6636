//! The endless stream of random data by which a client measures its bandwidth.
use vstd::prelude::*;

use bytes::Bytes;

verus! {

/// How many bytes of the stream are made at a time.
pub const SPEEDTEST_CHUNK: usize = 65536;

/// `bytes::Bytes`, a piece of memory that can be handed on without copying it.
#[verifier::external_type_specification]
#[verifier::external_body]
pub struct ExBytes(bytes::Bytes);

/// The bytes that a `bytes::Bytes` holds.
pub uninterp spec fn bytes_content(b: bytes::Bytes) -> Seq<u8>;

/// `bytes::Bytes::copy_from_slice` makes a piece of memory that holds the bytes of the slice.
pub assume_specification[ bytes::Bytes::copy_from_slice ](data: &[u8]) -> (r: bytes::Bytes)
    ensures
        bytes_content(r) == data@,
;

/// `fastrand::fill` overwrites the bytes of the slice with random ones. Of the bytes themselves
/// nothing can be said; there are as many as before.
pub assume_specification[ fastrand::fill ](slice: &mut [u8])
    ensures
        final(slice)@.len() == old(slice)@.len(),
;

/// The room in which the stream is made.
pub fn speedtest_buffer() -> (buffer: Vec<u8>)
    ensures
        buffer@ == Seq::new(SPEEDTEST_CHUNK as nat, |i: int| 0u8),
        buffer@.len() == 64 * 1024,
{
    let buffer: Vec<u8> = vec![0u8; SPEEDTEST_CHUNK];
    proof {
        assert(buffer@ =~= Seq::new(SPEEDTEST_CHUNK as nat, |i: int| 0u8));
    }
    buffer
}

/// Lets `fill` overwrite all of the buffer, once.
fn overwrite(fill: impl Fn(&mut [u8]), buffer: &mut Vec<u8>)
    requires
        forall|slice: &mut [u8]| call_requires(fill, (slice,)),
    ensures
        exists|slice: &mut [u8]| #[trigger]
            call_ensures(fill, (slice,), ()) && slice@ == old(buffer)@ && final(slice)@
                == final(buffer)@,
{
    fill(buffer.as_mut_slice());
}

/// The next piece of the stream: as many random bytes as there is room for, drawn anew. They are
/// also what is left in the room: all of it is what one call of `fastrand::fill` on the whole
/// room has left there.
pub fn speedtest_chunk(buffer: &mut Vec<u8>) -> (chunk: Bytes)
    ensures
        final(buffer)@.len() == old(buffer)@.len(),
        bytes_content(chunk) == final(buffer)@,
        exists|slice: &mut [u8]| #[trigger]
            call_ensures(fastrand::fill, (slice,), ()) && slice@ == old(buffer)@ && final(slice)@
                == bytes_content(chunk),
{
    overwrite(fastrand::fill, buffer);
    Bytes::copy_from_slice(buffer.as_slice())
}

} // verus!
