//! Trusted boundary around the `bytes` crate's `BytesMut` growable byte
//! buffer, which the decoder consumes from and the network layer fills.
use vstd::prelude::*;
use bytes::Buf;
use bytes::BytesMut;

verus! {

#[verifier::external_type_specification]
#[verifier::external_body]
pub struct ExBytesMut(BytesMut);

/// The sequence of bytes a `BytesMut` currently holds.
pub uninterp spec fn buf_bytes(b: BytesMut) -> Seq<u8>;

/// Relies on BytesMut's Deref to `[u8]`: a slice of all bytes held.
#[verifier::external_body]
pub fn buf_slice(b: &BytesMut) -> (r: &[u8])
    ensures
        r@ == buf_bytes(*b),
{
    &b[..]
}

/// Relies on bytes::Buf::advance for BytesMut: the first `n` bytes are
/// discarded and the rest kept; it panics when `n` exceeds the length,
/// which the precondition rules out.
#[verifier::external_body]
pub fn buf_advance(b: &mut BytesMut, n: usize)
    requires
        n <= buf_bytes(*old(b)).len(),
    ensures
        buf_bytes(*final(b)) == buf_bytes(*old(b)).skip(n as int),
{
    b.advance(n)
}

} // verus!
