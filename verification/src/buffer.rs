//! Trusted interface to the `bytes` crate's `BytesMut`, the growable byte
//! buffer that backs both directions of the line codec.

use vstd::prelude::*;
use bytes::BytesMut;

verus! {

#[verifier::external_type_specification]
#[verifier::external_body]
pub struct ExBytesMut(BytesMut);

/// The bytes a `BytesMut` buffer currently holds, in order.
pub uninterp spec fn buf_bytes(b: BytesMut) -> Seq<u8>;

/// Relies on `bytes::BytesMut::new`: the resulting buffer has length 0.
#[verifier::external_body]
pub(crate) fn buf_new() -> (r: BytesMut)
    ensures
        buf_bytes(r) == Seq::<u8>::empty(),
{
    BytesMut::new()
}

/// Relies on `bytes::BytesMut::len`: the number of bytes contained.
#[verifier::external_body]
pub(crate) fn buf_len(b: &BytesMut) -> (r: usize)
    ensures
        r == buf_bytes(*b).len(),
{
    b.len()
}

/// Relies on `BytesMut`'s `Deref` to `[u8]`, the contained bytes, for
/// indexing.
#[verifier::external_body]
pub(crate) fn buf_get(b: &BytesMut, i: usize) -> (r: u8)
    requires
        i < buf_bytes(*b).len(),
    ensures
        r == buf_bytes(*b)[i as int],
{
    b[i]
}

/// Relies on `bytes::BytesMut::extend_from_slice`: appends the given bytes
/// at the end of the buffer.
#[verifier::external_body]
pub(crate) fn buf_extend(b: &mut BytesMut, data: &[u8])
    ensures
        buf_bytes(*final(b)) == buf_bytes(*old(b)) + data@,
{
    b.extend_from_slice(data);
}

/// Relies on `bytes::BytesMut::split_to`: afterwards the buffer holds the
/// bytes from `at` on, and the returned buffer holds the first `at` bytes.
#[verifier::external_body]
pub(crate) fn buf_split_to(b: &mut BytesMut, at: usize) -> (r: BytesMut)
    requires
        at <= buf_bytes(*old(b)).len(),
    ensures
        buf_bytes(r) == buf_bytes(*old(b)).take(at as int),
        buf_bytes(*final(b)) == buf_bytes(*old(b)).skip(at as int),
{
    b.split_to(at)
}

} // verus!
