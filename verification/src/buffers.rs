//! The byte buffers of the `bytes` crate, as far as the audio path uses them.
use vstd::prelude::*;

verus! {

/// The `bytes` crate's shared, immutable byte buffer.
#[verifier::external_type_specification]
#[verifier::external_body]
pub struct ExBytes(bytes::Bytes);

/// The `bytes` crate's growable byte buffer.
#[verifier::external_type_specification]
#[verifier::external_body]
pub struct ExBytesMut(bytes::BytesMut);

/// The bytes that a `Bytes` holds, in order.
pub uninterp spec fn bytes_view(b: bytes::Bytes) -> Seq<u8>;

/// The bytes that a `BytesMut` holds, in order.
pub uninterp spec fn bytes_mut_view(b: bytes::BytesMut) -> Seq<u8>;

/// Calls `Bytes::copy_from_slice`, which copies the slice (`data.to_vec().into()`).
/// Trusted: the new buffer holds exactly the slice's bytes.
#[verifier::external_body]
pub(crate) fn bytes_copy_from_slice(data: &[u8]) -> (r: bytes::Bytes)
    ensures
        bytes_view(r) == data@,
{
    bytes::Bytes::copy_from_slice(data)
}

/// Calls `BytesMut::new`.  Trusted: the new buffer is empty.
#[verifier::external_body]
pub(crate) fn bytes_mut_new() -> (r: bytes::BytesMut)
    ensures
        bytes_mut_view(r) == Seq::<u8>::empty(),
{
    bytes::BytesMut::new()
}

/// Calls `BytesMut::len`.  Trusted: the result is the number of bytes held.
#[verifier::external_body]
pub(crate) fn bytes_mut_len(b: &bytes::BytesMut) -> (r: usize)
    ensures
        r == bytes_mut_view(*b).len(),
{
    b.len()
}

/// Calls `BytesMut::extend_from_slice`, which appends a copy of the slice.
/// The call panics where the new length overflows, which `requires` leaves out.
/// Trusted: the buffer afterwards holds its old bytes followed by the slice's.
#[verifier::external_body]
pub(crate) fn bytes_mut_extend(b: &mut bytes::BytesMut, extend: &[u8])
    requires
        bytes_mut_view(*old(b)).len() + extend@.len() <= isize::MAX,
    ensures
        bytes_mut_view(*final(b)) == bytes_mut_view(*old(b)) + extend@,
{
    b.extend_from_slice(extend)
}

/// Calls `BytesMut::split_to`, which panics where `at` exceeds the length
/// (left out by `requires`).  Trusted: the result holds the first `at` bytes
/// and the buffer keeps the rest.
#[verifier::external_body]
pub(crate) fn bytes_mut_split_to(b: &mut bytes::BytesMut, at: usize) -> (r: bytes::BytesMut)
    requires
        at <= bytes_mut_view(*old(b)).len(),
    ensures
        bytes_mut_view(r) == bytes_mut_view(*old(b)).take(at as int),
        bytes_mut_view(*final(b)) == bytes_mut_view(*old(b)).skip(at as int),
{
    b.split_to(at)
}

/// Reads a `BytesMut` through its `Deref` to `[u8]`.  Trusted: the slice
/// shows exactly the bytes held.
#[verifier::external_body]
pub(crate) fn bytes_mut_as_slice(b: &bytes::BytesMut) -> (r: &[u8])
    ensures
        r@ == bytes_mut_view(*b),
{
    b
}

/// Calls `Bytes::len`.  Trusted: the result is the number of bytes held.
#[verifier::external_body]
pub(crate) fn bytes_len(b: &bytes::Bytes) -> (r: usize)
    ensures
        r == bytes_view(*b).len(),
{
    b.len()
}

} // verus!
