//! Byte buffers shared between keys and values.
//!
//! Keys and values are held as `bytes::Bytes`. A `Bytes` value is described
//! by `bytes_view`, the sequence of bytes that it holds.

use bytes::Bytes;
use vstd::prelude::*;

verus! {

#[verifier::external_type_specification]
#[verifier::external_body]
pub struct ExBytes(Bytes);

/// The bytes that a `Bytes` buffer holds.
pub uninterp spec fn bytes_view(b: Bytes) -> Seq<u8>;

/// `Bytes::copy_from_slice`: a new buffer that holds a copy of `data`.
#[verifier::external_body]
pub(crate) fn bytes_copy(data: &[u8]) -> (b: Bytes)
    ensures
        bytes_view(b) == data@,
{
    Bytes::copy_from_slice(data)
}

/// `Bytes::from(Vec<u8>)`: a buffer that takes over the vector's bytes.
#[verifier::external_body]
pub(crate) fn bytes_from_vec(v: Vec<u8>) -> (b: Bytes)
    ensures
        bytes_view(b) == v@,
{
    Bytes::from(v)
}

/// `<Bytes as AsRef<[u8]>>::as_ref`: the bytes of the buffer as a slice.
#[verifier::external_body]
pub(crate) fn bytes_slice(b: &Bytes) -> (s: &[u8])
    ensures
        s@ == bytes_view(*b),
{
    b.as_ref()
}

/// `<Bytes as Clone>::clone`: another handle on the same bytes.
#[verifier::external_body]
pub(crate) fn bytes_clone(b: &Bytes) -> (c: Bytes)
    ensures
        bytes_view(c) == bytes_view(*b),
{
    b.clone()
}

} // verus!

verus! {

#[verifier::external_type_specification]
#[verifier::external_body]
pub struct ExBytesMut(bytes::BytesMut);

/// The bytes written so far into a `BytesMut` buffer.
pub uninterp spec fn bytes_mut_view(b: bytes::BytesMut) -> Seq<u8>;

/// Big-endian bytes of a 32-bit integer.
pub open spec fn be32(n: u32) -> Seq<u8> {
    seq![(n >> 24u32) as u8, (n >> 16u32) as u8, (n >> 8u32) as u8, n as u8]
}

/// Big-endian bytes of a 64-bit integer.
pub open spec fn be64(n: u64) -> Seq<u8> {
    seq![
        (n >> 56u64) as u8,
        (n >> 48u64) as u8,
        (n >> 40u64) as u8,
        (n >> 32u64) as u8,
        (n >> 24u64) as u8,
        (n >> 16u64) as u8,
        (n >> 8u64) as u8,
        n as u8,
    ]
}

/// `BytesMut::new`: an empty buffer.
#[verifier::external_body]
pub(crate) fn bytes_mut_new() -> (b: bytes::BytesMut)
    ensures
        bytes_mut_view(b) == Seq::<u8>::empty(),
{
    bytes::BytesMut::new()
}

/// `BufMut::put_u8` on `BytesMut`: appends one byte. It panics once the
/// buffer would exceed `isize::MAX` bytes, which `requires` rules out.
#[verifier::external_body]
pub(crate) fn bytes_mut_put_u8(buf: &mut bytes::BytesMut, n: u8)
    requires
        bytes_mut_view(*old(buf)).len() + 1 <= isize::MAX,
    ensures
        bytes_mut_view(*final(buf)) == bytes_mut_view(*old(buf)).push(n),
{
    bytes::BufMut::put_u8(buf, n)
}

/// `BufMut::put_u32` on `BytesMut`: appends the integer in big-endian order.
#[verifier::external_body]
pub(crate) fn bytes_mut_put_u32(buf: &mut bytes::BytesMut, n: u32)
    requires
        bytes_mut_view(*old(buf)).len() + 4 <= isize::MAX,
    ensures
        bytes_mut_view(*final(buf)) == bytes_mut_view(*old(buf)) + be32(n),
{
    bytes::BufMut::put_u32(buf, n)
}

/// `BufMut::put_u64` on `BytesMut`: appends the integer in big-endian order.
#[verifier::external_body]
pub(crate) fn bytes_mut_put_u64(buf: &mut bytes::BytesMut, n: u64)
    requires
        bytes_mut_view(*old(buf)).len() + 8 <= isize::MAX,
    ensures
        bytes_mut_view(*final(buf)) == bytes_mut_view(*old(buf)) + be64(n),
{
    bytes::BufMut::put_u64(buf, n)
}

/// `BufMut::put` on `BytesMut` with a byte slice as source: appends all of it.
#[verifier::external_body]
pub(crate) fn bytes_mut_put(buf: &mut bytes::BytesMut, src: &[u8])
    requires
        bytes_mut_view(*old(buf)).len() + src@.len() <= isize::MAX,
    ensures
        bytes_mut_view(*final(buf)) == bytes_mut_view(*old(buf)) + src@,
{
    bytes::BufMut::put(buf, src)
}

/// `<[u8]>::to_vec` on the contents of a `BytesMut`: a vector of the same bytes.
#[verifier::external_body]
pub(crate) fn bytes_mut_to_vec(buf: &bytes::BytesMut) -> (v: Vec<u8>)
    ensures
        v@ == bytes_mut_view(*buf),
{
    buf.to_vec()
}

} // verus!
