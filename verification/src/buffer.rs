//! The growable byte buffer that encoders write into.

use vstd::prelude::*;
use bytes::BufMut;
use bytes::BytesMut;

verus! {

/// `bytes::BytesMut`, taken as a value whose inside is not looked at.
#[verifier::external_type_specification]
#[verifier::external_body]
pub struct ExBytesMut(BytesMut);

/// The bytes that a buffer holds, first written first.
pub uninterp spec fn buf_bytes(buf: BytesMut) -> Seq<u8>;

/// `BytesMut::new`: a buffer that holds nothing.
#[verifier::external_body]
pub(crate) fn buf_new() -> (buf: BytesMut)
    ensures
        buf_bytes(buf) == Seq::<u8>::empty(),
{
    BytesMut::new()
}

/// `BytesMut::len`: the number of bytes held.
#[verifier::external_body]
pub(crate) fn buf_len(buf: &BytesMut) -> (n: usize)
    ensures
        n == buf_bytes(*buf).len(),
{
    buf.len()
}

/// `BufMut::put_u8` on a `BytesMut`: one byte is added at the end.
#[verifier::external_body]
pub(crate) fn buf_put_u8(buf: &mut BytesMut, byte: u8)
    ensures
        buf_bytes(*final(buf)) == buf_bytes(*old(buf)).push(byte),
{
    buf.put_u8(byte)
}

/// `BytesMut::extend_from_slice`: the bytes are added at the end, in order.
#[verifier::external_body]
pub(crate) fn buf_extend(buf: &mut BytesMut, bytes: &[u8])
    ensures
        buf_bytes(*final(buf)) == buf_bytes(*old(buf)) + bytes@,
{
    buf.extend_from_slice(bytes)
}

/// Writing through the index of a `BytesMut`: the byte at `at` is replaced,
/// the others stay.
#[verifier::external_body]
pub(crate) fn buf_set(buf: &mut BytesMut, at: usize, byte: u8)
    requires
        at < buf_bytes(*old(buf)).len(),
    ensures
        buf_bytes(*final(buf)) == buf_bytes(*old(buf)).update(at as int, byte),
{
    buf[at] = byte;
}

/// `to_vec` on the bytes of a `BytesMut`: a copy of what it holds.
#[verifier::external_body]
pub(crate) fn buf_to_vec(buf: &BytesMut) -> (bytes: Vec<u8>)
    ensures
        bytes@ == buf_bytes(*buf),
{
    buf.to_vec()
}

} // verus!
