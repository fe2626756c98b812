//! The growable byte buffer that encoded frames are appended to.
//!
//! The buffer itself comes from the `bytes` crate; Verus sees it through the
//! spec function [`buf_data`], which names the bytes it holds, and through
//! the append wrappers below, whose contracts say how those bytes change.

use vstd::prelude::*;
use bytes::BufMut;

verus! {

#[verifier::external_type_specification]
#[verifier::external_body]
pub struct ExBytesMut(bytes::BytesMut);

/// The bytes a `BytesMut` holds, oldest first.
pub uninterp spec fn buf_data(b: bytes::BytesMut) -> Seq<u8>;

/// Relies on `bytes::BufMut::put_u8` for `BytesMut`: appends the byte,
/// growing the buffer as needed.
#[verifier::external_body]
pub fn put_u8(dst: &mut bytes::BytesMut, v: u8)
    ensures
        buf_data(*final(dst)) == buf_data(*old(dst)).push(v),
{
    dst.put_u8(v);
}

/// Relies on `bytes::BufMut::put_u16` for `BytesMut`: appends the two bytes
/// of `v` in big-endian order, growing the buffer as needed.
#[verifier::external_body]
pub fn put_u16(dst: &mut bytes::BytesMut, v: u16)
    ensures
        buf_data(*final(dst)) == buf_data(*old(dst)) + crate::u16_be_bytes(v),
{
    dst.put_u16(v);
}

/// Relies on `bytes::BufMut::put_u32` for `BytesMut`: appends the four bytes
/// of `v` in big-endian order, growing the buffer as needed.
#[verifier::external_body]
pub fn put_u32(dst: &mut bytes::BytesMut, v: u32)
    ensures
        buf_data(*final(dst)) == buf_data(*old(dst)) + crate::u32_be_bytes(v),
{
    dst.put_u32(v);
}

} // verus!
