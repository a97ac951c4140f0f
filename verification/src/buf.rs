//! The encoder's output sink: a `bytes::BytesMut` buffer.
//!
//! The buffer itself belongs to the `bytes` crate; its contents are modelled
//! by [`buf_view`] and every operation the encoder uses is stated over that
//! model. Growing the buffer can abort on allocation or capacity
//! exhaustion, exactly as growing a `Vec` can.

use bytes::BufMut;
use vstd::prelude::*;

verus! {

#[verifier::external_type_specification]
#[verifier::external_body]
pub struct ExBytesMut(bytes::BytesMut);

/// The bytes a buffer holds, in order.
pub uninterp spec fn buf_view(b: bytes::BytesMut) -> Seq<u8>;

/// Relies on `bytes::BytesMut::new`: a newly created buffer holds no bytes.
#[verifier::external_body]
pub(crate) fn buf_new() -> (r: bytes::BytesMut)
    ensures
        buf_view(r) == Seq::<u8>::empty(),
{
    bytes::BytesMut::new()
}

/// Relies on `bytes::BufMut::put_slice` for `BytesMut`: appends the bytes
/// of `src` at the end of the buffer.
#[verifier::external_body]
pub(crate) fn buf_put_slice(b: &mut bytes::BytesMut, src: &[u8])
    ensures
        buf_view(*final(b)) == buf_view(*old(b)) + src@,
{
    b.put_slice(src);
}

/// Relies on `bytes::BufMut::put_u8` for `BytesMut`: appends one byte.
#[verifier::external_body]
pub(crate) fn buf_put_u8(b: &mut bytes::BytesMut, v: u8)
    ensures
        buf_view(*final(b)) == buf_view(*old(b)) + seq![v],
{
    b.put_u8(v);
}

/// Relies on `bytes::BytesMut::is_empty`: whether the buffer holds no bytes.
#[verifier::external_body]
pub(crate) fn buf_is_empty(b: &bytes::BytesMut) -> (r: bool)
    ensures
        r == (buf_view(*b).len() == 0),
{
    b.is_empty()
}

/// Relies on the `From<BytesMut> for Vec<u8>` impl of `bytes`: the buffer's
/// bytes, handed over as a vector.
#[verifier::external_body]
pub(crate) fn buf_into_vec(b: bytes::BytesMut) -> (r: Vec<u8>)
    ensures
        r@ == buf_view(b),
{
    Vec::from(b)
}

} // verus!
