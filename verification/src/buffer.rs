//! The byte buffer that connections read into and write from.

use bytes::Buf;
use bytes::BytesMut;
use vstd::prelude::*;

verus! {

#[verifier::external_type_specification]
#[verifier::external_body]
pub struct ExBytesMut(BytesMut);

/// The bytes that a `BytesMut` holds, from its read position to its end.
pub uninterp spec fn buffered(buf: BytesMut) -> Seq<u8>;

/// A new, empty buffer, from `BytesMut::new`.
#[verifier::external_body]
pub(crate) fn new_buffer() -> (res: BytesMut)
    ensures
        buffered(res) == Seq::<u8>::empty(),
{
    BytesMut::new()
}

/// Appends `data` with `BytesMut::extend_from_slice`, which grows the
/// buffer as needed. The bound keeps the grown buffer within what a `Vec`
/// can hold; running out of memory is not described.
#[verifier::external_body]
pub(crate) fn extend_bytes(dst: &mut BytesMut, data: &[u8])
    requires
        buffered(*old(dst)).len() + data@.len() <= isize::MAX,
    ensures
        buffered(*final(dst)) == buffered(*old(dst)) + data@,
{
    dst.extend_from_slice(data)
}

/// All buffered bytes, from `Buf::chunk`, which for `BytesMut` is the whole
/// readable slice.
#[verifier::external_body]
pub(crate) fn chunk(buf: &BytesMut) -> (res: &[u8])
    ensures
        res@ == buffered(*buf),
{
    buf.chunk()
}

/// Drops the first `n` buffered bytes with `Buf::advance`, which panics past
/// the end of the buffer.
#[verifier::external_body]
pub(crate) fn advance(buf: &mut BytesMut, n: usize)
    requires
        n <= buffered(*old(buf)).len(),
    ensures
        buffered(*final(buf)) == buffered(*old(buf)).skip(n as int),
{
    buf.advance(n)
}

} // verus!
