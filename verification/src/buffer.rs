//! The byte buffer that frames are read from and written to: `bytes::BytesMut`.
//!
//! What this module says of the buffer is not proved: it is what the `bytes` crate
//! documents. Each item speaks of the bytes that the buffer holds, [`buffered`]. How much
//! memory the buffer has set aside is left unsaid.

use bytes::{Buf, BufMut, BytesMut};
use vstd::prelude::*;

verus! {

/// `bytes::BytesMut`, of which nothing is known but what the items below say.
#[verifier::external_type_specification]
#[verifier::external_body]
pub struct ExBytesMut(BytesMut);

/// The bytes that a buffer holds, the first to be read first.
pub uninterp spec fn buffered(buffer: BytesMut) -> Seq<u8>;

/// `BytesMut::len`: the number of bytes that the buffer holds.
pub assume_specification[ BytesMut::len ](buffer: &BytesMut) -> (len: usize)
    ensures
        len == buffered(*buffer).len(),
;

/// `BytesMut::reserve`: sets memory aside and leaves the bytes as they are. It panics where
/// the capacity would not fit.
pub assume_specification[ BytesMut::reserve ](buffer: &mut BytesMut, additional: usize)
    requires
        buffered(*old(buffer)).len() + additional <= isize::MAX,
    ensures
        buffered(*final(buffer)) == buffered(*old(buffer)),
;

/// `BytesMut::extend_from_slice`: appends the bytes of the slice. It panics where the
/// capacity would not fit.
pub assume_specification[ BytesMut::extend_from_slice ](buffer: &mut BytesMut, extend: &[u8])
    requires
        buffered(*old(buffer)).len() + extend@.len() <= isize::MAX,
    ensures
        buffered(*final(buffer)) == buffered(*old(buffer)) + extend@,
;

/// `BytesMut::as_ref`: the bytes that the buffer holds, as one slice.
#[verifier::external_body]
pub(crate) fn bytes_of(buffer: &BytesMut) -> (bytes: &[u8])
    ensures
        bytes@ == buffered(*buffer),
{
    buffer.as_ref()
}

/// `Buf::advance` of `BytesMut`: drops the first `cnt` bytes. It panics where there are
/// fewer.
#[verifier::external_body]
pub(crate) fn advance(buffer: &mut BytesMut, cnt: usize)
    requires
        cnt <= buffered(*old(buffer)).len(),
    ensures
        buffered(*final(buffer)) == buffered(*old(buffer)).skip(cnt as int),
{
    buffer.advance(cnt)
}

/// `BufMut::put_u8` of `BytesMut`: appends one byte. It panics where the capacity would not
/// fit.
#[verifier::external_body]
pub(crate) fn put_u8(buffer: &mut BytesMut, n: u8)
    requires
        buffered(*old(buffer)).len() + 1 <= isize::MAX,
    ensures
        buffered(*final(buffer)) == buffered(*old(buffer)).push(n),
{
    buffer.put_u8(n)
}

} // verus!
