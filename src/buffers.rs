//! Contracts for the byte buffers of the `bytes` crate that the framer and
//! the consumer queues are built on.

use vstd::prelude::*;

verus! {

#[verifier::external_type_specification]
#[verifier::external_body]
pub struct ExBytesMut(bytes::BytesMut);

#[verifier::external_type_specification]
#[verifier::external_body]
pub struct ExBytes(bytes::Bytes);


/// The bytes held by a growable buffer, front first.
pub uninterp spec fn buf_contents(b: bytes::BytesMut) -> Seq<u8>;

/// The bytes held by a frozen, shareable buffer.
pub uninterp spec fn frame_contents(b: bytes::Bytes) -> Seq<u8>;

/// Relies on `BytesMut::new`: a new buffer is empty.
pub assume_specification[ bytes::BytesMut::new ]() -> (r: bytes::BytesMut)
    ensures
        buf_contents(r) == Seq::<u8>::empty(),
;

/// Relies on `BytesMut::len`: the number of bytes held.
pub assume_specification[ bytes::BytesMut::len ](b: &bytes::BytesMut) -> (r: usize)
    ensures
        r == buf_contents(*b).len(),
;

/// Relies on `BytesMut::reserve`: only capacity changes, never the contents.
/// It panics where the new capacity overflows, which the bound leaves out.
pub assume_specification[ bytes::BytesMut::reserve ](b: &mut bytes::BytesMut, additional: usize)
    requires
        buf_contents(*old(b)).len() + additional <= isize::MAX,
    ensures
        buf_contents(*final(b)) == buf_contents(*old(b)),
;

/// Relies on `BytesMut::extend_from_slice`: the slice is appended at the back.
pub assume_specification[ bytes::BytesMut::extend_from_slice ](
    b: &mut bytes::BytesMut,
    extend: &[u8],
)
    requires
        buf_contents(*old(b)).len() + extend@.len() <= isize::MAX,
    ensures
        buf_contents(*final(b)) == buf_contents(*old(b)) + extend@,
;

/// Relies on `BytesMut::split_to`: the first `at` bytes move to the result,
/// the rest stay. It panics where `at` exceeds the length.
pub assume_specification[ bytes::BytesMut::split_to ](b: &mut bytes::BytesMut, at: usize) -> (r:
    bytes::BytesMut)
    requires
        at <= buf_contents(*old(b)).len(),
    ensures
        buf_contents(r) == buf_contents(*old(b)).take(at as int),
        buf_contents(*final(b)) == buf_contents(*old(b)).skip(at as int),
;

/// Relies on `BytesMut::advance`: the first `cnt` bytes are dropped. It
/// panics where `cnt` exceeds the length.
pub assume_specification[ bytes::BytesMut::advance ](b: &mut bytes::BytesMut, cnt: usize)
    requires
        cnt <= buf_contents(*old(b)).len(),
    ensures
        buf_contents(*final(b)) == buf_contents(*old(b)).skip(cnt as int),
;

/// Relies on `BytesMut::freeze`: the same bytes, now immutable and shareable.
pub assume_specification[ bytes::BytesMut::freeze ](b: bytes::BytesMut) -> (r: bytes::Bytes)
    ensures
        frame_contents(r) == buf_contents(b),
;

/// Relies on `Bytes::clone`: a shallow copy that shares the same bytes.
pub assume_specification[ <bytes::Bytes as Clone>::clone ](b: &bytes::Bytes) -> (r: bytes::Bytes)
    ensures
        frame_contents(r) == frame_contents(*b),
;

/// Relies on `AsRef<[u8]> for Bytes`: a view of the held bytes.
#[verifier::external_body]
pub(crate) fn frame_slice(b: &bytes::Bytes) -> (r: &[u8])
    ensures
        r@ == frame_contents(*b),
{
    b.as_ref()
}

/// Relies on `AsRef<[u8]> for BytesMut`: a view of the held bytes.
#[verifier::external_body]
pub(crate) fn buf_slice(b: &bytes::BytesMut) -> (r: &[u8])
    ensures
        r@ == buf_contents(*b),
{
    b.as_ref()
}

} // verus!
