//! The growable byte buffer of the `bytes` crate, as the codecs see it: a
//! sequence of bytes that can be read, cut at the front and appended to.

use vstd::prelude::*;
use bytes::BytesMut;

verus! {

/// `bytes::BytesMut`, carried through verified code as an opaque value.
#[verifier::external_type_specification]
#[verifier::external_body]
pub struct ExBytesMut(BytesMut);

/// The bytes that a `BytesMut` holds, front first.
pub uninterp spec fn buffer_contents(buf: BytesMut) -> Seq<u8>;

/// `<BytesMut as AsRef<[u8]>>::as_ref`: the held bytes as a slice, front
/// first; `buffer_contents` is exactly that slice.
#[verifier::external_body]
pub(crate) fn buffer_bytes(buf: &BytesMut) -> (bytes: &[u8])
    ensures
        bytes@ == buffer_contents(*buf),
{
    buf.as_ref()
}

/// `BytesMut::split_to(at)`: afterwards the buffer holds the bytes from
/// `at` on, and the returned buffer holds the first `at` bytes. The source
/// documents a panic for `at` beyond the length, which `requires` leaves out.
#[verifier::external_body]
pub(crate) fn buffer_split_to(buf: &mut BytesMut, at: usize) -> (head: BytesMut)
    requires
        at <= buffer_contents(*old(buf)).len(),
    ensures
        buffer_contents(head) == buffer_contents(*old(buf)).take(at as int),
        buffer_contents(*final(buf)) == buffer_contents(*old(buf)).skip(at as int),
{
    buf.split_to(at)
}

/// `BytesMut::extend_from_slice`: appends the slice at the back, growing the
/// storage first where needed. Growing adds the two lengths without a check
/// and asks the allocator for that many bytes, so `requires` keeps the sum
/// within what a single allocation may hold; whether the machine has that
/// much memory is not stated.
#[verifier::external_body]
pub(crate) fn buffer_extend(buf: &mut BytesMut, extend: &[u8])
    requires
        buffer_contents(*old(buf)).len() + extend@.len() <= isize::MAX,
    ensures
        buffer_contents(*final(buf)) == buffer_contents(*old(buf)) + extend@,
{
    buf.extend_from_slice(extend)
}

} // verus!
