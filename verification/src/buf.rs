//! Byte buffers of the `bytes` crate and what they hold.

use bytes::{Buf, Bytes, BytesMut};
use vstd::prelude::*;

verus! {

/// `bytes::Bytes`, a shared view of immutable bytes.
#[verifier::external_type_specification]
#[verifier::external_body]
pub struct ExBytes(bytes::Bytes);

/// `bytes::BytesMut`, a growable buffer.
#[verifier::external_type_specification]
#[verifier::external_body]
pub struct ExBytesMut(bytes::BytesMut);

/// The bytes that `b` shows.
pub uninterp spec fn shown(b: Bytes) -> Seq<u8>;

/// The bytes that have been put into `b` and not been taken out.
pub uninterp spec fn filled(b: BytesMut) -> Seq<u8>;

/// `Bytes::deref`: the bytes that are shown, in place.
#[verifier::external_body]
pub(crate) fn as_slice(b: &Bytes) -> (s: &[u8])
    ensures
        s@ == shown(*b),
{
    b
}

/// `Bytes::slice`: a view of a part of the same bytes.
#[verifier::external_body]
pub(crate) fn slice(b: &Bytes, from: usize, to: usize) -> (part: Bytes)
    requires
        from <= to <= shown(*b).len(),
    ensures
        shown(part) == shown(*b).subrange(from as int, to as int),
{
    b.slice(from..to)
}

/// `Bytes::copy_from_slice`: a copy of `data`.
#[verifier::external_body]
pub(crate) fn copied(data: &[u8]) -> (b: Bytes)
    ensures
        shown(b) == data@,
{
    Bytes::copy_from_slice(data)
}

/// `BytesMut::new`: an empty buffer.
#[verifier::external_body]
pub(crate) fn empty() -> (b: BytesMut)
    ensures
        filled(b) == Seq::<u8>::empty(),
{
    BytesMut::new()
}

/// `BytesMut::deref`: the bytes of the buffer, in place.
#[verifier::external_body]
pub(crate) fn as_filled(b: &BytesMut) -> (s: &[u8])
    ensures
        s@ == filled(*b),
{
    b
}

/// `BytesMut::extend_from_slice`: the bytes of `data` come after those that `dest` holds.
/// Running out of memory is not modelled.
#[verifier::external_body]
pub(crate) fn extend(dest: &mut BytesMut, data: &[u8])
    requires
        filled(*old(dest)).len() + data@.len() <= isize::MAX,
    ensures
        filled(*final(dest)) == filled(*old(dest)) + data@,
{
    dest.extend_from_slice(data)
}

/// `BytesMut::freeze`: the bytes of the buffer, which can no longer change.
#[verifier::external_body]
pub(crate) fn freeze(b: BytesMut) -> (frozen: Bytes)
    ensures
        shown(frozen) == filled(b),
{
    b.freeze()
}

/// `BytesMut::advance` of the trait `Buf`: the first `n` bytes are taken out.
#[verifier::external_body]
pub(crate) fn advance(b: &mut BytesMut, n: usize)
    requires
        n <= filled(*old(b)).len(),
    ensures
        filled(*final(b)) == filled(*old(b)).skip(n as int),
{
    b.advance(n)
}

} // verus!
