//! Byte containers of the `bytes` crate, as the library uses them.
use vstd::prelude::*;
use bytes::Buf;
use bytes::BufMut;

verus! {

/// `bytes::Bytes`, an immutable byte buffer.
#[verifier::external_type_specification]
#[verifier::external_body]
pub struct ExBytes(bytes::Bytes);

/// `bytes::BytesMut`, a growable byte buffer.
#[verifier::external_type_specification]
#[verifier::external_body]
pub struct ExBytesMut(bytes::BytesMut);

/// The bytes that a `Bytes` holds, in order.
pub uninterp spec fn bytes_contents(b: bytes::Bytes) -> Seq<u8>;

/// The bytes that a `BytesMut` holds, in order.
pub uninterp spec fn bytes_mut_contents(b: bytes::BytesMut) -> Seq<u8>;

/// Calls `Bytes::copy_from_slice`: a `Bytes` holding a copy of `data`.
#[verifier::external_body]
pub(crate) fn bytes_copy_from_slice(data: &[u8]) -> (r: bytes::Bytes)
    ensures
        bytes_contents(r) == data@,
{
    bytes::Bytes::copy_from_slice(data)
}

/// Calls `<Bytes as AsRef<[u8]>>::as_ref`: the bytes held, as a slice.
#[verifier::external_body]
pub(crate) fn bytes_as_slice(b: &bytes::Bytes) -> (r: &[u8])
    ensures
        r@ == bytes_contents(*b),
{
    b.as_ref()
}

/// Calls `BytesMut::new`: an empty buffer.
#[verifier::external_body]
pub(crate) fn bytes_mut_new() -> (r: bytes::BytesMut)
    ensures
        bytes_mut_contents(r) == Seq::<u8>::empty(),
{
    bytes::BytesMut::new()
}

/// Calls `<BytesMut as BufMut>::put_slice`: appends `data`.
#[verifier::external_body]
pub(crate) fn bytes_mut_put_slice(b: &mut bytes::BytesMut, data: &[u8])
    ensures
        bytes_mut_contents(*final(b)) == bytes_mut_contents(*old(b)) + data@,
{
    b.put_slice(data)
}

/// Calls `<BytesMut as AsRef<[u8]>>::as_ref`: the bytes held, as a slice.
#[verifier::external_body]
pub(crate) fn bytes_mut_as_slice(b: &bytes::BytesMut) -> (r: &[u8])
    ensures
        r@ == bytes_mut_contents(*b),
{
    b.as_ref()
}

/// Calls `<BytesMut as Buf>::advance`: drops the first `n` bytes. It panics
/// where `n` is more than the bytes held, which `requires` leaves out.
#[verifier::external_body]
pub(crate) fn bytes_mut_advance(b: &mut bytes::BytesMut, n: usize)
    requires
        n <= bytes_mut_contents(*old(b)).len(),
    ensures
        bytes_mut_contents(*final(b)) == bytes_mut_contents(*old(b)).skip(n as int),
{
    b.advance(n)
}

/// Calls `BytesMut::clear`: drops every byte held.
#[verifier::external_body]
pub(crate) fn bytes_mut_clear(b: &mut bytes::BytesMut)
    ensures
        bytes_mut_contents(*final(b)) == Seq::<u8>::empty(),
{
    b.clear()
}

/// `<Bytes as Clone>::clone`, which the derived `Clone` of `MooBody` calls:
/// trusted to hold the same bytes as the value cloned (the source shares the
/// same storage).
pub assume_specification[ <bytes::Bytes as Clone>::clone ](b: &bytes::Bytes) -> (r: bytes::Bytes)
    ensures
        bytes_contents(r) == bytes_contents(*b),
;

} // verus!
