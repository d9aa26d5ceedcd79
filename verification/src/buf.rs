//! Byte buffers shared between tasks.
use vstd::prelude::*;

verus! {

/// The shared byte buffer of the `bytes` crate.
#[verifier::external_type_specification]
#[verifier::external_body]
pub struct ExBytes(bytes::Bytes);

/// The growing byte buffer of the `bytes` crate.
#[verifier::external_type_specification]
#[verifier::external_body]
pub struct ExBytesMut(bytes::BytesMut);

/// The bytes that a shared buffer holds.
pub uninterp spec fn contents(b: bytes::Bytes) -> Seq<u8>;

/// The bytes that a growing buffer holds.
pub uninterp spec fn contents_mut(b: bytes::BytesMut) -> Seq<u8>;

/// Trusted: `Bytes::copy_from_slice` makes a buffer that holds a copy of the
/// slice.
pub assume_specification[ bytes::Bytes::copy_from_slice ](data: &[u8]) -> (r: bytes::Bytes)
    ensures
        contents(r) == data@,
;

/// Trusted: `Bytes::from` makes a buffer of a vector's bytes.
#[verifier::external_body]
pub(crate) fn bytes_of(v: Vec<u8>) -> (r: bytes::Bytes)
    ensures
        contents(r) == v@,
{
    bytes::Bytes::from(v)
}

/// Trusted: a shared buffer dereferences to the slice of its bytes.
#[verifier::external_body]
pub(crate) fn bytes_slice(b: &bytes::Bytes) -> (r: &[u8])
    ensures
        r@ == contents(*b),
{
    b
}

/// Trusted: `Bytes::clone` makes a second handle on the same bytes.
pub assume_specification[ <bytes::Bytes as Clone>::clone ](b: &bytes::Bytes) -> (r: bytes::Bytes)
    ensures
        contents(r) == contents(*b),
;

/// Trusted: `Bytes::is_empty` tells whether a buffer holds no bytes.
pub assume_specification[ bytes::Bytes::is_empty ](b: &bytes::Bytes) -> (r: bool)
    ensures
        r == (contents(*b).len() == 0),
;

/// Trusted: `Bytes::len` is the number of bytes that a buffer holds.
pub assume_specification[ bytes::Bytes::len ](b: &bytes::Bytes) -> (r: usize)
    ensures
        r == contents(*b).len(),
;

/// Trusted: `Buf::advance` on `Bytes` drops the first `count` bytes; it panics
/// if there are fewer.
#[verifier::external_body]
pub(crate) fn bytes_advance(b: &mut bytes::Bytes, count: usize)
    requires
        count <= contents(*old(b)).len(),
    ensures
        contents(*final(b)) == contents(*old(b)).skip(count as int),
{
    bytes::Buf::advance(b, count)
}

/// Trusted: `Bytes::new` makes an empty buffer.
pub assume_specification[ bytes::Bytes::new ]() -> (r: bytes::Bytes)
    ensures
        contents(r) == Seq::<u8>::empty(),
;

/// Trusted: `BytesMut::with_capacity` makes an empty buffer; the allocator
/// refuses capacities above `isize::MAX`.
pub assume_specification[ bytes::BytesMut::with_capacity ](capacity: usize) -> (r: bytes::BytesMut)
    requires
        capacity <= isize::MAX,
    ensures
        contents_mut(r) == Seq::<u8>::empty(),
;

/// Trusted: `BytesMut::extend_from_slice` appends a slice's bytes; the
/// allocator refuses buffers of more than `isize::MAX` bytes.
pub assume_specification[ bytes::BytesMut::extend_from_slice ](
    b: &mut bytes::BytesMut,
    extend: &[u8],
)
    requires
        contents_mut(*old(b)).len() + extend@.len() <= isize::MAX,
    ensures
        contents_mut(*final(b)) == contents_mut(*old(b)) + extend@,
;

/// Trusted: `BytesMut::freeze` turns a growing buffer into a shared one that
/// holds the same bytes.
pub assume_specification[ bytes::BytesMut::freeze ](b: bytes::BytesMut) -> (r: bytes::Bytes)
    ensures
        contents(r) == contents_mut(b),
;

} // verus!
