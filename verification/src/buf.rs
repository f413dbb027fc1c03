use vstd::prelude::*;

verus! {

#[verifier::external_type_specification]
#[verifier::external_body]
pub struct ExBytes(bytes::Bytes);

#[verifier::external_type_specification]
#[verifier::external_body]
pub struct ExBytesMut(bytes::BytesMut);

/// The bytes a `bytes::Bytes` buffer holds.
pub uninterp spec fn bytes_view(b: bytes::Bytes) -> Seq<u8>;

/// The bytes a `bytes::BytesMut` buffer holds.
pub uninterp spec fn bytes_mut_view(b: bytes::BytesMut) -> Seq<u8>;

/// Relies on `bytes::Bytes::copy_from_slice`: the new buffer holds a copy of
/// the slice.
#[verifier::external_body]
pub fn bytes_copy_from_slice(src: &[u8]) -> (r: bytes::Bytes)
    ensures
        bytes_view(r) == src@,
{
    bytes::Bytes::copy_from_slice(src)
}

/// Relies on `<bytes::Bytes as AsRef<[u8]>>::as_ref`: the slice of the
/// buffer's contents.
#[verifier::external_body]
pub fn bytes_as_slice(b: &bytes::Bytes) -> (r: &[u8])
    ensures
        r@ == bytes_view(*b),
{
    b.as_ref()
}

/// Relies on `<bytes::BytesMut as From<&[u8]>>::from`: the new buffer holds
/// a copy of the slice.
#[verifier::external_body]
pub fn bytes_mut_from_slice(src: &[u8]) -> (r: bytes::BytesMut)
    ensures
        bytes_mut_view(r) == src@,
{
    bytes::BytesMut::from(src)
}

/// Relies on `<bytes::BytesMut as AsRef<[u8]>>::as_ref`: the slice of the
/// buffer's contents.
#[verifier::external_body]
pub fn bytes_mut_as_slice(b: &bytes::BytesMut) -> (r: &[u8])
    ensures
        r@ == bytes_mut_view(*b),
{
    b.as_ref()
}

} // verus!
