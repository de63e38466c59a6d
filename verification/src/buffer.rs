//! Byte buffers of the `bytes` crate.

use bytes::{Bytes, BytesMut};
use vstd::prelude::*;

verus! {

#[verifier::external_type_specification]
#[verifier::external_body]
pub struct ExBytesMut(bytes::BytesMut);

#[verifier::external_type_specification]
#[verifier::external_body]
pub struct ExBytes(bytes::Bytes);

/// The bytes that a buffer holds.
pub uninterp spec fn held(b: BytesMut) -> Seq<u8>;

/// The bytes of a chunk.
pub uninterp spec fn content(b: Bytes) -> Seq<u8>;

/// `BytesMut::len`.
#[verifier::external_body]
pub(crate) fn buffer_len(b: &BytesMut) -> (n: usize)
    ensures
        n == held(*b).len(),
{
    b.len()
}

/// `BytesMut::as_ref`: the bytes that the buffer holds, as a slice.
#[verifier::external_body]
pub(crate) fn buffer_bytes(b: &BytesMut) -> (r: &[u8])
    ensures
        r@ == held(*b),
{
    b.as_ref()
}

/// `BytesMut::split_to`: the first `at` bytes go to the result, the rest
/// stays.
#[verifier::external_body]
pub(crate) fn buffer_split_to(b: &mut BytesMut, at: usize) -> (r: BytesMut)
    requires
        at <= held(*old(b)).len(),
    ensures
        held(r) == held(*old(b)).take(at as int),
        held(*final(b)) == held(*old(b)).skip(at as int),
{
    b.split_to(at)
}

/// `BytesMut::split_off`: the first `at` bytes stay, the rest goes to the
/// result.
#[verifier::external_body]
pub(crate) fn buffer_split_off(b: &mut BytesMut, at: usize) -> (r: BytesMut)
    requires
        at <= held(*old(b)).len(),
    ensures
        held(r) == held(*old(b)).skip(at as int),
        held(*final(b)) == held(*old(b)).take(at as int),
{
    b.split_off(at)
}

/// `BytesMut::clear`: nothing is left.
#[verifier::external_body]
pub(crate) fn buffer_clear(b: &mut BytesMut)
    ensures
        held(*final(b)).len() == 0,
{
    b.clear();
}

/// `BytesMut::freeze`: the same bytes.
#[verifier::external_body]
pub(crate) fn buffer_freeze(b: BytesMut) -> (r: Bytes)
    ensures
        content(r) == held(b),
{
    b.freeze()
}

/// `Bytes::copy_from_slice`: the same bytes.
#[verifier::external_body]
pub(crate) fn chunk_of(data: &[u8]) -> (r: Bytes)
    ensures
        content(r) == data@,
{
    Bytes::copy_from_slice(data)
}

/// `Bytes::from` on a text: its bytes in UTF-8.
#[verifier::external_body]
pub(crate) fn chunk_of_text(s: &'static str) -> (r: Bytes)
    ensures
        content(r) == vstd::utf8::encode_utf8(s@),
{
    Bytes::from(s)
}

/// `Bytes::len`.
#[verifier::external_body]
pub(crate) fn chunk_len(b: &Bytes) -> (n: usize)
    ensures
        n == content(*b).len(),
{
    b.len()
}

} // verus!
