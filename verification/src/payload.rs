//! Byte strings as they come off the wire.
use bytes::Bytes;
use std::str::Utf8Error;
use vstd::prelude::*;
use vstd::utf8::{decode_utf8, valid_utf8};

verus! {

#[verifier::external_type_specification]
#[verifier::external_body]
pub struct ExBytes(bytes::Bytes);

#[verifier::external_type_specification]
#[verifier::external_body]
pub struct ExUtf8Error(std::str::Utf8Error);

/// The bytes that a `Bytes` handle refers to.
pub uninterp spec fn bytes_content(bytes: Bytes) -> Seq<u8>;

/// `Bytes::len`: the number of bytes.
#[verifier::external_body]
pub(crate) fn bytes_len(bytes: &Bytes) -> (len: usize)
    ensures
        len == bytes_content(*bytes).len(),
{
    bytes.len()
}

/// `Bytes::clone`: another handle to the same bytes. A handle is taken for what
/// it refers to, so that it and its clone are the same value.
#[verifier::external_body]
pub(crate) fn bytes_clone(bytes: &Bytes) -> (copy: Bytes)
    ensures
        copy == *bytes,
        bytes_content(copy) == bytes_content(*bytes),
{
    bytes.clone()
}

/// `Bytes::deref`: the bytes as a slice.
#[verifier::external_body]
pub(crate) fn bytes_slice(bytes: &Bytes) -> (slice: &[u8])
    ensures
        slice@ == bytes_content(*bytes),
{
    bytes
}

/// The error for bytes that are not UTF-8. It says up to where they are.
pub uninterp spec fn utf8_failure(bytes: Seq<u8>) -> Utf8Error;

/// `std::str::from_utf8`: the text that the bytes encode, or an error exactly
/// where they are not UTF-8. The error depends on the bytes alone.
#[verifier::external_body]
pub(crate) fn utf8_text(bytes: &[u8]) -> (text: Result<&str, Utf8Error>)
    ensures
        text is Ok <==> valid_utf8(bytes@),
        text matches Ok(text) ==> text@ == decode_utf8(bytes@),
        text matches Err(error) ==> error == utf8_failure(bytes@),
{
    std::str::from_utf8(bytes)
}

} // verus!
