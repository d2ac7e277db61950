//! Bytes on the wire.
//!
//! The first part of this module is what the library takes on trust from the
//! `bytes` crate and from `std`: each item there states, without proof, what
//! a function of theirs does.  The second part is the wire form of
//! variable-length fields: a length of four bytes, most significant byte
//! first, followed by that many bytes.
use bytes::{Bytes, BytesMut};
use vstd::prelude::*;
use vstd::string::StringSliceAdditionalSpecFns;
use vstd::utf8::{encode_utf8, valid_utf8};

verus! {

/// `bytes::Bytes`, a cheaply cloneable chunk of contiguous memory.  The
/// library sees it only through [`bytes_content`].
#[verifier::external_type_specification]
#[verifier::external_body]
pub struct ExBytes(bytes::Bytes);

/// The bytes that a `Bytes` handle gives access to, first to last.
pub uninterp spec fn bytes_content(bytes: Bytes) -> Seq<u8>;

/// `Bytes::from(String)`: the handle gives access to the bytes of the
/// string, which are its UTF-8 encoding.
#[verifier::external_body]
pub(crate) fn bytes_from_string(text: String) -> (bytes: Bytes)
    ensures
        bytes_content(bytes) == encode_utf8(text@),
{
    Bytes::from(text)
}

/// `Bytes::from_static`: the handle gives access to the bytes of the slice.
#[verifier::external_body]
pub(crate) fn bytes_from_static(data: &'static [u8]) -> (bytes: Bytes)
    ensures
        bytes_content(bytes) == data@,
{
    Bytes::from_static(data)
}

/// `Bytes::copy_from_slice`: the handle gives access to a copy of the slice.
#[verifier::external_body]
pub(crate) fn bytes_copy_from_slice(data: &[u8]) -> (bytes: Bytes)
    ensures
        bytes_content(bytes) == data@,
{
    Bytes::copy_from_slice(data)
}

/// `Deref` of `Bytes`: the slice of the bytes that the handle gives access
/// to.
#[verifier::external_body]
pub(crate) fn bytes_as_slice(bytes: &Bytes) -> (data: &[u8])
    ensures
        data@ == bytes_content(*bytes),
{
    bytes
}

/// `Clone` of `Bytes`: a second handle to the same bytes.
pub assume_specification[ <Bytes as Clone>::clone ](bytes: &Bytes) -> (copy: Bytes)
    ensures
        bytes_content(copy) == bytes_content(*bytes),
;

/// `std::str::from_utf8`: the bytes as a string slice if they are valid
/// UTF-8, and nothing if they are not.
#[verifier::external_body]
pub(crate) fn str_from_utf8(data: &[u8]) -> (text: Option<&str>)
    ensures
        text is Some <==> valid_utf8(data@),
        text matches Some(s) ==> s.spec_bytes() == data@,
{
    std::str::from_utf8(data).ok()
}

/// `bytes::BytesMut`, a growable buffer of bytes.  The library sees it only
/// through [`buffer_content`].
#[verifier::external_type_specification]
#[verifier::external_body]
pub struct ExBytesMut(bytes::BytesMut);

/// The bytes that a `BytesMut` buffer holds, first to last.
pub uninterp spec fn buffer_content(buffer: BytesMut) -> Seq<u8>;

/// `BytesMut::len`: the number of bytes that the buffer holds.
#[verifier::external_body]
pub(crate) fn buffer_len(buffer: &BytesMut) -> (len: usize)
    ensures
        len == buffer_content(*buffer).len(),
{
    buffer.len()
}

/// `BytesMut::extend_from_slice`: the bytes of the slice are appended to the
/// buffer.  The buffer must stay within the largest size of an allocation.
#[verifier::external_body]
pub(crate) fn buffer_extend(buffer: &mut BytesMut, data: &[u8])
    requires
        buffer_content(*old(buffer)).len() + data@.len() <= isize::MAX,
    ensures
        buffer_content(*final(buffer)) == buffer_content(*old(buffer)) + data@,
{
    buffer.extend_from_slice(data)
}

/// `Bytes::split_to`: the handle keeps the bytes from `at` on, and the new
/// handle gives access to the bytes before `at`.
#[verifier::external_body]
pub(crate) fn bytes_split_to(bytes: &mut Bytes, at: usize) -> (front: Bytes)
    requires
        at <= bytes_content(*old(bytes)).len(),
    ensures
        bytes_content(front) == bytes_content(*old(bytes)).take(at as int),
        bytes_content(*final(bytes)) == bytes_content(*old(bytes)).skip(at as int),
{
    bytes.split_to(at)
}

/// Why a field could not be decoded.
#[derive(Clone, Copy, Debug, PartialEq, Eq, Structural, Hash)]
pub enum DecodeError {
    /// The input ends before the field does.
    UnexpectedEnd,
    /// The bytes of a text field are not valid UTF-8.
    InvalidUtf8,
}

/// The four bytes of `n`, most significant first.
pub open spec fn be_bytes(n: u32) -> Seq<u8> {
    seq![
        (n / 0x100_0000) as u8,
        ((n / 0x1_0000) % 0x100) as u8,
        ((n / 0x100) % 0x100) as u8,
        (n % 0x100) as u8,
    ]
}

/// The number whose four bytes, most significant first, are `bytes`.
pub open spec fn be_value(bytes: Seq<u8>) -> int {
    bytes[0] * 0x100_0000 + bytes[1] * 0x1_0000 + bytes[2] * 0x100 + bytes[3]
}

/// The wire form of a field: its length in four bytes, then its bytes.
pub open spec fn framed(field: Seq<u8>) -> Seq<u8> {
    be_bytes(field.len() as u32) + field
}

/// What stands at the head of `input`, if `input` starts with a whole
/// field: the bytes of the field, and the input that follows it.
pub open spec fn unframed(input: Seq<u8>) -> Option<(Seq<u8>, Seq<u8>)> {
    if input.len() < 4 {
        None
    } else if input.len() - 4 < be_value(input.take(4)) {
        None
    } else {
        let len = be_value(input.take(4));
        Some((input.subrange(4, 4 + len), input.skip(4 + len)))
    }
}

/// Reading the four bytes of a number gives the number back.
pub proof fn lemma_be_round_trip(n: u32)
    ensures
        be_bytes(n).len() == 4,
        be_value(be_bytes(n)) == n,
{
}

/// A framed field, followed by anything, is read back as the field and what
/// follows it.
pub proof fn lemma_frame_round_trip(field: Seq<u8>, rest: Seq<u8>)
    requires
        field.len() <= u32::MAX,
    ensures
        unframed(framed(field) + rest) == Some((field, rest)),
{
    let input = framed(field) + rest;
    lemma_be_round_trip(field.len() as u32);
    assert(input.take(4) =~= be_bytes(field.len() as u32));
    assert(input.subrange(4, 4 + field.len() as int) =~= field);
    assert(input.skip(4 + field.len() as int) =~= rest);
}

/// The four bytes of `n`, most significant first.
pub fn to_be_bytes(n: u32) -> (bytes: [u8; 4])
    ensures
        bytes@ == be_bytes(n),
{
    let bytes = [
        (n / 0x100_0000) as u8,
        ((n / 0x1_0000) % 0x100) as u8,
        ((n / 0x100) % 0x100) as u8,
        (n % 0x100) as u8,
    ];
    assert(bytes@ =~= be_bytes(n));
    bytes
}

/// The number whose four bytes, most significant first, are `bytes`.
pub fn from_be_bytes(bytes: &[u8]) -> (n: u32)
    requires
        bytes@.len() == 4,
    ensures
        n == be_value(bytes@),
{
    let b0: u32 = bytes[0] as u32;
    let b1: u32 = bytes[1] as u32;
    let b2: u32 = bytes[2] as u32;
    let b3: u32 = bytes[3] as u32;
    b0 * 0x100_0000 + b1 * 0x1_0000 + b2 * 0x100 + b3
}

} // verus!
