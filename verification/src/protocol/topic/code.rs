//! The code that names a topic.
use bytes::{Bytes, BytesMut};
use vstd::prelude::*;
use vstd::string::StringSliceAdditionalSpecFns;
use vstd::utf8::{encode_utf8, encode_utf8_valid_utf8, valid_utf8};
use crate::protocol::codec::{
    buffer_content,
    buffer_extend,
    buffer_len,
    bytes_as_slice,
    bytes_content,
    bytes_copy_from_slice,
    bytes_from_static,
    bytes_from_string,
    bytes_split_to,
    framed,
    from_be_bytes,
    str_from_utf8,
    to_be_bytes,
    unframed,
    DecodeError,
};
use crate::util::bytes_eq;

verus! {

/// The identity of a topic: an opaque string, held as its UTF-8 bytes.
///
/// Two codes are the same topic when their bytes are equal.
#[derive(Debug, Clone, PartialEq, Eq, PartialOrd, Ord, Hash)]
pub struct TopicCode(Bytes);

impl View for TopicCode {
    type V = Seq<u8>;

    closed spec fn view(&self) -> Seq<u8> {
        bytes_content(self.0)
    }
}

impl TopicCode {
    /// The code with the given text.
    pub fn new(code: &str) -> (topic: Self)
        ensures
            topic@ == code.spec_bytes(),
            valid_utf8(topic@),
    {
        proof {
            encode_utf8_valid_utf8(code@);
        }
        TopicCode(bytes_from_string(code.to_owned()))
    }

    /// The code with the given text, without copying it.
    pub fn const_new(code: &'static str) -> (topic: Self)
        ensures
            topic@ == code.spec_bytes(),
            valid_utf8(topic@),
    {
        proof {
            encode_utf8_valid_utf8(code@);
        }
        TopicCode(bytes_from_static(code.as_bytes()))
    }

    /// The code with the given bytes, if they are valid UTF-8.
    pub fn from_bytes(code: &[u8]) -> (topic: Option<Self>)
        ensures
            topic is Some <==> valid_utf8(code@),
            topic matches Some(t) ==> t@ == code@,
    {
        match str_from_utf8(code) {
            Some(_) => Some(TopicCode(bytes_copy_from_slice(code))),
            None => None,
        }
    }

    /// The bytes of the code.
    pub fn as_bytes(&self) -> (bytes: &[u8])
        ensures
            bytes@ == self@,
    {
        bytes_as_slice(&self.0)
    }

    /// A second handle to the same code.
    pub fn duplicate(&self) -> (copy: Self)
        ensures
            copy@ == self@,
    {
        TopicCode(self.0.clone())
    }

    /// True when the two codes have the same bytes.
    pub fn same_as(&self, other: &TopicCode) -> (same: bool)
        ensures
            same == (self@ == other@),
    {
        bytes_eq(self.as_bytes(), other.as_bytes())
    }

    /// Appends the wire form of the code to `buffer`: its length in four
    /// bytes, most significant first, then its bytes.
    pub fn encode(&self, buffer: &mut BytesMut)
        requires
            self@.len() <= u32::MAX,
            buffer_content(*old(buffer)).len() + 4 + self@.len() <= isize::MAX,
        ensures
            buffer_content(*final(buffer)) == buffer_content(*old(buffer)) + framed(self@),
    {
        let code = self.as_bytes();
        let len = to_be_bytes(code.len() as u32);
        buffer_extend(buffer, len.as_slice());
        buffer_extend(buffer, code);
        proof {
            assert(buffer_content(*buffer) =~= buffer_content(*old(buffer)) + framed(self@));
        }
    }

    /// True when the wire form of the code can be appended to a buffer that
    /// holds `held` bytes: the length of the code fits the four bytes of
    /// its prefix, and the buffer stays within the largest size of an
    /// allocation.
    pub open spec fn fits(self, held: nat) -> bool {
        self@.len() <= u32::MAX && held + 4 + self@.len() <= isize::MAX
    }

    /// Appends the wire form of the code to `buffer` if it fits, and says
    /// whether it did.  A code that does not fit leaves the buffer as it
    /// is.
    pub fn try_encode(&self, buffer: &mut BytesMut) -> (encoded: bool)
        ensures
            encoded == self.fits(buffer_content(*old(buffer)).len()),
            encoded ==> buffer_content(*final(buffer)) == buffer_content(*old(buffer)) + framed(self@),
            !encoded ==> buffer_content(*final(buffer)) == buffer_content(*old(buffer)),
    {
        let held = buffer_len(buffer);
        let len = self.as_bytes().len();
        let limit: usize = isize::MAX as usize;
        if len > u32::MAX as usize || held > limit || limit - held < 4 || limit - held - 4 < len {
            false
        } else {
            self.encode(buffer);
            true
        }
    }

    /// Reads a code from the head of `bytes`, and returns it with the bytes
    /// that follow it.
    ///
    /// The input has to start with a whole field, and the bytes of the field
    /// have to be valid UTF-8.
    pub fn decode(bytes: Bytes) -> (decoded: Result<(TopicCode, Bytes), DecodeError>)
        ensures
            match decoded {
                Ok((code, rest)) => unframed(bytes_content(bytes)) == Some((code@, bytes_content(rest)))
                    && valid_utf8(code@),
                Err(DecodeError::UnexpectedEnd) => unframed(bytes_content(bytes)) is None,
                Err(DecodeError::InvalidUtf8) => unframed(bytes_content(bytes)) matches Some((field, _))
                    && !valid_utf8(field),
            },
    {
        let mut rest = bytes;
        if bytes_as_slice(&rest).len() < 4 {
            return Err(DecodeError::UnexpectedEnd);
        }
        let head = bytes_split_to(&mut rest, 4);
        let len = from_be_bytes(bytes_as_slice(&head)) as usize;
        if bytes_as_slice(&rest).len() < len {
            return Err(DecodeError::UnexpectedEnd);
        }
        let field = bytes_split_to(&mut rest, len);
        proof {
            let input = bytes_content(bytes);
            assert(bytes_content(field) =~= input.subrange(4, 4 + len));
            assert(bytes_content(rest) =~= input.skip(4 + len));
        }
        match str_from_utf8(bytes_as_slice(&field)) {
            Some(_) => Ok((TopicCode(field), rest)),
            None => Err(DecodeError::InvalidUtf8),
        }
    }

    /// The text of the code, if its bytes are valid UTF-8.
    pub fn to_text(&self) -> (text: Option<String>)
        ensures
            text is Some <==> valid_utf8(self@),
            text matches Some(s) ==> encode_utf8(s@) == self@,
    {
        match str_from_utf8(self.as_bytes()) {
            Some(s) => Some(s.to_owned()),
            None => None,
        }
    }
}

} // verus!
