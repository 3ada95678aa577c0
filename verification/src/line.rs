//! A codec that cuts a byte stream into text lines, each ending with a
//! carriage return.

use vstd::prelude::*;
use vstd::utf8::{decode_utf8, valid_utf8};
use bytes::BytesMut;
use std::str::Utf8Error;
use crate::buffer::{buffer_bytes, buffer_contents, buffer_split_to};
use crate::slcan::{after_next_line, find_cr, next_line};

verus! {

/// `std::str::Utf8Error`, carried through verified code as an opaque value.
#[verifier::external_type_specification]
#[verifier::external_body]
pub struct ExUtf8Error(Utf8Error);

/// `std::str::from_utf8`: `Ok` exactly when the bytes are valid UTF-8, and
/// then the text that they encode.
#[verifier::external_body]
fn str_from_utf8(bytes: &[u8]) -> (text: Result<&str, Utf8Error>)
    ensures
        text is Ok <==> valid_utf8(bytes@),
        text matches Ok(s) ==> s@ == decode_utf8(bytes@),
{
    std::str::from_utf8(bytes)
}

/// What the line codecs refuse.
#[derive(Debug)]
pub enum CodecError {
    /// A line that is not valid UTF-8.
    InvalidString,
}

/// The codec that turns a byte stream into text lines.
pub struct LineCodec;

impl LineCodec {
    /// Takes the first complete line off the front of `src`, carriage return
    /// included, and gives it as text. Without a carriage return in `src`
    /// nothing is taken and the result is `Ok(None)`; a line that is not
    /// valid UTF-8 is taken off all the same and gives `InvalidString`.
    pub fn decode(&mut self, src: &mut BytesMut) -> (line: Result<Option<String>, CodecError>)
        ensures
            buffer_contents(*final(src)) == after_next_line(buffer_contents(*old(src))),
            match next_line(buffer_contents(*old(src))) {
                Some(l) => if valid_utf8(l) {
                    line matches Ok(Some(s)) && s@ == decode_utf8(l)
                } else {
                    line matches Err(CodecError::InvalidString)
                },
                None => line matches Ok(None),
            },
    {
        let newline = find_cr(buffer_bytes(src));
        if let Some(n) = newline {
            let line = buffer_split_to(src, n + 1);
            return match str_from_utf8(buffer_bytes(&line)) {
                Ok(s) => Ok(Some(s.to_string())),
                Err(_) => Err(CodecError::InvalidString),
            };
        }
        Ok(None)
    }
}

} // verus!
