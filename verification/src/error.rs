//! What can go wrong when terms are written or read.

use crate::varint::VarintError;
use vstd::prelude::*;

verus! {

/// An error of the term codec.
#[derive(Debug)]
pub enum Error {
    /// The input ends before the term does.
    Eof,
    /// A tag byte that no term starts with, or not the one that was expected.
    InvalidTag,
    /// A length that is negative or does not fit the machine.
    InvalidLength,
    /// Text that is not UTF-8.
    InvalidUtf8,
    /// Bytes are left behind the term.
    TrailingBytes,
    /// Anything else, in words.
    Message(String),
}

/// The words for a varint that cannot be read.
pub open spec fn varint_message(e: VarintError) -> Seq<char> {
    match e {
        VarintError::Eof => "varint: unexpected end of input"@,
        VarintError::TooLong => "varint: magnitude longer than 16 bytes"@,
        VarintError::NonCanonical => "varint: not in canonical form"@,
        VarintError::OutOfRange => "varint: out of range"@,
    }
}

/// The error with the words `text`.
pub open spec fn is_message(e: Error, text: Seq<char>) -> bool {
    e matches Error::Message(s) && s@ == text
}

/// The codec error for a varint that cannot be read.
pub fn varint_error(e: VarintError) -> (out: Error)
    ensures
        is_message(out, varint_message(e)),
{
    match e {
        VarintError::Eof => Error::Message("varint: unexpected end of input".to_owned()),
        VarintError::TooLong => Error::Message("varint: magnitude longer than 16 bytes".to_owned()),
        VarintError::NonCanonical => Error::Message("varint: not in canonical form".to_owned()),
        VarintError::OutOfRange => Error::Message("varint: out of range".to_owned()),
    }
}

} // verus!
