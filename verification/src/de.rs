//! Reading terms from bytes.

use crate::error::{is_message, varint_error, varint_message, Error};
use crate::varint::{decode_varint, varint_at, VarintError};
use vstd::prelude::*;
use vstd::slice::slice_subrange;
use vstd::string::StringSliceAdditionalSpecFns;

verus! {

/// A reader over a byte string, with the position of the next byte.
pub struct Deserializer<'de> {
    /// The bytes to read.
    pub input: &'de [u8],
    /// How many of them have been read.
    pub pos: usize,
}

/// What a term starts with.
pub enum Token<'de> {
    /// The unit term.
    Unit,
    /// A truth value.
    Bool(bool),
    /// An integer.
    Int(i128),
    /// A byte string.
    Bytes(&'de [u8]),
    /// A list of so many terms, which follow.
    List(usize),
    /// A map of so many pairs of terms, which follow.
    PropList(usize),
}

/// How the variant of an enum is written.
pub enum VariantHead<'de> {
    /// A variant without content: its name alone.
    Unit(&'de [u8]),
    /// A variant with content: a map of one pair, of which the name follows.
    Wrapped,
}

/// The tag of the unit term.
pub const TAG_UNIT: u8 = 0;

/// The tag of `true`.
pub const TAG_TRUE: u8 = 1;

/// The tag of `false`.
pub const TAG_FALSE: u8 = 2;

/// The tag of an integer.
pub const TAG_INT: u8 = 3;

/// The tag of a byte string.
pub const TAG_BYTES: u8 = 5;

/// The tag of a list.
pub const TAG_SEQ: u8 = 6;

/// The tag of a map.
pub const TAG_MAP: u8 = 7;

impl<'de> Deserializer<'de> {
    /// A reader at the start of `input`.
    pub fn new(input: &'de [u8]) -> (out: Self)
        ensures
            out.input@ == input@,
            out.pos == 0,
    {
        Deserializer { input, pos: 0 }
    }

    /// Reads one byte.
    pub fn read_byte(&mut self) -> (out: Result<u8, Error>)
        ensures
            final(self).input == old(self).input,
            match out {
                Ok(b) => old(self).pos < old(self).input@.len() && b == old(self).input@[old(self).pos as int] && final(self).pos == old(self).pos + 1,
                Err(e) => old(self).pos >= old(self).input@.len() && e is Eof && final(self).pos
                    == old(self).pos,
            },
    {
        if self.pos >= self.input.len() {
            return Err(Error::Eof);
        }
        let byte = self.input[self.pos];
        self.pos += 1;
        Ok(byte)
    }

    /// Reads `count` bytes.
    pub fn read_bytes(&mut self, count: usize) -> (out: Result<&'de [u8], Error>)
        ensures
            final(self).input == old(self).input,
            match out {
                Ok(bytes) => old(self).pos + count <= old(self).input@.len() && bytes@ == old(self).input@.subrange(old(self).pos as int, old(self).pos + count) && final(self).pos
                    == old(self).pos + count,
                Err(e) => old(self).pos + count > old(self).input@.len() && e is Eof && final(self).pos == old(self).pos,
            },
    {
        let n = self.input.len();
        if self.pos > n || n - self.pos < count {
            return Err(Error::Eof);
        }
        let slice = slice_subrange(self.input, self.pos, self.pos + count);
        self.pos += count;
        Ok(slice)
    }

    /// Reads a varint.
    pub fn read_varint(&mut self) -> (out: Result<i128, Error>)
        ensures
            final(self).input == old(self).input,
            match out {
                Ok(r) => varint_at(old(self).input@, old(self).pos as int) == Ok::<
                    (int, int),
                    VarintError,
                >((r as int, final(self).pos as int)),
                Err(err) => varint_at(old(self).input@, old(self).pos as int) is Err && is_message(
                    err,
                    varint_message(varint_at(old(self).input@, old(self).pos as int)->Err_0),
                ) && final(self).pos == old(self).pos,
            },
    {
        let mut pos = self.pos;
        let res = decode_varint(self.input, &mut pos);
        self.pos = pos;
        match res {
            Ok(v) => Ok(v),
            Err(e) => Err(varint_error(e)),
        }
    }

    /// Reads a length: a varint that is not negative and fits the machine.
    pub fn read_length(&mut self) -> (out: Result<usize, Error>)
        ensures
            final(self).input == old(self).input,
            match out {
                Ok(r) => varint_at(old(self).input@, old(self).pos as int) == Ok::<
                    (int, int),
                    VarintError,
                >((r as int, final(self).pos as int)),
                Err(err) => match varint_at(old(self).input@, old(self).pos as int) {
                    Ok((v, end)) => (v < 0 || v > usize::MAX) && err is InvalidLength && final(self).pos == end,
                    Err(e) => is_message(err, varint_message(e)) && final(self).pos == old(self).pos,
                },
            },
    {
        let num = match self.read_varint() {
            Ok(num) => num,
            Err(e) => {
                return Err(e);
            },
        };
        if num < 0 {
            return Err(Error::InvalidLength);
        }
        if num > usize::MAX as i128 {
            return Err(Error::InvalidLength);
        }
        Ok(num as usize)
    }
}

/// What reading a length at `pos` gives: the length and the position behind
/// it, or nothing where the varint cannot be read or is no length.
pub open spec fn length_at(input: Seq<u8>, pos: int) -> Option<(usize, int)> {
    match varint_at(input, pos) {
        Ok((v, end)) => if 0 <= v <= usize::MAX {
            Some((v as usize, end))
        } else {
            None
        },
        Err(_) => None,
    }
}

/// The error that reading a length at `pos` gives.
pub open spec fn is_length_error(input: Seq<u8>, pos: int, e: Error) -> bool {
    match varint_at(input, pos) {
        Ok((v, end)) => (v < 0 || v > usize::MAX) && e is InvalidLength,
        Err(ve) => is_message(e, varint_message(ve)),
    }
}

/// The error that reading the tag `tag` at `pos` gives.
pub open spec fn is_tag_error(input: Seq<u8>, pos: int, tag: u8, e: Error) -> bool {
    if pos >= input.len() {
        e is Eof
    } else {
        input[pos] != tag && e is InvalidTag
    }
}

/// The byte string that stands at `pos`, behind its tag: the bytes and the
/// position behind them.
pub open spec fn binary_at(input: Seq<u8>, pos: int) -> Option<(Seq<u8>, int)> {
    if 0 <= pos < input.len() && input[pos] == TAG_BYTES {
        match length_at(input, pos + 1) {
            Some((len, start)) => if start + len <= input.len() {
                Some((input.subrange(start, start + len), start + len))
            } else {
                None
            },
            None => None,
        }
    } else {
        None
    }
}

/// The error that reading a byte string at `pos` gives.
pub open spec fn is_binary_error(input: Seq<u8>, pos: int, e: Error) -> bool {
    if 0 <= pos < input.len() && input[pos] == TAG_BYTES {
        match length_at(input, pos + 1) {
            Some((len, start)) => start + len > input.len() && e is Eof,
            None => is_length_error(input, pos + 1, e),
        }
    } else {
        is_tag_error(input, pos, TAG_BYTES, e)
    }
}

/// Calls `std::str::from_utf8`: the text whose UTF-8 form the bytes are, or
/// nothing where the bytes are not UTF-8.
#[verifier::external_body]
fn text_of<'a>(bytes: &'a [u8]) -> (out: Option<&'a str>)
    ensures
        match out {
            Some(text) => vstd::utf8::valid_utf8(bytes@) && text.spec_bytes() == bytes@,
            None => !vstd::utf8::valid_utf8(bytes@),
        },
{
    std::str::from_utf8(bytes).ok()
}

impl<'de> Deserializer<'de> {
    /// Reads one byte, which has to be `tag`.
    pub fn expect_tag(&mut self, tag: u8) -> (out: Result<(), Error>)
        ensures
            final(self).input == old(self).input,
            match out {
                Ok(_) => old(self).pos < old(self).input@.len() && old(self).input@[old(self).pos as int]
                    == tag && final(self).pos == old(self).pos + 1,
                Err(e) => is_tag_error(old(self).input@, old(self).pos as int, tag, e),
            },
    {
        let b = match self.read_byte() {
            Ok(b) => b,
            Err(e) => {
                return Err(e);
            },
        };
        if b != tag {
            return Err(Error::InvalidTag);
        }
        Ok(())
    }

    /// Reads a truth value.
    pub fn read_bool(&mut self) -> (out: Result<bool, Error>)
        ensures
            final(self).input == old(self).input,
            match out {
                Ok(v) => old(self).pos < old(self).input@.len() && old(self).input@[old(self).pos as int]
                    == (if v {
                    TAG_TRUE
                } else {
                    TAG_FALSE
                }) && final(self).pos == old(self).pos + 1,
                Err(e) => if old(self).pos >= old(self).input@.len() {
                    e is Eof
                } else {
                    old(self).input@[old(self).pos as int] != TAG_TRUE && old(self).input@[old(self).pos as int] != TAG_FALSE && e is InvalidTag
                },
            },
    {
        let b = match self.read_byte() {
            Ok(b) => b,
            Err(e) => {
                return Err(e);
            },
        };
        if b == TAG_TRUE {
            Ok(true)
        } else if b == TAG_FALSE {
            Ok(false)
        } else {
            Err(Error::InvalidTag)
        }
    }

    /// Reads an integer term: the tag, then the varint.
    pub fn read_integer(&mut self) -> (out: Result<i128, Error>)
        ensures
            final(self).input == old(self).input,
            match out {
                Ok(v) => old(self).pos < old(self).input@.len() && old(self).input@[old(self).pos as int]
                    == TAG_INT && varint_at(old(self).input@, old(self).pos + 1) == Ok::<
                    (int, int),
                    VarintError,
                >((v as int, final(self).pos as int)),
                Err(e) => if old(self).pos < old(self).input@.len() && old(self).input@[old(self).pos as int] == TAG_INT {
                    varint_at(old(self).input@, old(self).pos + 1) is Err && is_message(
                        e,
                        varint_message(varint_at(old(self).input@, old(self).pos + 1)->Err_0),
                    )
                } else {
                    is_tag_error(old(self).input@, old(self).pos as int, TAG_INT, e)
                },
            },
    {
        match self.expect_tag(TAG_INT) {
            Ok(_) => {},
            Err(e) => {
                return Err(e);
            },
        }
        self.read_varint()
    }

    /// Reads the tag `tag` and the length behind it: the head of a list or a map.
    pub fn read_head(&mut self, tag: u8) -> (out: Result<usize, Error>)
        ensures
            final(self).input == old(self).input,
            match out {
                Ok(len) => old(self).pos < old(self).input@.len() && old(self).input@[old(self).pos as int] == tag && length_at(old(self).input@, old(self).pos + 1) == Some(
                    (len, final(self).pos as int),
                ),
                Err(e) => if old(self).pos < old(self).input@.len() && old(self).input@[old(self).pos as int] == tag {
                    is_length_error(old(self).input@, old(self).pos + 1, e)
                } else {
                    is_tag_error(old(self).input@, old(self).pos as int, tag, e)
                },
            },
    {
        match self.expect_tag(tag) {
            Ok(_) => {},
            Err(e) => {
                return Err(e);
            },
        }
        self.read_length()
    }

    /// Reads a byte string: the tag, the length, the bytes.
    pub fn read_binary(&mut self) -> (out: Result<&'de [u8], Error>)
        ensures
            final(self).input == old(self).input,
            match out {
                Ok(bytes) => binary_at(old(self).input@, old(self).pos as int) == Some(
                    (bytes@, final(self).pos as int),
                ),
                Err(e) => binary_at(old(self).input@, old(self).pos as int) is None && is_binary_error(
                    old(self).input@,
                    old(self).pos as int,
                    e,
                ),
            },
    {
        let len = match self.read_head(TAG_BYTES) {
            Ok(len) => len,
            Err(e) => {
                return Err(e);
            },
        };
        self.read_bytes(len)
    }

    /// Reads a text: a byte string that is UTF-8.
    pub fn read_text(&mut self) -> (out: Result<&'de str, Error>)
        ensures
            final(self).input == old(self).input,
            match out {
                Ok(text) => binary_at(old(self).input@, old(self).pos as int) == Some(
                    (text.spec_bytes(), final(self).pos as int),
                ) && vstd::utf8::valid_utf8(text.spec_bytes()),
                Err(e) => match binary_at(old(self).input@, old(self).pos as int) {
                    Some((bytes, end)) => !vstd::utf8::valid_utf8(bytes) && e is InvalidUtf8 && final(self).pos == end,
                    None => is_binary_error(old(self).input@, old(self).pos as int, e),
                },
            },
    {
        let bytes = match self.read_binary() {
            Ok(bytes) => bytes,
            Err(e) => {
                return Err(e);
            },
        };
        match text_of(bytes) {
            Some(text) => Ok(text),
            None => Err(Error::InvalidUtf8),
        }
    }

    /// Reads the unit term.
    pub fn read_unit(&mut self) -> (out: Result<(), Error>)
        ensures
            final(self).input == old(self).input,
            match out {
                Ok(_) => old(self).pos < old(self).input@.len() && old(self).input@[old(self).pos as int]
                    == TAG_UNIT && final(self).pos == old(self).pos + 1,
                Err(e) => is_tag_error(old(self).input@, old(self).pos as int, TAG_UNIT, e),
            },
    {
        self.expect_tag(TAG_UNIT)
    }

    /// Reads the unit term if it stands next, as the mark of an absent value;
    /// says whether it did.
    pub fn take_none(&mut self) -> (out: bool)
        ensures
            final(self).input == old(self).input,
            out == (old(self).pos < old(self).input@.len() && old(self).input@[old(self).pos as int]
                == TAG_UNIT),
            final(self).pos == if out {
                old(self).pos + 1
            } else {
                old(self).pos as int
            },
    {
        if self.pos < self.input.len() && self.input[self.pos] == TAG_UNIT {
            self.pos += 1;
            true
        } else {
            false
        }
    }

    /// Reads what the next term starts with.
    pub fn read_token(&mut self) -> (out: Result<Token<'de>, Error>)
        ensures
            final(self).input == old(self).input,
            old(self).pos >= old(self).input@.len() ==> out is Err && out->Err_0 is Eof,
            old(self).pos < old(self).input@.len() ==> {
                let input = old(self).input@;
                let pos = old(self).pos as int;
                let tag = input[pos];
                match out {
                    Ok(Token::Unit) => tag == TAG_UNIT && final(self).pos == pos + 1,
                    Ok(Token::Bool(v)) => tag == (if v {
                        TAG_TRUE
                    } else {
                        TAG_FALSE
                    }) && final(self).pos == pos + 1,
                    Ok(Token::Int(v)) => tag == TAG_INT && varint_at(input, pos + 1) == Ok::<
                        (int, int),
                        VarintError,
                    >((v as int, final(self).pos as int)),
                    Ok(Token::Bytes(b)) => binary_at(input, pos) == Some((b@, final(self).pos as int)),
                    Ok(Token::List(n)) => tag == TAG_SEQ && length_at(input, pos + 1) == Some(
                        (n, final(self).pos as int),
                    ),
                    Ok(Token::PropList(n)) => tag == TAG_MAP && length_at(input, pos + 1) == Some(
                        (n, final(self).pos as int),
                    ),
                    Err(e) => if tag == TAG_UNIT || tag == TAG_TRUE || tag == TAG_FALSE {
                        false
                    } else if tag == TAG_INT {
                        varint_at(input, pos + 1) is Err && is_message(
                            e,
                            varint_message(varint_at(input, pos + 1)->Err_0),
                        )
                    } else if tag == TAG_BYTES {
                        binary_at(input, pos) is None && is_binary_error(input, pos, e)
                    } else if tag == TAG_SEQ || tag == TAG_MAP {
                        is_length_error(input, pos + 1, e)
                    } else {
                        e is InvalidTag
                    },
                }
            },
    {
        let tag = match self.read_byte() {
            Ok(b) => b,
            Err(e) => {
                return Err(e);
            },
        };
        if tag == TAG_UNIT {
            Ok(Token::Unit)
        } else if tag == TAG_TRUE {
            Ok(Token::Bool(true))
        } else if tag == TAG_FALSE {
            Ok(Token::Bool(false))
        } else if tag == TAG_INT {
            match self.read_varint() {
                Ok(v) => Ok(Token::Int(v)),
                Err(e) => Err(e),
            }
        } else if tag == TAG_BYTES {
            let len = match self.read_length() {
                Ok(len) => len,
                Err(e) => {
                    return Err(e);
                },
            };
            match self.read_bytes(len) {
                Ok(b) => Ok(Token::Bytes(b)),
                Err(e) => Err(e),
            }
        } else if tag == TAG_SEQ {
            match self.read_length() {
                Ok(n) => Ok(Token::List(n)),
                Err(e) => Err(e),
            }
        } else if tag == TAG_MAP {
            match self.read_length() {
                Ok(n) => Ok(Token::PropList(n)),
                Err(e) => Err(e),
            }
        } else {
            Err(Error::InvalidTag)
        }
    }

    /// Reads how the variant of an enum is written: its name alone, or the
    /// head of a map of one pair.
    pub fn read_variant_head(&mut self) -> (out: Result<VariantHead<'de>, Error>)
        ensures
            final(self).input == old(self).input,
            old(self).pos >= old(self).input@.len() ==> out is Err && out->Err_0 is Eof,
            old(self).pos < old(self).input@.len() ==> {
                let input = old(self).input@;
                let pos = old(self).pos as int;
                let tag = input[pos];
                match out {
                    Ok(VariantHead::Unit(name)) => binary_at(input, pos) == Some(
                        (name@, final(self).pos as int),
                    ),
                    Ok(VariantHead::Wrapped) => tag == TAG_MAP && length_at(input, pos + 1) == Some(
                        (1usize, final(self).pos as int),
                    ),
                    Err(e) => if tag == TAG_BYTES {
                        binary_at(input, pos) is None && is_binary_error(input, pos, e)
                    } else if tag == TAG_MAP {
                        match length_at(input, pos + 1) {
                            Some((n, _)) => n != 1 && is_message(
                                e,
                                "expected single-entry proplist for enum"@,
                            ),
                            None => is_length_error(input, pos + 1, e),
                        }
                    } else {
                        e is InvalidTag
                    },
                }
            },
    {
        let tag = match self.read_byte() {
            Ok(b) => b,
            Err(e) => {
                return Err(e);
            },
        };
        if tag == TAG_BYTES {
            let len = match self.read_length() {
                Ok(len) => len,
                Err(e) => {
                    return Err(e);
                },
            };
            match self.read_bytes(len) {
                Ok(b) => Ok(VariantHead::Unit(b)),
                Err(e) => Err(e),
            }
        } else if tag == TAG_MAP {
            let outer_len = match self.read_length() {
                Ok(len) => len,
                Err(e) => {
                    return Err(e);
                },
            };
            if outer_len != 1 {
                return Err(Error::Message("expected single-entry proplist for enum".to_owned()));
            }
            Ok(VariantHead::Wrapped)
        } else {
            Err(Error::InvalidTag)
        }
    }

    /// Checks that the whole input has been read.
    pub fn finish(&self) -> (out: Result<(), Error>)
        ensures
            match out {
                Ok(_) => self.pos == self.input@.len(),
                Err(e) => self.pos != self.input@.len() && e is TrailingBytes,
            },
    {
        if self.pos != self.input.len() {
            return Err(Error::TrailingBytes);
        }
        Ok(())
    }
}

} // verus!
