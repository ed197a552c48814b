//! Typed accessors over the elements of an array frame: a decoded command
//! pulls its arguments off the front one at a time, coercing frame shapes and
//! failing with a descriptive error on a mismatch. Running out of elements is
//! the `EndOfStream` sentinel, which variable-arity commands use to stop.
use crate::decimal::{dec_value, parse_decimal};
use crate::error::Error;
use crate::frame::{numeric_line, Frame, FrameModel, FrameSimple, SimpleModel};
use vstd::prelude::*;

verus! {

/// The bytes an argument position holds, when the frame there has a textual
/// shape (simple or bulk).
pub open spec fn as_bytes(f: SimpleModel) -> Option<Seq<u8>> {
    match f {
        SimpleModel::Simple(s) => Some(s),
        SimpleModel::Bulk(b) => Some(b),
        _ => None,
    }
}

/// The bytes an argument position holds when they are well-formed text: a
/// simple or bulk frame whose payload is valid UTF-8.
pub open spec fn as_string(f: SimpleModel) -> Option<Seq<u8>> {
    match f {
        SimpleModel::Simple(s) => if vstd::utf8::valid_utf8(s) {
            Some(s)
        } else {
            None
        },
        SimpleModel::Bulk(b) => if vstd::utf8::valid_utf8(b) {
            Some(b)
        } else {
            None
        },
        _ => None,
    }
}

/// Relies on str::from_utf8: it accepts a byte string exactly when the bytes
/// are valid UTF-8.
#[verifier::external_body]
fn is_utf8(v: &Vec<u8>) -> (r: bool)
    ensures
        r == vstd::utf8::valid_utf8(v@),
{
    core::str::from_utf8(v.as_slice()).is_ok()
}

/// The number an argument position holds: an integer frame directly, or a
/// textual frame spelling a decimal number.
pub open spec fn as_int(f: SimpleModel) -> Option<u64> {
    match f {
        SimpleModel::Integer(v) => Some(v),
        SimpleModel::Simple(s) => if numeric_line(s) {
            Some(dec_value(s) as u64)
        } else {
            None
        },
        SimpleModel::Bulk(b) => if numeric_line(b) {
            Some(dec_value(b) as u64)
        } else {
            None
        },
        _ => None,
    }
}

#[derive(Debug)]
pub enum CommandParseError {
    /// No elements remain; variable-arity commands stop here.
    EndOfStream,
    Other(Error),
}

/// Walks the elements of one array frame, front to back.
pub struct CommandParser {
    parts: Vec<FrameSimple>,
}

impl CommandParser {
    /// The argument frames not yet consumed.
    pub closed spec fn remaining(&self) -> Seq<SimpleModel> {
        crate::frame::models_of(self.parts@)
    }

    /// Starts on the elements of `frame`; any top-level frame other than an
    /// array is a protocol error.
    pub fn new(frame: Frame) -> (r: Result<CommandParser, CommandParseError>)
        ensures
            match frame@ {
                FrameModel::Array(vs) => r is Ok && r->Ok_0.remaining() == vs,
                FrameModel::Simple(_) => r is Err && r->Err_0 is Other,
            },
    {
        match frame {
            Frame::Array(array) => Ok(CommandParser { parts: array }),
            _ => Err(
                CommandParseError::Other(
                    Error::Other(String::from_str("protocol error; expected array")),
                ),
            ),
        }
    }

    fn next(&mut self) -> (r: Result<FrameSimple, CommandParseError>)
        ensures
            match r {
                Ok(f) => old(self).remaining().len() > 0 && f@ == old(self).remaining()[0]
                    && final(self).remaining() == old(self).remaining().skip(1),
                Err(e) => e is EndOfStream && old(self).remaining().len() == 0 && *final(self)
                    == *old(self),
            },
    {
        if self.parts.len() > 0 {
            let f = self.parts.remove(0);
            proof {
                assert(crate::frame::models_of(self.parts@) =~= old(self).remaining().skip(1));
            }
            Ok(f)
        } else {
            Err(CommandParseError::EndOfStream)
        }
    }

    /// The next argument as well-formed text: a simple or bulk frame whose
    /// payload is valid UTF-8; anything else is a protocol error.
    pub fn next_string(&mut self) -> (r: Result<Vec<u8>, CommandParseError>)
        ensures
            match r {
                Ok(v) => old(self).remaining().len() > 0 && as_string(old(self).remaining()[0])
                    == Some(v@) && final(self).remaining() == old(self).remaining().skip(1),
                Err(e) => (e is EndOfStream && old(self).remaining().len() == 0 && *final(self)
                    == *old(self)) || (e is Other && old(self).remaining().len() > 0 && as_string(
                    old(self).remaining()[0],
                ) is None && final(self).remaining() == old(self).remaining().skip(1)),
            },
    {
        let payload = match self.next() {
            Ok(FrameSimple::Simple(s)) => s,
            Ok(FrameSimple::Bulk(b)) => b,
            Ok(_) => {
                return Err(
                    CommandParseError::Other(
                        Error::Other(
                            String::from_str(
                                "protocol error; expected simple frame or bulk frame",
                            ),
                        ),
                    ),
                );
            },
            Err(e) => {
                return Err(e);
            },
        };
        if is_utf8(&payload) {
            Ok(payload)
        } else {
            Err(
                CommandParseError::Other(
                    Error::Other(String::from_str("protocol error; invalid string")),
                ),
            )
        }
    }

    /// The next argument as a raw byte string; simple and bulk frames
    /// qualify, with no text check.
    pub fn next_bytes(&mut self) -> (r: Result<Vec<u8>, CommandParseError>)
        ensures
            match r {
                Ok(v) => old(self).remaining().len() > 0 && as_bytes(old(self).remaining()[0])
                    == Some(v@) && final(self).remaining() == old(self).remaining().skip(1),
                Err(e) => (e is EndOfStream && old(self).remaining().len() == 0 && *final(self)
                    == *old(self)) || (e is Other && old(self).remaining().len() > 0 && as_bytes(
                    old(self).remaining()[0],
                ) is None && final(self).remaining() == old(self).remaining().skip(1)),
            },
    {
        match self.next() {
            Ok(FrameSimple::Simple(s)) => Ok(s),
            Ok(FrameSimple::Bulk(b)) => Ok(b),
            Ok(_) => Err(
                CommandParseError::Other(
                    Error::Other(
                        String::from_str("protocol error; expected simple frame or bulk frame"),
                    ),
                ),
            ),
            Err(e) => Err(e),
        }
    }

    /// The next argument as an unsigned number: an integer frame, or a
    /// textual frame spelling a decimal.
    pub fn next_int(&mut self) -> (r: Result<u64, CommandParseError>)
        ensures
            match r {
                Ok(v) => old(self).remaining().len() > 0 && as_int(old(self).remaining()[0])
                    == Some(v) && final(self).remaining() == old(self).remaining().skip(1),
                Err(e) => (e is EndOfStream && old(self).remaining().len() == 0 && *final(self)
                    == *old(self)) || (e is Other && old(self).remaining().len() > 0 && as_int(
                    old(self).remaining()[0],
                ) is None && final(self).remaining() == old(self).remaining().skip(1)),
            },
    {
        let f = match self.next() {
            Ok(f) => f,
            Err(e) => {
                return Err(e);
            },
        };
        match f {
            FrameSimple::Integer(v) => Ok(v),
            FrameSimple::Simple(s) => match parse_decimal(&s) {
                Some(v) => Ok(v),
                None => Err(
                    CommandParseError::Other(
                        Error::Other(String::from_str("protocol error; invalid number")),
                    ),
                ),
            },
            FrameSimple::Bulk(b) => match parse_decimal(&b) {
                Some(v) => Ok(v),
                None => Err(
                    CommandParseError::Other(
                        Error::Other(String::from_str("protocol error; invalid number")),
                    ),
                ),
            },
            _ => Err(
                CommandParseError::Other(
                    Error::Other(String::from_str("protocol error; expected int frame")),
                ),
            ),
        }
    }

    /// Asserts that every element was consumed; leftovers are a protocol
    /// error.
    pub fn finish(&mut self) -> (r: Result<(), CommandParseError>)
        ensures
            *final(self) == *old(self),
            match r {
                Ok(()) => old(self).remaining().len() == 0,
                Err(e) => e is Other && old(self).remaining().len() > 0,
            },
    {
        if self.parts.len() == 0 {
            Ok(())
        } else {
            Err(
                CommandParseError::Other(
                    Error::Other(
                        String::from_str(
                            "protocol error; expected end of frame, but there was more",
                        ),
                    ),
                ),
            )
        }
    }
}

} // verus!
