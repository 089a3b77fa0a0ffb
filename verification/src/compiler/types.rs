//! Errors reported by the compiler.
use vstd::prelude::*;

verus! {

/// A range of byte offsets into a source file.
#[derive(Clone, Copy, Debug, PartialEq, Eq, Structural)]
pub struct CopyRange {
    pub start: usize,
    pub end: usize,
}

/// One message of an error: what went wrong, in which file and where.
#[derive(Debug)]
pub struct ErrorMessage {
    pub message: String,
    pub file: u32,
    pub range: CopyRange,
}

/// An error of the compiler.
#[derive(Debug)]
pub enum Error {
    Message(ErrorMessage),
}

impl Error {
    /// An error with one message about the span `range` of file 0.
    pub fn new(s: String, range: CopyRange) -> (r: Self)
        ensures
            r matches Error::Message(m) && m.message@ == s@ && m.file == 0 && m.range == range,
    {
        Error::Message(ErrorMessage { message: s, file: 0, range })
    }

    /// Appends this error's messages to `messages`.
    pub fn append_messages(self, messages: &mut Vec<ErrorMessage>)
        ensures
            match self {
                Error::Message(m) => final(messages)@ == old(messages)@.push(m),
            },
    {
        match self {
            Error::Message(message) => messages.push(message),
        }
    }
}

} // verus!
