//! The failures that decoding and encoding can end in.

use vstd::prelude::*;

verus! {

/// Why a decode or an encode stopped. Every failure ends the whole call:
/// no partial result is handed out.
#[derive(Debug, Clone, PartialEq, Eq)]
pub enum Error {
    /// A failure raised by a layer that binds application types to the codec.
    Message(String),
    /// A number was asked for and the input holds none that fits.
    ExpectedNumber,
    /// A byte string was asked for and the input holds another token.
    ExpectedString,
    /// A list was asked for and the input holds another token.
    ExpectedList,
    /// A dictionary was asked for and the input holds another token.
    ExpectedDictionary,
    /// A list or a dictionary is not closed where its end is due.
    ExpectedEnd,
    /// Owned text was asked for and the bytes are not valid UTF-8.
    InvalidString,
    /// Borrowed text was asked for and the bytes are not valid UTF-8.
    BorrowFailure,
    /// The shape has no encoding: a boolean, a character, an absent value.
    TypeNotSupported,
    /// A byte stands where no token can start or go on.
    Syntax,
    /// The input ended inside a token.
    Eof,
}

impl Error {
    /// The text that describes the failure.
    pub open spec fn description(self) -> Seq<char> {
        match self {
            Error::Message(m) => m@,
            Error::ExpectedNumber => "expected number"@,
            Error::ExpectedString => "expected string"@,
            Error::ExpectedList => "expected list"@,
            Error::ExpectedDictionary => "expected dictionary"@,
            Error::ExpectedEnd => "expected end"@,
            Error::InvalidString => "string is not valid"@,
            Error::BorrowFailure => "string cannot be borrowed"@,
            Error::TypeNotSupported => "type is not supported in BENCODE format"@,
            Error::Syntax => "syntax error"@,
            Error::Eof => "unexpected end of file"@,
        }
    }

    /// Renders the failure as text.
    pub fn message(&self) -> (text: String)
        ensures
            text@ == self.description(),
    {
        match self {
            Error::Message(m) => m.clone(),
            Error::ExpectedNumber => "expected number".to_owned(),
            Error::ExpectedString => "expected string".to_owned(),
            Error::ExpectedList => "expected list".to_owned(),
            Error::ExpectedDictionary => "expected dictionary".to_owned(),
            Error::ExpectedEnd => "expected end".to_owned(),
            Error::InvalidString => "string is not valid".to_owned(),
            Error::BorrowFailure => "string cannot be borrowed".to_owned(),
            Error::TypeNotSupported => "type is not supported in BENCODE format".to_owned(),
            Error::Syntax => "syntax error".to_owned(),
            Error::Eof => "unexpected end of file".to_owned(),
        }
    }
}

} // verus!
