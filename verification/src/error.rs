//! The errors of serialization and deserialization.

use vstd::prelude::*;
use vstd::std_specs::convert::FromSpecImpl;
use vstd::string::*;
use crate::util::pretty::{
    indent_too_small_message, indent_too_small_text, unmatched_unindent_message,
    unmatched_unindent_text,
};
use crate::util::protect::SplitArgError;

verus! {

/// What can go wrong when a value is written or read.
#[derive(Debug, PartialEq)]
pub enum Error {
    Message(String),
    NotABoolean,
    NotAnInteger,
    NotAnUnsignedInteger,
    NotAFloatingPointNumber,
    NotASingleCharacter,
    NotAnEnum,
    NotAKeyValuePair,
    UnexpectedValueForUnit,
    TooManyElements,
    IndentTooSmall { lineno: usize },
    UnmatchedUnindent { lineno: usize },
}

impl Error {
    /// The message of the error.
    pub open spec fn text(&self) -> Seq<char> {
        match self {
            Error::Message(msg) => msg@,
            Error::NotABoolean => "expected a boolean (`true`, `yes`, `false`, `no`; case insensitive)"@,
            Error::NotAnInteger => "expected an integer"@,
            Error::NotAnUnsignedInteger => "expected an unsigned integer"@,
            Error::NotAFloatingPointNumber => "expected a floating point number"@,
            Error::NotASingleCharacter => "expected a single character"@,
            Error::NotAnEnum => "expected an enum (`VARIANT` or `VARIANT{ARGS}`"@,
            Error::NotAKeyValuePair => "expected a key-value pair (`KEY=VALUE`)"@,
            Error::UnexpectedValueForUnit => "unit got an unexpected value"@,
            Error::TooManyElements => "too many elements"@,
            Error::IndentTooSmall { lineno } => indent_too_small_text(*lineno as nat),
            Error::UnmatchedUnindent { lineno } => unmatched_unindent_text(*lineno as nat),
        }
    }

    /// The message of the error.
    pub fn to_string(&self) -> (s: String)
        ensures
            s@ == self.text(),
    {
        match self {
            Error::Message(msg) => msg.clone(),
            Error::NotABoolean => String::from_str(
                "expected a boolean (`true`, `yes`, `false`, `no`; case insensitive)",
            ),
            Error::NotAnInteger => String::from_str("expected an integer"),
            Error::NotAnUnsignedInteger => String::from_str("expected an unsigned integer"),
            Error::NotAFloatingPointNumber => String::from_str("expected a floating point number"),
            Error::NotASingleCharacter => String::from_str("expected a single character"),
            Error::NotAnEnum => String::from_str("expected an enum (`VARIANT` or `VARIANT{ARGS}`"),
            Error::NotAKeyValuePair => String::from_str("expected a key-value pair (`KEY=VALUE`)"),
            Error::UnexpectedValueForUnit => String::from_str("unit got an unexpected value"),
            Error::TooManyElements => String::from_str("too many elements"),
            Error::IndentTooSmall { lineno } => indent_too_small_message(*lineno),
            Error::UnmatchedUnindent { lineno } => unmatched_unindent_message(*lineno),
        }
    }
}

impl From<SplitArgError> for Error {
    fn from(error: SplitArgError) -> (e: Error) {
        match error {
            SplitArgError::NotAnEnum => Error::NotAnEnum,
        }
    }
}

impl FromSpecImpl<SplitArgError> for Error {
    open spec fn obeys_from_spec() -> bool {
        true
    }

    open spec fn from_spec(error: SplitArgError) -> Error {
        Error::NotAnEnum
    }
}

} // verus!
