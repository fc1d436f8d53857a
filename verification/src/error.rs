use vstd::prelude::*;

verus! {

/// Everything that can go wrong while reading from a [`crate::Reader`].
#[derive(Debug, Clone, PartialEq)]
pub enum ReaderError {
    NumberIsEmpty,
    ParseError(String),
    ExpectedStartOfQuote,
    ExpectedEndOfQuote,
    InvalidEscape,
    ExpectedBool,
    InvalidBool(String),
    ExpectedChar,
    FoundClosingBeforeOpening,
    NoClosing,
}

/// The message of an error.
pub open spec fn message_text(e: ReaderError) -> Seq<char> {
    match e {
        ReaderError::NumberIsEmpty => "Tried to parse a number but found nothing"@,
        ReaderError::ParseError(m) => m@,
        ReaderError::ExpectedStartOfQuote => "Expected start of quote"@,
        ReaderError::ExpectedEndOfQuote => "Expected end of quote"@,
        ReaderError::InvalidEscape => "Invalid escape"@,
        ReaderError::ExpectedBool => "Expected a bool but found nothing"@,
        ReaderError::InvalidBool(_) => "Invalid bool, must be either 'true' or 'false'"@,
        ReaderError::ExpectedChar => "Expected a char but found nothing"@,
        ReaderError::FoundClosingBeforeOpening => "Found a closing char before an opening char"@,
        ReaderError::NoClosing => "Expected a closing char after an opening but no closing was found"@,
    }
}

impl ReaderError {
    /// The message that describes the error.
    pub fn message(&self) -> (m: String)
        ensures
            m@ == message_text(*self),
    {
        match self {
            ReaderError::NumberIsEmpty => String::from_str("Tried to parse a number but found nothing"),
            ReaderError::ParseError(m) => m.clone(),
            ReaderError::ExpectedStartOfQuote => String::from_str("Expected start of quote"),
            ReaderError::ExpectedEndOfQuote => String::from_str("Expected end of quote"),
            ReaderError::InvalidEscape => String::from_str("Invalid escape"),
            ReaderError::ExpectedBool => String::from_str("Expected a bool but found nothing"),
            ReaderError::InvalidBool(_) => String::from_str(
                "Invalid bool, must be either 'true' or 'false'",
            ),
            ReaderError::ExpectedChar => String::from_str("Expected a char but found nothing"),
            ReaderError::FoundClosingBeforeOpening => String::from_str(
                "Found a closing char before an opening char",
            ),
            ReaderError::NoClosing => String::from_str(
                "Expected a closing char after an opening but no closing was found",
            ),
        }
    }
}

} // verus!
