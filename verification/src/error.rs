//! The flat error taxonomy of the scanner.

use vstd::prelude::*;

verus! {

/// A scan failure.  Every scanner call either fully succeeds or surfaces
/// one of these immediately; there is no internal retry or recovery.
#[derive(Clone, Copy, Debug, PartialEq, Eq, Structural)]
pub enum Error {
    /// The input was exhausted in the middle of a token.
    Eof,
    /// The upcoming bytes are not a boolean literal.
    ExpectedBoolean,
    /// The upcoming bytes are not a character literal.
    ExpectedChar,
    /// The upcoming bytes are not a string literal.
    ExpectedString,
    /// The upcoming bytes do not start an identifier.
    ExpectedIdentifier,
    /// A digit run could not be parsed into the target width.
    ExpectedInteger,
    /// A scanned float token could not be parsed.
    ExpectedFloat,
    /// A malformed or illegal escape sequence, including surrogate-pairing
    /// violations.
    InvalidEscape,
    /// Accumulated string bytes are not valid UTF-8.
    Utf8Error,
}

impl Error {
    /// A short human-readable description of the failure.
    pub fn describe(&self) -> (r: &'static str)
        ensures
            r@.len() > 0,
    {
        let r = match self {
            Error::Eof => "unexpected end of input",
            Error::ExpectedBoolean => "expected boolean",
            Error::ExpectedChar => "expected char",
            Error::ExpectedString => "expected string",
            Error::ExpectedIdentifier => "expected identifier",
            Error::ExpectedInteger => "expected integer",
            Error::ExpectedFloat => "expected float",
            Error::InvalidEscape => "invalid escape sequence",
            Error::Utf8Error => "string bytes are not valid UTF-8",
        };
        proof {
            reveal_strlit("unexpected end of input");
            reveal_strlit("expected boolean");
            reveal_strlit("expected char");
            reveal_strlit("expected string");
            reveal_strlit("expected identifier");
            reveal_strlit("expected integer");
            reveal_strlit("expected float");
            reveal_strlit("invalid escape sequence");
            reveal_strlit("string bytes are not valid UTF-8");
        }
        r
    }
}

} // verus!
