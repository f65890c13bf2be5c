use vstd::prelude::*;

verus! {

/// The two ways a parse attempt can fail.
#[derive(Debug, Clone, Copy, PartialEq, Eq, Structural)]
pub enum ErrorKind {
    /// This alternative does not apply here; another one may be tried.
    Mismatch,
    /// A construct was entered unambiguously and is malformed; the whole
    /// parse stops.
    Failure,
}

/// What was expected where a parse attempt failed.
#[derive(Debug, Clone, Copy, PartialEq, Eq, Structural)]
pub enum Expected {
    /// This exact byte.
    Char(u8),
    /// A decimal digit.
    Digit,
    /// An identifier, `[A-Za-z][A-Za-z0-9]*`.
    Identifier,
    /// One of the literals `true`, `false` and `null`.
    Literal,
    /// One of the words `true` and `false`.
    Boolean,
    /// A printable ASCII character, or the closing quote.
    Printable,
    /// One of the escapes `\n`, `\r`, `\t`, `\\` and `\"`.
    Escape,
    /// An exponent that brings the decimal point within `i32`.
    ExponentInRange,
}

/// A failed parse: how it failed, the byte offset it reached, and what was
/// expected there.
#[derive(Debug, Clone, Copy, PartialEq, Eq, Structural)]
pub struct ParseError {
    pub kind: ErrorKind,
    pub offset: usize,
    pub expected: Expected,
}

pub open spec fn mismatch(offset: int, expected: Expected) -> ParseError {
    ParseError { kind: ErrorKind::Mismatch, offset: offset as usize, expected }
}

pub open spec fn failure(offset: int, expected: Expected) -> ParseError {
    ParseError { kind: ErrorKind::Failure, offset: offset as usize, expected }
}

/// Relies on `format!` of a string and a `usize`: the message of a failed
/// parse.
#[verifier::external_body]
pub(crate) fn failure_message(expected: &str, index: usize) -> (r: String) {
    format!("Parse error, expected {} at char {}", expected, index)
}

impl Expected {
    /// A short description of what was expected.
    pub fn describe(&self) -> &'static str {
        match self {
            Expected::Char(b) => {
                if *b == 0x22 {
                    "'\"'"
                } else if *b == 0x5b {
                    "'['"
                } else if *b == 0x5d {
                    "']'"
                } else if *b == 0x7b {
                    "'{'"
                } else if *b == 0x7d {
                    "'}'"
                } else if *b == 0x3a {
                    "':'"
                } else if *b == 0x28 {
                    "'('"
                } else if *b == 0x29 {
                    "')'"
                } else if *b == 0x2c {
                    "','"
                } else {
                    "a character"
                }
            },
            Expected::Digit => "digit",
            Expected::Identifier => "identifier",
            Expected::Literal => "true, false or null",
            Expected::Boolean => "true or false",
            Expected::Printable => "printable character",
            Expected::Escape => "escape",
            Expected::ExponentInRange => "exponent in range",
        }
    }
}

} // verus!
