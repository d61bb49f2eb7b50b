//! The ways in which a text or a token sequence is rejected.
use vstd::prelude::*;

verus! {

/// Why a text could not be cut into tokens.
#[derive(Debug, Clone, Copy, PartialEq, Eq, Structural)]
pub enum LexError {
    /// A double quote opened a name and the text ended before the next one.
    UnterminatedExtendedName,
}

/// Why a token sequence could not be folded into a tree.
#[derive(Debug, Clone, Copy, PartialEq, Eq, Structural)]
pub enum ParseError {
    /// A group was closed where none but the root was open.
    UnmatchedGroupEnd,
    /// The tokens ended while a scope other than the root was still open.
    UnmatchedGroupStart,
}

impl LexError {
    /// The sentence that describes this error to a person.
    pub fn message(&self) -> (text: &'static str)
        ensures
            text@ == "unterminated extended name"@,
    {
        "unterminated extended name"
    }
}

impl ParseError {
    /// The sentence that describes this error to a person.
    pub fn message(&self) -> (text: &'static str)
        ensures
            *self == ParseError::UnmatchedGroupEnd ==> text@ == "unmatched '}'"@,
            *self == ParseError::UnmatchedGroupStart ==> text@ == "unmatched '{' (one or more)"@,
    {
        match self {
            ParseError::UnmatchedGroupEnd => "unmatched '}'",
            ParseError::UnmatchedGroupStart => "unmatched '{' (one or more)",
        }
    }
}

} // verus!
