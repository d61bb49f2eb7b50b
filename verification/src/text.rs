//! What the lexer takes from the standard library: the test for whitespace and
//! the growth of a `String` by one character. Neither is proved here; each
//! contract below is believed as it stands.
use vstd::prelude::*;

verus! {

/// Whether `c` has the Unicode property `White_Space`, as
/// `char::is_whitespace` reports it.
pub uninterp spec fn whitespace(c: char) -> bool;

/// `char::is_whitespace` depends on the character alone: its answer is the
/// one that [`whitespace`] names. Nothing is said here of which characters
/// those are.
pub assume_specification[ char::is_whitespace ](c: char) -> (answer: bool)
    ensures
        answer == whitespace(c),
;

/// `String::push` appends the character to the end of the string and leaves
/// what was there before in place.
pub assume_specification[ String::push ](text: &mut String, c: char)
    ensures
        final(text)@ == old(text)@.push(c),
;

} // verus!
