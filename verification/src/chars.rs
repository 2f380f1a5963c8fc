//! The few operations on characters and strings that the library takes from
//! the standard library on trust.

use vstd::prelude::*;

verus! {

/// `String::push`: the string grows by the one character, at its end.
#[verifier::external_body]
pub(crate) fn push_char(text: &mut String, c: char)
    ensures
        final(text)@ == old(text)@.push(c),
{
    text.push(c);
}

/// The upper-case form of a text, as `str::to_uppercase` gives it: a function
/// of the characters alone, set down in the Unicode tables of the standard
/// library.
pub uninterp spec fn uppercase_of(text: Seq<char>) -> Seq<char>;

/// `str::to_uppercase`: the upper-case form of the text, in a new string.
#[verifier::external_body]
pub(crate) fn to_upper(text: &str) -> (upper: String)
    ensures
        upper@ == uppercase_of(text@),
{
    text.to_uppercase()
}

} // verus!
