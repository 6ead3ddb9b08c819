//! Character-level casing primitives.
//!
//! The Unicode case mappings and case tests come from the standard library;
//! each result is a function of the character alone, and is given a name
//! that the rest of the crate's contracts are stated over.

use vstd::prelude::*;

verus! {

/// The Unicode lowercase mapping of a character, as `char::to_lowercase`
/// yields it: one or more characters.
pub uninterp spec fn lower_chars(c: char) -> Seq<char>;

/// The Unicode uppercase mapping of a character, as `char::to_uppercase`
/// yields it: one or more characters.
pub uninterp spec fn upper_chars(c: char) -> Seq<char>;

/// Whether a character has the Unicode uppercase property, as
/// `char::is_uppercase` reports it.
pub uninterp spec fn is_upper(c: char) -> bool;

/// Whether a character has the Unicode lowercase property, as
/// `char::is_lowercase` reports it.
pub uninterp spec fn is_lower(c: char) -> bool;

/// A cased character: one an alternation or a coin flip may recase.
/// All others pass through every pattern unchanged.
pub open spec fn cased(c: char) -> bool {
    is_upper(c) || is_lower(c)
}

/// Relies on `char::is_uppercase`: whether the character has the Unicode
/// uppercase property; the result depends on the character alone.
#[verifier::external_body]
pub(crate) fn char_is_upper(c: char) -> (r: bool)
    ensures
        r == is_upper(c),
{
    c.is_uppercase()
}

/// Relies on `char::is_lowercase`: whether the character has the Unicode
/// lowercase property; the result depends on the character alone.
#[verifier::external_body]
pub(crate) fn char_is_lower(c: char) -> (r: bool)
    ensures
        r == is_lower(c),
{
    c.is_lowercase()
}

/// Relies on `char::to_lowercase`: the Unicode lowercase mapping of the
/// character, one or more characters, a function of the character alone.
#[verifier::external_body]
pub(crate) fn char_to_lower(c: char) -> (r: String)
    ensures
        r@ == lower_chars(c),
        r@.len() >= 1,
{
    c.to_lowercase().collect()
}

/// Relies on `char::to_uppercase`: the Unicode uppercase mapping of the
/// character, one or more characters, a function of the character alone.
#[verifier::external_body]
pub(crate) fn char_to_upper(c: char) -> (r: String)
    ensures
        r@ == upper_chars(c),
        r@.len() >= 1,
{
    c.to_uppercase().collect()
}

/// Relies on `String::push`: appends the given character to the end of
/// the string.
#[verifier::external_body]
pub(crate) fn push_char(s: &mut String, c: char)
    ensures
        final(s)@ == old(s)@ + seq![c],
{
    s.push(c)
}

} // verus!
