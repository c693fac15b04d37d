//! Character classification: every character belongs to exactly one of
//! three classes, and the class decides where the tokenizer puts word
//! boundaries.

use vstd::prelude::*;

verus! {

/// The class of a single character.  `Id` characters merge into identifier
/// words, `Space` characters merge into whitespace words, and every `Other`
/// character stands as a one-character word of its own.
#[derive(PartialEq, Eq, Structural, Clone, Copy, Debug)]
pub enum CharType {
    Id,
    Space,
    Other,
}

/// What `char::is_alphanumeric` returns for a character.
pub uninterp spec fn alphanumeric(c: char) -> bool;

/// What `char::is_whitespace` returns for a character.
pub uninterp spec fn whitespace(c: char) -> bool;

/// Relies on `char::is_alphanumeric`: whether the character is Unicode
/// alphabetic or numeric.  The result depends on the character alone.
pub assume_specification[ char::is_alphanumeric ](c: char) -> (r: bool)
    ensures
        r == alphanumeric(c),
;

/// Relies on `char::is_whitespace`: whether the character has the Unicode
/// `White_Space` property.  The result depends on the character alone.
pub assume_specification[ char::is_whitespace ](c: char) -> (r: bool)
    ensures
        r == whitespace(c),
;

/// An identifier character: alphanumeric, or one of the word-internal
/// punctuation characters `-` and `_`.
pub open spec fn is_id_char(c: char) -> bool {
    alphanumeric(c) || c == '-' || c == '_'
}

/// The class of a character: identifier characters first, then whitespace,
/// and everything else is `Other`.
pub open spec fn char_class(c: char) -> CharType {
    if is_id_char(c) {
        CharType::Id
    } else if whitespace(c) {
        CharType::Space
    } else {
        CharType::Other
    }
}

/// Whether the character may stand inside an identifier word.
pub fn is_id(c: char) -> (r: bool)
    ensures
        r == is_id_char(c),
{
    c.is_alphanumeric() || c == '-' || c == '_'
}

/// The class of the character, as `char_class` gives it.
pub fn get_char_type(c: char) -> (r: CharType)
    ensures
        r == char_class(c),
{
    if is_id(c) {
        return CharType::Id;
    }
    if c.is_whitespace() {
        return CharType::Space;
    }
    CharType::Other
}

/// Whether the character separates words in the plainest sense: it is
/// whitespace.
pub fn is_sep(c: char) -> (r: bool)
    ensures
        r == whitespace(c),
{
    c.is_whitespace()
}

} // verus!
