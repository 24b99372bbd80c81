//! The character classes that the pre-tokenizer and the merge-file reader
//! test, taken from `nom_unicode`, which asks the standard library's `char`
//! methods.

use vstd::prelude::*;

verus! {

/// Whether `c` has the Unicode `Alphabetic` property, as `char::is_alphabetic` answers.
pub uninterp spec fn alphabetic_of(c: char) -> bool;

/// Whether `c` is Unicode-numeric, as `char::is_numeric` answers.
pub uninterp spec fn numeric_of(c: char) -> bool;

/// A code point with the Unicode `White_Space` property.
pub open spec fn is_white_space(c: char) -> bool {
    let x = c as u32;
    (0x09 <= x <= 0x0D) || x == 0x20 || x == 0x85 || x == 0xA0 || x == 0x1680 || (0x2000 <= x
        <= 0x200A) || x == 0x2028 || x == 0x2029 || x == 0x202F || x == 0x205F || x == 0x3000
}

/// Relies on `nom_unicode::is_alphabetic`, which returns `char::is_alphabetic`:
/// a function of the character alone.
#[verifier::external_body]
pub(crate) fn is_letter(c: char) -> (r: bool)
    ensures
        r == alphabetic_of(c),
{
    nom_unicode::is_alphabetic(c)
}

/// Relies on `nom_unicode::is_numeric`, which returns `char::is_numeric`:
/// a function of the character alone.
#[verifier::external_body]
pub(crate) fn is_digit(c: char) -> (r: bool)
    ensures
        r == numeric_of(c),
{
    nom_unicode::is_numeric(c)
}

/// Relies on `nom_unicode::is_alphanumeric`, which returns
/// `char::is_alphanumeric`: alphabetic or numeric.
#[verifier::external_body]
pub(crate) fn is_letter_or_digit(c: char) -> (r: bool)
    ensures
        r == (alphabetic_of(c) || numeric_of(c)),
{
    nom_unicode::is_alphanumeric(c)
}

/// Relies on `nom_unicode::is_whitespace`, which returns
/// `char::is_whitespace`: the Unicode `White_Space` property.
#[verifier::external_body]
pub(crate) fn is_space(c: char) -> (r: bool)
    ensures
        r == is_white_space(c),
{
    nom_unicode::is_whitespace(c)
}

} // verus!
