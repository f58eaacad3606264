//! Unicode character data, reached through trusted declarations.
//!
//! Lowercase mappings, canonical and compatibility decompositions, canonical
//! composition and the nonspacing-mark category are all fixed tables indexed
//! by the character alone, so each result is given a name here and the
//! contracts of the normalizers speak of those names.

use vstd::prelude::*;

verus! {

/// The lowercase mapping of a character, one or more characters.
pub uninterp spec fn lowercase_chars(c: char) -> Seq<char>;

/// The canonical (NFD) decomposition of a character, one or more characters.
pub uninterp spec fn canonical_decomposition(c: char) -> Seq<char>;

/// The compatibility (NFKD) decomposition of a character, one or more
/// characters.
pub uninterp spec fn compatibility_decomposition(c: char) -> Seq<char>;

/// Whether a character is in the Unicode nonspacing mark ("Mn") category.
pub uninterp spec fn is_nonspacing_mark(c: char) -> bool;

/// The canonical composition of two characters, if they compose.
pub uninterp spec fn compose_chars(a: char, b: char) -> Option<char>;

/// Relies on `char::to_lowercase`: yields the lowercase mapping of `c` as
/// one or more characters, determined by `c` alone.
#[verifier::external_body]
pub(crate) fn to_lowercase_chars(c: char) -> (r: Vec<char>)
    ensures
        r@ == lowercase_chars(c),
        r@.len() >= 1,
{
    let mut v = Vec::new();
    for lc in c.to_lowercase() {
        v.push(lc);
    }
    v
}

/// Relies on `unicode_normalization::char::decompose_canonical`: emits the
/// canonical decomposition of `c`, one or more characters, determined by `c`
/// alone.
#[verifier::external_body]
pub(crate) fn decompose_canonical_chars(c: char) -> (r: Vec<char>)
    ensures
        r@ == canonical_decomposition(c),
        r@.len() >= 1,
{
    let mut v = Vec::new();
    unicode_normalization::char::decompose_canonical(c, |d| v.push(d));
    v
}

/// Relies on `unicode_normalization::char::decompose_compatible`: emits the
/// compatibility decomposition of `c`, one or more characters, determined by
/// `c` alone.
#[verifier::external_body]
pub(crate) fn decompose_compatible_chars(c: char) -> (r: Vec<char>)
    ensures
        r@ == compatibility_decomposition(c),
        r@.len() >= 1,
{
    let mut v = Vec::new();
    unicode_normalization::char::decompose_compatible(c, |d| v.push(d));
    v
}

/// Relies on `unicode_normalization::char::compose`: canonically composes
/// two characters if possible, determined by the pair alone.
#[verifier::external_body]
pub(crate) fn compose_pair(a: char, b: char) -> (r: Option<char>)
    ensures
        r == compose_chars(a, b),
{
    unicode_normalization::char::compose(a, b)
}

/// Relies on `unicode_categories::UnicodeCategories::is_mark_nonspacing`:
/// category lookup in a fixed table, determined by `c` alone.
#[verifier::external_body]
pub(crate) fn is_mark_nonspacing(c: char) -> (r: bool)
    ensures
        r == is_nonspacing_mark(c),
{
    unicode_categories::UnicodeCategories::is_mark_nonspacing(c)
}

} // verus!
