//! Case folding: the lowercase form under which a search that ignores case
//! compares a line with the query.

use vstd::prelude::*;

verus! {

/// The lowercase form of `text` as `str::to_lowercase` gives it: the
/// lowercase of the whole text by the Unicode rules, the same in every locale.
/// It may differ in length from `text`.
pub uninterp spec fn lowercase(text: Seq<char>) -> Seq<char>;

/// The form of `text` that a search compares: its lowercase form when the
/// search ignores case, `text` itself when it does not.
pub open spec fn folded(text: Seq<char>, ignore_case: bool) -> Seq<char> {
    if ignore_case {
        lowercase(text)
    } else {
        text
    }
}

/// Lowercases `text` with `str::to_lowercase` of the standard library.
///
/// Not proved: that the characters returned are the lowercase form of
/// `text`. The contract only gives that form its name, `lowercase`, which
/// rests on `to_lowercase` depending on nothing but the text it is given.
#[verifier::external_body]
pub(crate) fn lowercased(text: &[char]) -> (lower: Vec<char>)
    ensures
        lower@ == lowercase(text@),
{
    text.iter().collect::<String>().to_lowercase().chars().collect()
}

/// Folds `text` for a search.
pub(crate) fn fold(text: Vec<char>, ignore_case: bool) -> (out: Vec<char>)
    ensures
        out@ == folded(text@, ignore_case),
{
    if ignore_case {
        lowercased(text.as_slice())
    } else {
        text
    }
}

} // verus!
