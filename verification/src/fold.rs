//! Lowercase forms of texts.

use vstd::prelude::*;

verus! {

/// The lowercase form of `text`: the characters of the string that
/// `str::to_lowercase` returns for the string of the characters `text`.
///
/// The mapping follows the Unicode character database and is not written out
/// here. It may change the number of characters, and what it does to one
/// character may depend on its neighbours.
pub uninterp spec fn lowercase(text: Seq<char>) -> Seq<char>;

/// Returns the lowercase form of `text`.
///
/// This calls `str::to_lowercase` and is not verified. The contract claims one
/// thing of that function: its result depends on the characters of `text`
/// alone.
#[verifier::external_body]
pub(crate) fn to_lowercase(text: &str) -> (folded: String)
    ensures
        folded@ == lowercase(text@),
{
    text.to_lowercase()
}

} // verus!
