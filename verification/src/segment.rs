//! User-perceived characters.
//!
//! Splitting text into grapheme clusters follows the Unicode segmentation
//! rules, which are far too long to state here. The split is therefore given
//! a name, and the one function that performs it is trusted to return what
//! the name stands for.

use unicode_segmentation::UnicodeSegmentation;
use vstd::prelude::*;

verus! {

/// The extended grapheme clusters of `s`, in order.
pub uninterp spec fn grapheme_clusters(s: Seq<char>) -> Seq<Seq<char>>;

/// The character sequences of a list of string slices.
pub open spec fn texts(units: Seq<&str>) -> Seq<Seq<char>> {
    Seq::new(units.len(), |i: int| units[i]@)
}

/// `units` cuts `s` into non-empty consecutive pieces.
pub open spec fn segments(units: Seq<Seq<char>>, s: Seq<char>) -> bool {
    &&& units.flatten() == s
    &&& forall|i: int| 0 <= i < units.len() ==> (#[trigger] units[i]).len() > 0
}

/// Calls `UnicodeSegmentation::graphemes` with extended clusters and collects
/// what the iterator yields.
///
/// Trusted: the slices returned are the grapheme clusters of `s`; each one is
/// non-empty, and put end to end they give `s` back. The iterator hands out
/// `&s[start..next]` for consecutive boundaries from the start of the string
/// to its end, which is where the last two claims come from.
#[verifier::external_body]
pub(crate) fn split_graphemes<'a>(s: &'a str) -> (units: Vec<&'a str>)
    ensures
        texts(units@) == grapheme_clusters(s@),
        segments(texts(units@), s@),
{
    UnicodeSegmentation::graphemes(s, true).collect()
}

} // verus!
