//! Splitting text into extended grapheme clusters, the unit in which edit
//! distances are counted.
use unicode_segmentation::UnicodeSegmentation;
use vstd::prelude::*;

verus! {

/// The extended grapheme clusters of `s`, in order, as Unicode Standard
/// Annex #29 draws their boundaries.
pub uninterp spec fn clusters_of(s: Seq<char>) -> Seq<Seq<char>>;

/// The characters of each string, in order.
pub open spec fn views_of(v: Seq<String>) -> Seq<Seq<char>> {
    v.map_values(|g: String| g@)
}

/// Relies on unicode_segmentation's `UnicodeSegmentation::graphemes` with
/// extended clusters: the slices it yields run from the start of `s` to its
/// end, one after the other, so together they spell `s`.
#[verifier::external_body]
pub(crate) fn split_clusters(s: &str) -> (r: Vec<String>)
    ensures
        views_of(r@) == clusters_of(s@),
        views_of(r@).flatten() == s@,
{
    s.graphemes(true).map(|g| g.to_string()).collect()
}

} // verus!
