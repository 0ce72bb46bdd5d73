//! An approximate string matching index: a BK-tree over edit distances
//! measured in Unicode grapheme clusters.
pub mod bk_tree;
pub mod edit_distance;
pub mod fuzzy_matching;
pub mod graphemes;
