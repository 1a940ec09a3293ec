//! Keeps the newest version of each versioned document in a directory listing.
//!
//! A file name that carries a version marker yields a group key (what stands
//! before the marker) and a version token (what the marker holds). Files that
//! share a group key are versions of one document. Numeric tokens are newer than
//! alphabetic ones, numeric tokens go by value, alphabetic ones by ordinary
//! string order. For each group the newest file is retained and the others are
//! to be relocated.

pub mod entry;
pub mod marker;
pub mod plan;
pub mod sorting;
pub mod text;
pub mod token;
pub mod version;
