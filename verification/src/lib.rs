//! An abbreviation-style term index: learned multi-word terms are stored in a
//! character trie and looked up by exact, prefix-bounded, or fuzzy queries.
//! A query is matched against every word of a term and against the term's
//! compacted full text, so a short unbroken fragment can resolve to the full
//! term whose words it abbreviates.

pub mod dedup;
pub mod dict;
pub mod laws;
pub mod model;
pub mod text;
pub mod trie;

pub use dict::WordDict;
pub use trie::{FuzzPriority, SearchKind, WordListNode};
