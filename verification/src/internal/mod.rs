//! Internal data structures.
pub mod naive_trie;
