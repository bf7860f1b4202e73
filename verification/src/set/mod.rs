//! A trie that holds a set of labels (sequences of tokens).
pub mod key_ref;
pub mod trie;
pub mod trie_builder;

pub use key_ref::KeyRef;
pub use trie::Trie;
pub use trie_builder::TrieBuilder;
