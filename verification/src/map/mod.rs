//! A trie that maps labels (sequences of tokens) to values.
pub mod node_mut;
pub mod node_ref;
pub mod trie;
pub mod trie_builder;

pub use node_mut::NodeMut;
pub use node_ref::NodeRef;
pub use trie::{Node, Trie};
pub use trie_builder::TrieBuilder;
