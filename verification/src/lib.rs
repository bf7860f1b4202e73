//! A trie built on a LOUDS (level-order unary degree sequence) tree.
use vstd::prelude::*;

pub mod inc_search;
pub mod label;
pub mod lbs;
pub mod louds;
pub mod internal;
pub mod map;
pub mod search;
pub mod set;
pub mod token;

verus! {

} // verus!
