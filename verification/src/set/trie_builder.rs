//! Builds a set trie one label at a time.
use vstd::prelude::*;
use crate::label::Label;
use crate::token::TrieToken;
use super::trie::Trie;

verus! {

/// A trie builder for [Trie].
pub struct TrieBuilder<Token: TrieToken>(pub(crate) crate::map::TrieBuilder<Token, ()>);

impl<Token: TrieToken> View for TrieBuilder<Token> {
    type V = Set<Seq<Token>>;

    /// The labels inserted so far.
    closed spec fn view(&self) -> Set<Seq<Token>> {
        self.0@.dom()
    }
}

impl<Token: TrieToken> TrieBuilder<Token> {
    /// Return an empty [TrieBuilder].
    pub fn new() -> (r: Self)
        ensures
            r@ == Set::<Seq<Token>>::empty(),
    {
        let r = TrieBuilder(crate::map::TrieBuilder::new());
        proof {
            assert(r@ =~= Set::<Seq<Token>>::empty());
        }
        r
    }

    /// Add a label. The empty label cannot be held.
    pub fn insert<L: Label<Token>>(&mut self, label: L)
        requires
            label.tokens().len() > 0,
        ensures
            final(self)@ == old(self)@.insert(label.tokens()),
    {
        let ghost q = label.tokens();
        self.0.insert(label, ());
        proof {
            assert(self@ =~= old(self)@.insert(q));
        }
    }

    /// Build a [Trie] holding exactly the inserted labels.
    pub fn build(self) -> (r: Trie<Token>)
        ensures
            r@ == self@,
            r.0.well_formed(),
    {
        let TrieBuilder(b) = self;
        Trie(b.build())
    }
}

impl<Token: TrieToken> Default for TrieBuilder<Token> {
    fn default() -> (r: Self)
        ensures
            r@ == Set::<Seq<Token>>::empty(),
    {
        Self::new()
    }
}

} // verus!
