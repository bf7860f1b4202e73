//! References to the nodes of a set trie.
use vstd::prelude::*;
use crate::label::LabelKind;
use crate::map::node_ref::NodeRef;
use crate::search::with_prefix;
use crate::token::TrieToken;
use super::trie::{
    lemma_lists_labels, lemma_prefix_labels, lists_labels_below, prefix_labels, prefix_of_some,
    strict_prefix_of_some, views_of,
};

verus! {

/// A reference to a node of a set trie.
pub struct KeyRef<'t, Token: TrieToken>(pub(crate) NodeRef<'t, Token, ()>);

impl<'t, Token: TrieToken> Clone for KeyRef<'t, Token> {
    fn clone(&self) -> (r: Self)
        ensures
            r == *self,
    {
        KeyRef(self.0.clone())
    }
}

impl<'t, Token: TrieToken> KeyRef<'t, Token> {
    /// The reference to the node `n` refers to.
    pub(crate) fn of_node(n: NodeRef<'t, Token, ()>) -> (r: Self)
        ensures
            r.key_label() == n.node_label(),
            r.trie_keys() == n.trie_map().dom(),
    {
        KeyRef(n)
    }

    /// The label of this node.
    pub closed spec fn key_label(self) -> Seq<Token> {
        self.0.node_label()
    }

    /// The labels held by the trie this node belongs to.
    pub closed spec fn trie_keys(self) -> Set<Seq<Token>> {
        self.0.trie_map().dom()
    }

    /// Returns the kind of this node's label.
    pub fn kind(&self) -> (r: LabelKind)
        requires
            prefix_of_some(self.trie_keys(), self.key_label()),
        ensures
            r == LabelKind::of(
                strict_prefix_of_some(self.trie_keys(), self.key_label()),
                self.trie_keys().contains(self.key_label()),
            ),
    {
        self.0.kind()
    }

    /// Returns `true` if this node's label is held.
    pub fn is_exact(&self) -> (r: bool)
        ensures
            r == self.trie_keys().contains(self.key_label()),
    {
        self.0.is_exact()
    }

    /// Returns `true` if some label held properly extends this node's label.
    pub fn is_prefix(&self) -> (r: bool)
        ensures
            r == strict_prefix_of_some(self.trie_keys(), self.key_label()),
    {
        self.0.is_prefix()
    }

    /// Returns this node's child nodes, in token order.
    pub fn children(&self) -> (r: Vec<KeyRef<'t, Token>>)
        ensures
            forall|a: int|
                0 <= a < r@.len() ==> (#[trigger] r@[a]).trie_keys() == self.trie_keys()
                    && r@[a].key_label().drop_last() == self.key_label()
                    && prefix_of_some(self.trie_keys(), r@[a].key_label())
                    && r@[a].key_label().len() == self.key_label().len() + 1,
            forall|a: int, b: int|
                0 <= a < b < r@.len() ==> (#[trigger] r@[a]).key_label().last().order() < (
                #[trigger] r@[b]).key_label().last().order(),
            forall|k: Seq<Token>|
                #![trigger self.trie_keys().contains(k)]
                self.trie_keys().contains(k) && self.key_label().is_prefix_of(k) && k.len()
                    > self.key_label().len() ==> exists|a: int|
                    0 <= a < r@.len() && (#[trigger] r@[a]).key_label().is_prefix_of(k),
    {
        let kids = self.0.children();
        let mut r: Vec<KeyRef<'t, Token>> = Vec::new();
        let mut k: usize = 0;
        while k < kids.len()
            invariant
                0 <= k <= kids.len(),
                r@.len() == k,
                forall|a: int| 0 <= a < k ==> (#[trigger] r@[a]).0 == kids@[a],
            decreases kids.len() - k,
        {
            r.push(KeyRef(kids[k].clone()));
            k = k + 1;
        }
        proof {
            assert forall|k: Seq<Token>|
                #![trigger self.trie_keys().contains(k)]
                self.trie_keys().contains(k) && self.key_label().is_prefix_of(k) && k.len()
                    > self.key_label().len() implies exists|a: int|
                    0 <= a < r@.len() && (#[trigger] r@[a]).key_label().is_prefix_of(k) by {
                assert(self.0.trie_map().dom().contains(k));
                let a = choose|a: int| 0 <= a < kids@.len() && (#[trigger] kids@[a]).node_label().is_prefix_of(k);
                assert(r@[a].0 == kids@[a]);
            }
        }
        r
    }

    /// Returns the token of this node: the last of its label. The root has none.
    pub fn token(&self) -> (r: &'t Token)
        requires
            self.key_label().len() > 0,
        ensures
            *r == self.key_label().last(),
    {
        self.0.token()
    }

    /// Returns the nodes on the path from this node up to the root, this node
    /// first and the root's child last (the root itself is left out).
    pub fn range(&self) -> (r: Vec<KeyRef<'t, Token>>)
        ensures
            r@.len() == self.key_label().len(),
            forall|a: int|
                0 <= a < r@.len() ==> (#[trigger] r@[a]).trie_keys() == self.trie_keys()
                    && r@[a].key_label() == self.key_label().take(self.key_label().len() - a),
    {
        let nodes = self.0.range();
        let mut r: Vec<KeyRef<'t, Token>> = Vec::new();
        let mut k: usize = 0;
        while k < nodes.len()
            invariant
                0 <= k <= nodes.len(),
                r@.len() == k,
                forall|a: int| 0 <= a < k ==> (#[trigger] r@[a]).0 == nodes@[a],
            decreases nodes.len() - k,
        {
            r.push(KeyRef(nodes[k].clone()));
            k = k + 1;
        }
        r
    }

    /// Returns the label of this node.
    pub fn label(&self) -> (r: Vec<Token>)
        ensures
            r@ == self.key_label(),
    {
        self.0.label()
    }

    /// Returns the labels held that are prefixes of this node's label,
    /// shortest first.
    ///
    /// e.g. "apple" → "a", "app", "apple"
    pub fn prefixes_of(&self) -> (r: Vec<Vec<Token>>)
        ensures
            views_of(r@) == prefix_labels(
                self.trie_keys(),
                self.key_label(),
                self.key_label().len() as int,
            ),
    {
        let it = self.0.prefixes_of();
        let r = it.labels();
        proof {
            lemma_prefix_labels(self.0.trie_map(), self.key_label(), self.key_label().len() as int);
            assert(views_of(r@) =~= it@.map_values(|p: (Seq<Token>, ())| p.0));
        }
        r
    }

    /// Returns the labels held that properly extend this node's label, each
    /// as the tokens that follow it, in lexicographic order.
    ///
    /// e.g. "app" → "le" (as in "apple"), "lication"
    pub fn suffixes_of(&self) -> (r: Vec<Vec<Token>>)
        ensures
            lists_labels_below(
                self.trie_keys(),
                self.key_label(),
                true,
                views_of(r@).map_values(|s: Seq<Token>| self.key_label() + s),
            ),
    {
        let it = self.0.suffixes_of();
        let r = it.labels();
        proof {
            lemma_lists_labels(
                self.0.trie_map(),
                self.key_label(),
                true,
                with_prefix(self.key_label(), it@),
                views_of(r@).map_values(|s: Seq<Token>| self.key_label() + s),
            );
        }
        r
    }

    /// Returns the labels held that start with this node's label, in
    /// lexicographic order.
    ///
    /// e.g. "app" → "app", "apple", "application"
    pub fn starts_with(&self) -> (r: Vec<Vec<Token>>)
        ensures
            lists_labels_below(self.trie_keys(), self.key_label(), false, views_of(r@)),
    {
        let it = self.0.starts_with();
        let r = it.labels();
        proof {
            lemma_lists_labels(self.0.trie_map(), self.key_label(), false, it@, views_of(r@));
        }
        r
    }
}

} // verus!
