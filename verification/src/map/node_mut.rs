//! Mutable references to trie nodes.
use vstd::prelude::*;
use crate::label::Label;
use crate::token::TrieToken;
use super::node_ref::NodeRef;
use super::trie::{prefix_of_some_key, strict_prefix_of_some_key, Trie};
use crate::label::LabelKind;

verus! {

/// A mutable reference to a trie node: the values of the trie can be changed
/// through it, its shape cannot.
pub struct NodeMut<'t, Token: TrieToken, Value> {
    pub trie: &'t mut Trie<Token, Value>,
    pub node_num: u64,
}

impl<'t, Token: TrieToken, Value> NodeMut<'t, Token, Value> {
    /// The node number names a node of the trie.
    pub closed spec fn wf(self) -> bool {
        1 <= self.node_num <= (*self.trie).size() + 1
    }

    /// The contents of the trie this node belongs to.
    pub open spec fn trie_map(self) -> Map<Seq<Token>, Value> {
        (*self.trie)@
    }

    /// The label of this node.
    pub closed spec fn node_label(self) -> Seq<Token> {
        (*self.trie).label(self.node_num - 1)
    }

    /// Converts to an immutable node reference.
    pub fn as_ref(&self) -> (r: NodeRef<'_, Token, Value>)
        requires
            self.wf(),
        ensures
            r.node_label() == self.node_label(),
            r.trie_map() == self.trie_map(),
    {
        proof {
            use_type_invariant(&*self.trie);
        }
        NodeRef::at(&*self.trie, self.node_num)
    }

    /// Returns the kind of this node's label.
    pub fn kind(&self) -> (r: LabelKind)
        requires
            self.wf(),
            prefix_of_some_key(self.trie_map(), self.node_label()),
        ensures
            r == LabelKind::of(
                strict_prefix_of_some_key(self.trie_map(), self.node_label()),
                self.trie_map().dom().contains(self.node_label()),
            ),
    {
        self.as_ref().kind()
    }

    /// Returns `true` if this node's label is a key.
    pub fn is_exact(&self) -> (r: bool)
        requires
            self.wf(),
        ensures
            r == self.trie_map().dom().contains(self.node_label()),
    {
        self.as_ref().is_exact()
    }

    /// Returns `true` if some key properly extends this node's label.
    pub fn is_prefix(&self) -> (r: bool)
        requires
            self.wf(),
        ensures
            r == strict_prefix_of_some_key(self.trie_map(), self.node_label()),
    {
        self.as_ref().is_prefix()
    }

    /// Returns the value of this node's label, if it is a key.
    pub fn value(&self) -> (r: Option<&Value>)
        requires
            self.wf(),
        ensures
            r is Some == self.trie_map().dom().contains(self.node_label()),
            r is Some ==> *r.unwrap() == self.trie_map()[self.node_label()],
    {
        self.as_ref().value()
    }

    /// Returns the token of this node: the last of its label. The root has none.
    pub fn token(&self) -> (r: &Token)
        requires
            self.wf(),
            self.node_label().len() > 0,
        ensures
            *r == self.node_label().last(),
    {
        self.as_ref().token()
    }

    /// Returns this node's child nodes, in token order.
    pub fn children(&self) -> (r: Vec<NodeRef<'_, Token, Value>>)
        requires
            self.wf(),
        ensures
            forall|a: int|
                0 <= a < r@.len() ==> (#[trigger] r@[a]).trie_map() == self.trie_map()
                    && r@[a].node_label().drop_last() == self.node_label()
                    && prefix_of_some_key(self.trie_map(), r@[a].node_label())
                    && r@[a].node_label().len() == self.node_label().len() + 1,
            forall|a: int, b: int|
                0 <= a < b < r@.len() ==> (#[trigger] r@[a]).node_label().last().order() < (
                #[trigger] r@[b]).node_label().last().order(),
            forall|k: Seq<Token>|
                #![trigger self.trie_map().dom().contains(k)]
                self.trie_map().dom().contains(k) && self.node_label().is_prefix_of(k) && k.len()
                    > self.node_label().len() ==> exists|a: int|
                    0 <= a < r@.len() && (#[trigger] r@[a]).node_label().is_prefix_of(k),
    {
        self.as_ref().children()
    }

    /// Returns a mutable reference to the value of this node's label, if it
    /// is a key.
    pub fn value_mut(&mut self) -> (r: Option<&mut Value>)
        requires
            old(self).wf(),
        ensures
            final(self).node_num == old(self).node_num,
            *final(final(self).trie) == *final(old(self).trie),
            final(self).wf(),
            final(self).node_label() == old(self).node_label(),
            r is Some == old(self).trie_map().dom().contains(old(self).node_label()),
            r is Some ==> *r.unwrap() == old(self).trie_map()[old(self).node_label()]
                && final(self).trie_map() == old(self).trie_map().insert(
                old(self).node_label(),
                *final(r.unwrap()),
            ),
            r is None ==> final(self).trie_map() == old(self).trie_map(),
    {
        proof {
            use_type_invariant(&*self.trie);
        }
        let num = self.node_num;
        let trie: &mut Trie<Token, Value> = self.trie;
        let ghost q = trie.label(num - 1);
        proof {
            if num == 1 {
                trie.lemma_view_root();
            } else {
                trie.lemma_view_at(num - 1);
            }
        }
        if num >= 2 {
            match trie.nodes[(num - 2) as usize].value {
                Some(j) => {
                    proof {
                        assert forall|t2: Trie<Token, Value>, x: Value|
                            #![trigger t2@, trie@.insert(q, x)]
                            t2.nodes@ == trie.nodes@ && t2.degs@ == trie.degs@ && t2.labels@
                                == trie.labels@ && t2.values@ == trie.values@.update(j as int, x)
                                implies t2@ == trie@.insert(q, x) by {
                            Trie::lemma_set_value(*trie, t2, num - 1, x);
                        }
                    }
                    Some(&mut trie.values[j])
                },
                None => None,
            }
        } else {
            None
        }
    }
}

impl<Token: TrieToken, Value> Trie<Token, Value> {
    /// Get a mutable node reference for a label: there is one when the label
    /// is empty (the root) or a prefix of some key.
    pub fn get_mut<L: Label<Token>>(&mut self, label: L) -> (r: Option<NodeMut<'_, Token, Value>>)
        ensures
            r is Some == (label.tokens().len() == 0 || prefix_of_some_key(old(self)@, label.tokens())),
            r is Some ==> r.unwrap().wf() && r.unwrap().node_label() == label.tokens()
                && r.unwrap().trie_map() == old(self)@ && final(self)@ == (*final(r.unwrap().trie))@,
            r is None ==> final(self)@ == old(self)@,
    {
        proof {
            use_type_invariant(&*self);
        }
        let q = label.into_tokens();
        match self.get_num(q.as_slice()) {
            Some(num) => {
                proof {
                    if num > 1 {
                        self.lemma_node_prefix(num - 1);
                    } else {
                        self.lemma_label_len(0);
                    }
                }
                Some(NodeMut { trie: self, node_num: num })
            },
            None => {
                proof {
                    self.lemma_not_node(q@);
                    if q@.len() == 0 {
                        assert(self.label(0) == q@);
                    }
                }
                None
            },
        }
    }
}

} // verus!
