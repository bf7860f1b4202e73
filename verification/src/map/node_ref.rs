//! References to trie nodes.
use vstd::prelude::*;
use crate::label::{Label, LabelKind};
use crate::lbs::{deg_sum, lemma_deg_sum_mono};
use crate::search::{lists_keys_below, prefix_keys, with_prefix, PostfixIter, PrefixIter};
use crate::token::TrieToken;
use super::trie::{prefix_of_some_key, strict_prefix_of_some_key, Trie};

verus! {

/// A reference to a trie node.
pub struct NodeRef<'t, Token: TrieToken, Value> {
    pub(crate) trie: &'t Trie<Token, Value>,
    pub(crate) node_num: u64,
}

/// `k` is a key of `m` with prefix `q`, and every key of `m` with prefix `q`
/// has prefix `k`: the key where the keys below `q` start to differ.
pub open spec fn shortest_common_key<Token, Value>(
    m: Map<Seq<Token>, Value>,
    q: Seq<Token>,
    k: Seq<Token>,
) -> bool {
    &&& m.dom().contains(k)
    &&& q.is_prefix_of(k)
    &&& forall|k2: Seq<Token>| m.dom().contains(k2) && q.is_prefix_of(k2) ==> k.is_prefix_of(k2)
}

impl<'t, Token: TrieToken, Value> Clone for NodeRef<'t, Token, Value> {
    fn clone(&self) -> (r: Self)
        ensures
            r == *self,
    {
        proof {
            use_type_invariant(self);
        }
        NodeRef { trie: self.trie, node_num: self.node_num }
    }
}

impl<'t, Token: TrieToken, Value> NodeRef<'t, Token, Value> {
    #[verifier::type_invariant]
    pub(crate) open spec fn inv(self) -> bool {
        1 <= self.node_num <= self.trie.size() + 1
    }

    /// The reference to node `num` of `trie`.
    pub(crate) fn at(trie: &'t Trie<Token, Value>, num: u64) -> (r: Self)
        requires
            trie.wf(),
            1 <= num <= trie.size() + 1,
        ensures
            r.node_label() == trie.label(num - 1),
            r.trie_map() == trie@,
            r.trie == trie,
            r.node_num == num,
    {
        NodeRef { trie, node_num: num }
    }

    /// The label of this node.
    pub closed spec fn node_label(self) -> Seq<Token> {
        self.trie.label(self.node_num - 1)
    }

    /// The contents of the trie this node belongs to.
    pub closed spec fn trie_map(self) -> Map<Seq<Token>, Value> {
        self.trie@
    }

    /// Returns `true` if this node's label is a key.
    pub fn is_exact(&self) -> (r: bool)
        ensures
            r == self.trie_map().dom().contains(self.node_label()),
    {
        proof {
            use_type_invariant(self);
            use_type_invariant(self.trie);
            if self.node_num == 1 {
                self.trie.lemma_view_root();
            } else {
                self.trie.lemma_view_at(self.node_num - 1);
            }
        }
        self.trie.value_at(self.node_num).is_some()
    }

    /// Returns `true` if some key properly extends this node's label.
    pub fn is_prefix(&self) -> (r: bool)
        ensures
            r == strict_prefix_of_some_key(self.trie_map(), self.node_label()),
    {
        proof {
            use_type_invariant(self);
            use_type_invariant(self.trie);
            self.trie.lemma_has_children(self.node_num - 1);
        }
        self.trie.children_nums(self.node_num).len() > 0
    }

    /// Returns the kind of this node's label.
    pub fn kind(&self) -> (r: LabelKind)
        requires
            prefix_of_some_key(self.trie_map(), self.node_label()),
        ensures
            r == LabelKind::of(
                strict_prefix_of_some_key(self.trie_map(), self.node_label()),
                self.trie_map().dom().contains(self.node_label()),
            ),
    {
        let p = self.is_prefix();
        let e = self.is_exact();
        proof {
            if !p && !e {
                let k = choose|k: Seq<Token>|
                    self.trie_map().dom().contains(k) && self.node_label().is_prefix_of(k);
                if k.len() == self.node_label().len() {
                    assert(k =~= self.node_label());
                }
            }
        }
        if p && e {
            LabelKind::PrefixAndExact
        } else if p {
            LabelKind::Prefix
        } else {
            LabelKind::Exact
        }
    }

    /// Returns `Some(&Value)` if this node's label is a key.
    pub fn value(&self) -> (r: Option<&'t Value>)
        ensures
            r is Some == self.trie_map().dom().contains(self.node_label()),
            r is Some ==> *r.unwrap() == self.trie_map()[self.node_label()],
    {
        proof {
            use_type_invariant(self);
            use_type_invariant(self.trie);
            if self.node_num == 1 {
                self.trie.lemma_view_root();
            } else {
                self.trie.lemma_view_at(self.node_num - 1);
            }
        }
        self.trie.value_at(self.node_num)
    }

    /// Returns the token of this node: the last of its label. The root has none.
    pub fn token(&self) -> (r: &'t Token)
        requires
            self.node_label().len() > 0,
        ensures
            *r == self.node_label().last(),
    {
        proof {
            use_type_invariant(self);
            use_type_invariant(self.trie);
            self.trie.lemma_label_len(self.node_num - 1);
            self.trie.lemma_owner(self.node_num - 1);
        }
        self.trie.token_at(self.node_num)
    }

    /// Returns this node's child nodes, in token order.
    pub fn children(&self) -> (r: Vec<NodeRef<'t, Token, Value>>)
        ensures
            forall|a: int|
                0 <= a < r@.len() ==> (#[trigger] r@[a]).trie_map() == self.trie_map()
                    && r@[a].node_label().drop_last() == self.node_label()
                    && prefix_of_some_key(self.trie_map(), r@[a].node_label())
                    && r@[a].node_label().len() == self.node_label().len() + 1,
            forall|a: int, b: int|
                0 <= a < b < r@.len() ==> (#[trigger] r@[a]).node_label().last().order() < (
                #[trigger] r@[b]).node_label().last().order(),
            forall|k: Seq<Token>|
                #![trigger self.trie_map().dom().contains(k)]
                self.trie_map().dom().contains(k) && self.node_label().is_prefix_of(k) && k.len()
                    > self.node_label().len() ==> exists|a: int|
                    0 <= a < r@.len() && (#[trigger] r@[a]).node_label().is_prefix_of(k),
    {
        proof {
            use_type_invariant(self);
            use_type_invariant(self.trie);
        }
        let trie = self.trie;
        let ghost v = self.node_num - 1;
        let kids = trie.children_nums(self.node_num);
        let mut r: Vec<NodeRef<'t, Token, Value>> = Vec::new();
        let mut k: usize = 0;
        proof {
            lemma_deg_sum_mono(trie.degs@, v + 1, trie.size() + 1);
            assert(deg_sum(trie.degs@, v + 1) == deg_sum(trie.degs@, v) + trie.deg(v));
        }
        while k < kids.len()
            invariant
                trie.wf(),
                trie == self.trie,
                v == self.node_num - 1,
                0 <= v <= trie.size(),
                kids.len() == trie.deg(v),
                forall|t: int| 0 <= t < kids.len() ==> kids[t] == trie.slot(v, t) + 1,
                deg_sum(trie.degs@, v) + trie.deg(v) <= trie.size(),
                0 <= k <= kids.len(),
                r@.len() == k,
                forall|a: int| 0 <= a < k ==> (#[trigger] r@[a]).trie == trie && r@[a].node_num == kids[a],
            decreases kids.len() - k,
        {
            r.push(NodeRef { trie, node_num: kids[k] });
            k = k + 1;
        }
        proof {
            assert forall|a: int| 0 <= a < r@.len() implies (#[trigger] r@[a]).trie_map() == self.trie_map()
                && r@[a].node_label().drop_last() == self.node_label()
                && prefix_of_some_key(self.trie_map(), r@[a].node_label()) && r@[a].node_label().len()
                == self.node_label().len() + 1 by {
                assert(trie.labels@[trie.slot(v, a)] == trie.labels@[v].push(trie.tok(trie.slot(v, a))));
                trie.lemma_child(v, a);
                trie.lemma_node_prefix(trie.slot(v, a));
            }
            assert forall|a: int, b: int| 0 <= a < b < r@.len() implies (#[trigger] r@[a]).node_label().last().order()
                < (#[trigger] r@[b]).node_label().last().order() by {
                assert(trie.labels@[trie.slot(v, a)] == trie.labels@[v].push(trie.tok(trie.slot(v, a))));
                assert(trie.labels@[trie.slot(v, b)] == trie.labels@[v].push(trie.tok(trie.slot(v, b))));
                assert(trie.tok(trie.slot(v, a)).order() < trie.tok(trie.slot(v, b)).order());
            }
            assert forall|k: Seq<Token>|
                #![trigger self.trie_map().dom().contains(k)]
                self.trie_map().dom().contains(k) && self.node_label().is_prefix_of(k) && k.len()
                    > self.node_label().len() implies exists|a: int|
                    0 <= a < r@.len() && (#[trigger] r@[a]).node_label().is_prefix_of(k) by {
                trie.lemma_view_def(k);
                let w = choose|w: int| trie.key_node(w) && trie.label(w) == k;
                let m = trie.label(v).len() as int;
                let u = trie.lemma_ancestor(w, m + 1);
                assert(trie.label(u).drop_last() =~= trie.label(v));
                let t = trie.lemma_child_slot(v, u);
                assert(r@[t].node_num == kids[t]);
                assert(r@[t].node_label() == trie.label(u));
            }
        }
        r
    }

    /// Returns the nodes on the path from this node up to the root, this node
    /// first and the root's child last (the root itself is left out).
    pub fn range(&self) -> (r: Vec<NodeRef<'t, Token, Value>>)
        ensures
            r@.len() == self.node_label().len(),
            forall|a: int|
                0 <= a < r@.len() ==> (#[trigger] r@[a]).trie_map() == self.trie_map()
                    && r@[a].node_label() == self.node_label().take(self.node_label().len() - a),
    {
        proof {
            use_type_invariant(self);
            use_type_invariant(self.trie);
        }
        let trie = self.trie;
        let ghost l = trie.label(self.node_num - 1);
        let mut r: Vec<NodeRef<'t, Token, Value>> = Vec::new();
        let mut cur = self.node_num;
        proof {
            assert(l.take(l.len() as int) =~= l);
        }
        while cur != 1
            invariant
                trie.wf(),
                trie == self.trie,
                l == self.node_label(),
                1 <= cur <= trie.size() + 1,
                trie.label(cur - 1) == l.take(l.len() - r@.len()),
                r@.len() <= l.len(),
                forall|a: int|
                    0 <= a < r@.len() ==> (#[trigger] r@[a]).trie_map() == self.trie_map()
                        && r@[a].node_label() == l.take(l.len() - a),
            decreases cur,
        {
            proof {
                trie.lemma_label_len((cur - 1) as int);
            }
            r.push(NodeRef::at(trie, cur));
            let p = trie.parent_num(cur);
            proof {
                assert(trie.label(p - 1) =~= l.take(l.len() - r@.len()));
            }
            cur = p;
        }
        proof {
            trie.lemma_label_len(0);
            assert(l.take(l.len() - r@.len()).len() == 0);
        }
        r
    }

    /// Returns the label of this node.
    pub fn label(&self) -> (r: Vec<Token>)
        ensures
            r@ == self.node_label(),
    {
        proof {
            use_type_invariant(self);
            use_type_invariant(self.trie);
            assert(self.trie.label(0) == Seq::<Token>::empty());
        }
        let r = self.trie.label_from(1, self.node_num);
        proof {
            assert(r@ =~= self.node_label());
        }
        r
    }

    /// Returns the keys that start with this node's label, in lexicographic order.
    ///
    /// e.g. "app" → "app", "apple", "application"
    pub fn starts_with(&self) -> (r: PostfixIter<'t, Token, Value>)
        ensures
            lists_keys_below(self.trie_map(), self.node_label(), false, r@),
    {
        proof {
            use_type_invariant(self);
            use_type_invariant(self.trie);
        }
        let trie = self.trie;
        trie.starts_with(self.label())
    }

    /// Returns the keys that properly extend this node's label, as the tokens
    /// that follow it, in lexicographic order.
    ///
    /// e.g. "app" → "le" (as in "apple"), "lication"
    pub fn suffixes_of(&self) -> (r: PostfixIter<'t, Token, Value>)
        ensures
            lists_keys_below(
                self.trie_map(),
                self.node_label(),
                true,
                with_prefix(self.node_label(), r@),
            ),
    {
        let trie = self.trie;
        trie.suffixes_of(self.label())
    }

    /// Returns the keys that are prefixes of this node's label, shortest first.
    ///
    /// e.g. "apple" → "a", "app", "apple"
    pub fn prefixes_of(&self) -> (r: PrefixIter<'t, Token, Value>)
        ensures
            r@.map_values(|p: (Seq<Token>, Value)| p.0) == prefix_keys(
                self.trie_map(),
                self.node_label(),
                self.node_label().len() as int,
            ),
            forall|a: int| 0 <= a < r@.len() ==> (#[trigger] r@[a]).1 == self.trie_map()[r@[a].0],
    {
        let trie = self.trie;
        trie.prefixes_of(self.label())
    }
}

impl<Token: TrieToken, Value> Trie<Token, Value> {
    /// Get the node of a label: there is one when the label is empty (the
    /// root) or a prefix of some key.
    pub fn get<L: Label<Token>>(&self, label: L) -> (r: Option<NodeRef<'_, Token, Value>>)
        ensures
            r is Some == (label.tokens().len() == 0 || prefix_of_some_key(self@, label.tokens())),
            r is Some ==> r.unwrap().node_label() == label.tokens() && r.unwrap().trie_map() == self@,
    {
        proof {
            use_type_invariant(self);
        }
        let q = label.into_tokens();
        match self.get_num(q.as_slice()) {
            Some(num) => {
                proof {
                    if num > 1 {
                        self.lemma_node_prefix(num - 1);
                    } else {
                        self.lemma_label_len(0);
                    }
                }
                Some(NodeRef { trie: self, node_num: num })
            },
            None => {
                proof {
                    self.lemma_not_node(q@);
                    if q@.len() == 0 {
                        assert(self.label(0) == q@);
                    }
                }
                None
            },
        }
    }

    /// The key where the keys that start with `label` start to differ, if
    /// there is one: the key that is a prefix of all of them.
    pub fn path_of<L: Label<Token>>(&self, label: L) -> (r: Option<NodeRef<'_, Token, Value>>)
        ensures
            r is Some == exists|k: Seq<Token>| shortest_common_key(self@, label.tokens(), k),
            r is Some ==> shortest_common_key(self@, label.tokens(), r.unwrap().node_label())
                && r.unwrap().trie_map() == self@,
    {
        proof {
            use_type_invariant(self);
        }
        let q = label.into_tokens();
        let start = self.get_num(q.as_slice());
        if start.is_none() {
            proof {
                self.lemma_not_node(q@);
                if exists|k: Seq<Token>| shortest_common_key(self@, q@, k) {
                    let k = choose|k: Seq<Token>| shortest_common_key(self@, q@, k);
                    assert(prefix_of_some_key(self@, q@));
                }
            }
            return None;
        }
        let mut cur = match start {
            Some(n) => n,
            None => 1,
        };
        while self.value_at(cur).is_none()
            invariant
                self.wf(),
                q@ == label.tokens(),
                1 <= cur <= self.size() + 1,
                q@.is_prefix_of(self.label(cur - 1)),
                forall|k2: Seq<Token>|
                    self@.dom().contains(k2) && q@.is_prefix_of(k2) ==> self.label(cur - 1).is_prefix_of(
                        k2,
                    ),
            decreases self.size() + 1 - cur,
        {
            let ghost v = cur - 1;
            proof {
                if cur == 1 {
                    self.lemma_view_root();
                } else {
                    self.lemma_view_at(v);
                }
            }
            let kids = self.children_nums(cur);
            if kids.len() != 1 {
                proof {
                    if exists|k: Seq<Token>| shortest_common_key(self@, q@, k) {
                        let k = choose|k: Seq<Token>| shortest_common_key(self@, q@, k);
                        // k extends the current label, and properly: the current node holds no value
                        assert(self.label(v).is_prefix_of(k));
                        if k.len() == self.label(v).len() {
                            assert(k =~= self.label(v));
                        }
                        self.lemma_view_def(k);
                        let w = choose|w: int| self.key_node(w) && self.label(w) == k;
                        let m = self.label(v).len() as int;
                        let u = self.lemma_ancestor(w, m + 1);
                        assert(self.label(u).drop_last() =~= self.label(v));
                        let t = self.lemma_child_slot(v, u);
                        // a key below another child does not extend k
                        let t2: int = if t == 0 {
                            1
                        } else {
                            0
                        };
                        lemma_deg_sum_mono(self.degs@, v + 1, self.size() + 1);
                        assert(deg_sum(self.degs@, v + 1) == deg_sum(self.degs@, v) + self.deg(v));
                        if v >= 1 {
                            assert(deg_sum(self.degs@, v) >= v);
                        }
                        let c2 = self.slot(v, t2);
                        let w2 = self.lemma_key_below(c2);
                        self.lemma_view_at(w2);
                        assert(self.labels@[self.slot(v, t2)] == self.labels@[v].push(
                            self.tok(self.slot(v, t2)),
                        ));
                        assert(self.labels@[self.slot(v, t)] == self.labels@[v].push(
                            self.tok(self.slot(v, t)),
                        ));
                        crate::search::lemma_prefix_trans(q@, self.label(v), self.label(c2));
                        crate::search::lemma_prefix_trans(q@, self.label(c2), self.label(w2));
                        assert(k.is_prefix_of(self.label(w2)));
                        assert(k.len() > m);
                        assert(self.label(u) == k.take(m + 1));
                        assert(self.label(u)[m] == self.tok(self.slot(v, t)));
                        assert(k[m] == self.tok(self.slot(v, t)));
                        assert(k[m] == self.label(w2).subrange(0, k.len() as int)[m]);
                        assert(self.label(c2).is_prefix_of(self.label(w2)));
                        assert(self.label(c2)[m] == self.tok(self.slot(v, t2)));
                        assert(self.label(c2)[m] == self.label(w2).subrange(0, self.label(c2).len() as int)[m]);
                        assert(self.label(w2)[m] == self.label(c2)[m]);
                        assert(self.label(w2)[m] == self.tok(self.slot(v, t2)));
                        assert(0 <= t2 < self.deg(v));
                        assert(self.tok(self.slot(v, t)) == self.tok(self.slot(v, t2)));
                        if t < t2 {
                            assert(self.tok(self.slot(v, t)).order() < self.tok(self.slot(v, t2)).order());
                        } else {
                            assert(self.tok(self.slot(v, t2)).order() < self.tok(self.slot(v, t)).order());
                        }
                    }
                }
                return None;
            }
            let c = kids[0];
            proof {
                lemma_deg_sum_mono(self.degs@, v + 1, self.size() + 1);
                assert(deg_sum(self.degs@, v + 1) == deg_sum(self.degs@, v) + self.deg(v));
                if v >= 1 {
                    assert(deg_sum(self.degs@, v) >= v);
                }
                assert(self.labels@[self.slot(v, 0)] == self.labels@[v].push(self.tok(self.slot(v, 0))));
                crate::search::lemma_prefix_trans(q@, self.label(v), self.label(c - 1));
                assert forall|k2: Seq<Token>|
                    self@.dom().contains(k2) && q@.is_prefix_of(k2) implies self.label(c - 1).is_prefix_of(
                        k2,
                    ) by {
                    assert(self.label(v).is_prefix_of(k2));
                    if k2.len() == self.label(v).len() {
                        assert(k2 =~= self.label(v));
                    }
                    self.lemma_view_def(k2);
                    let w = choose|w: int| self.key_node(w) && self.label(w) == k2;
                    let m = self.label(v).len() as int;
                    let u = self.lemma_ancestor(w, m + 1);
                    assert(self.label(u).drop_last() =~= self.label(v));
                    let t = self.lemma_child_slot(v, u);
                    assert(t == 0);
                    assert(self.label(u) =~= k2.take(m + 1));
                }
            }
            cur = c;
        }
        proof {
            self.lemma_view_at(cur - 1);
            if cur == 1 {
                self.lemma_view_root();
            }
            assert(shortest_common_key(self@, q@, self.label(cur - 1)));
        }
        Some(NodeRef { trie: self, node_num: cur })
    }
}

} // verus!
