//! A trie map stores a value with each label (a sequence of tokens).
use vstd::prelude::*;
use louds_rs::Louds;
use crate::lbs::{
    count_bit, deg_sum, degrees_wf, kth_pos, level_order_bits, lemma_deg_sum_mono,
    lemma_lob_block, lemma_lob_is_lbs, lemma_lob_kth_one, lemma_lob_kth_zero, lemma_lob_run,
    lemma_owner, lemma_pos_unique, lemma_slot_unique,
};
use crate::louds::{
    louds_bits, louds_child_to_parent, louds_children, louds_clone, louds_node_num_to_index,
};
use crate::token::{
    lemma_lex_branch, lemma_lex_push, lemma_level_lt_asymmetric, lemma_sorted_unique_by, level_lt,
    occurs_in, TrieToken,
};
use crate::label::Label;
use super::trie_builder::TrieBuilder;

verus! {

/// A trie node below the root: the token on the edge into it, and what the
/// label that ends here holds, if it is a key.
pub struct Node<Token, Value> {
    pub(crate) token: Token,
    pub(crate) value: Option<Value>,
}

/// A trie for labels (sequences of `Token`s); each label has an associated `Value`.
///
/// The shape is a LOUDS tree: node numbers follow level order, with the root
/// as node 1; `nodes[k - 2]` describes node `k >= 2`. A node that ends a key
/// holds the index of its value in `values`.
pub struct Trie<Token: TrieToken, Value> {
    pub(crate) louds: Louds,
    pub(crate) nodes: Vec<Node<Token, usize>>,
    pub(crate) values: Vec<Value>,
    /// The number of children of each node, in level order (index 0 is the root).
    pub(crate) degs: Ghost<Seq<nat>>,
    /// The label of each node, in level order (index 0 is the root).
    pub(crate) labels: Ghost<Seq<Seq<Token>>>,
}

/// Node `a`'s `t`-th child, in level order (0 is the root).
pub(crate) open spec fn lo_slot(degs: Seq<nat>, a: int, t: int) -> int {
    1 + deg_sum(degs, a) + t
}

/// The token on the edge into node `v >= 1`.
pub(crate) open spec fn tok_at<Token, Value>(nodes: Seq<Node<Token, Value>>, v: int) -> Token {
    nodes[v - 1].token
}

/// The LOUDS bits `bits` encode the degrees `degs` of the nodes in level
/// order; each child's label extends its parent's by its token; siblings are
/// strictly ordered by token; every node below the root ends a key or has
/// children.
pub(crate) open spec fn shape_wf<Token: TrieToken, Value>(
    bits: Seq<bool>,
    nodes: Seq<Node<Token, Value>>,
    degs: Seq<nat>,
    labels: Seq<Seq<Token>>,
) -> bool {
    let n = nodes.len() as int;
    &&& degs.len() == n + 1
    &&& degrees_wf(degs)
    &&& bits == level_order_bits(degs)
    &&& 2 * n + 3 <= usize::MAX
    &&& labels.len() == n + 1
    &&& labels[0] == Seq::<Token>::empty()
    &&& forall|i: int, t: int|
        0 <= i <= n && 0 <= t < degs[i] ==> #[trigger] labels[lo_slot(degs, i, t)] == labels[i].push(
            tok_at(nodes, lo_slot(degs, i, t)),
        )
    &&& forall|i: int, t1: int, t2: int|
        0 <= i <= n && 0 <= t1 < t2 < degs[i] ==> (#[trigger] tok_at(nodes, lo_slot(degs, i, t1))).order()
            < (#[trigger] tok_at(nodes, lo_slot(degs, i, t2))).order()
    &&& forall|v: int| 1 <= v <= n ==> #[trigger] degs[v] > 0 || nodes[v - 1].value is Some
}

/// The value indices that key nodes hold are in range and distinct.
pub(crate) open spec fn slots_wf<Token>(nodes: Seq<Node<Token, usize>>, n_values: int) -> bool {
    &&& forall|i: int|
        0 <= i < nodes.len() && (#[trigger] nodes[i]).value is Some ==> nodes[i].value.unwrap() < n_values
    &&& forall|i: int, j: int|
        0 <= i < nodes.len() && 0 <= j < nodes.len() && i != j && (#[trigger] nodes[i]).value is Some
            && (#[trigger] nodes[j]).value is Some ==> nodes[i].value.unwrap() != nodes[j].value.unwrap()
}

/// `q` is a prefix of some key of `m`.
pub open spec fn prefix_of_some_key<Token, Value>(m: Map<Seq<Token>, Value>, q: Seq<Token>) -> bool {
    exists|k: Seq<Token>| m.dom().contains(k) && q.is_prefix_of(k)
}

/// `q` is a proper prefix of some key of `m`.
pub open spec fn strict_prefix_of_some_key<Token, Value>(m: Map<Seq<Token>, Value>, q: Seq<Token>) -> bool {
    exists|k: Seq<Token>| m.dom().contains(k) && q.is_prefix_of(k) && k.len() > q.len()
}

/// The map that inserting `items` in order, one after the other, yields.
pub open spec fn map_of_pairs<Token, Value>(items: Seq<(Seq<Token>, Value)>) -> Map<Seq<Token>, Value>
    decreases items.len(),
{
    if items.len() == 0 {
        Map::empty()
    } else {
        map_of_pairs(items.drop_last()).insert(items.last().0, items.last().1)
    }
}

/// The map built from `(label, value)` pairs holds exactly the labels that
/// were paired, each with the value of its last pair: a later insert of a
/// label replaces its value.
pub proof fn lemma_map_of_pairs<Token, Value>(items: Seq<(Seq<Token>, Value)>, k: Seq<Token>)
    ensures
        map_of_pairs(items).dom().contains(k) == exists|i: int|
            0 <= i < items.len() && #[trigger] items[i].0 == k,
        map_of_pairs(items).dom().contains(k) ==> exists|i: int|
            #![trigger items[i]]
            0 <= i < items.len() && items[i].0 == k && map_of_pairs(items)[k] == items[i].1 && forall|
                j: int,
            | i < j < items.len() ==> #[trigger] items[j].0 != k,
    decreases items.len(),
{
    if items.len() > 0 {
        let init = items.drop_last();
        lemma_map_of_pairs(init, k);
        let n = items.len() - 1;
        if items[n].0 == k {
            assert(items[n].0 == k);
        } else {
            if map_of_pairs(init).dom().contains(k) {
                let i = choose|i: int|
                    #![trigger init[i]]
                    0 <= i < init.len() && init[i].0 == k && map_of_pairs(init)[k] == init[i].1 && forall|
                        j: int,
                    | i < j < init.len() ==> #[trigger] init[j].0 != k;
                assert(items[i] == init[i]);
                assert forall|j: int| i < j < items.len() implies #[trigger] items[j].0 != k by {
                    if j < n {
                        assert(items[j] == init[j]);
                    }
                }
            }
            if exists|i: int| 0 <= i < items.len() && #[trigger] items[i].0 == k {
                let i = choose|i: int| 0 <= i < items.len() && #[trigger] items[i].0 == k;
                assert(init[i] == items[i]);
            }
        }
    }
}

impl<Token: TrieToken, Value> View for Trie<Token, Value> {
    type V = Map<Seq<Token>, Value>;

    /// The label of every node that holds a value, mapped to that value.
    closed spec fn view(&self) -> Map<Seq<Token>, Value> {
        Map::new(
            |k: Seq<Token>| k.len() > 0 && exists|v: int| self.key_node(v) && self.label(v) == k,
            |k: Seq<Token>| self.val(choose|v: int| self.key_node(v) && self.label(v) == k).unwrap(),
        )
    }
}

impl<Token: TrieToken, Value> Trie<Token, Value> {
    /// The number of nodes below the root.
    pub(crate) open spec fn size(self) -> int {
        self.nodes@.len() as int
    }

    /// Node `i`'s `t`-th child, in level order (0 is the root).
    pub(crate) open spec fn slot(self, i: int, t: int) -> int {
        lo_slot(self.degs@, i, t)
    }

    pub(crate) open spec fn deg(self, i: int) -> nat {
        self.degs@[i]
    }

    pub(crate) open spec fn tok(self, v: int) -> Token {
        tok_at(self.nodes@, v)
    }

    pub(crate) open spec fn val(self, v: int) -> Option<Value> {
        match self.nodes@[v - 1].value {
            Some(j) => Some(self.values@[j as int]),
            None => None,
        }
    }

    pub(crate) open spec fn label(self, v: int) -> Seq<Token> {
        self.labels@[v]
    }

    /// Node `v` (level order, 0 is the root) ends a key.
    pub(crate) open spec fn key_node(self, v: int) -> bool {
        1 <= v <= self.size() && self.val(v) is Some
    }

    /// Some node has label `q`.
    pub(crate) open spec fn is_node_label(self, q: Seq<Token>) -> bool {
        exists|v: int| 0 <= v <= self.size() && self.label(v) == q
    }

    /// The LOUDS bits encode the degrees; each child's label extends its
    /// parent's by its token; siblings are strictly ordered by token; every
    /// node below the root ends a key or has children; distinct keys hold
    /// distinct value indices.
    #[verifier::type_invariant]
    pub(crate) open spec fn wf(self) -> bool {
        &&& shape_wf(louds_bits(self.louds), self.nodes@, self.degs@, self.labels@)
        &&& slots_wf(self.nodes@, self.values@.len() as int)
    }

    /// The trie's shape invariant holds; every trie value in exec code has it.
    pub closed spec fn well_formed(self) -> bool {
        self.wf()
    }

    pub(crate) proof fn lemma_well_formed(self)
        requires
            self.wf(),
        ensures
            self.well_formed(),
    {
    }

    /// The labels of the nodes in level order, the root's (empty) first.
    pub closed spec fn level_labels(self) -> Seq<Seq<Token>> {
        self.labels@
    }

    /// The LOUDS bit vector of the tree's shape.
    pub closed spec fn lbs(self) -> Seq<bool> {
        louds_bits(self.louds)
    }

    /// Nodes come in level order: an earlier node's label is shorter, or as
    /// long and lexicographically smaller.
    proof fn lemma_level_pair(self, v: int, w: int)
        requires
            self.wf(),
            0 <= v < w <= self.size(),
        ensures
            level_lt(self.label(v), self.label(w)),
        decreases w,
    {
        self.lemma_label_len(w);
        if v > 0 {
            let (i1, t1) = self.lemma_owner(v);
            let (i2, t2) = self.lemma_owner(w);
            if i1 > i2 {
                lemma_deg_sum_mono(self.degs@, i2 + 1, i1);
                assert(deg_sum(self.degs@, i2 + 1) == deg_sum(self.degs@, i2) + self.deg(i2));
            }
            if i1 == i2 {
                assert(t1 < t2);
                assert(self.tok(self.slot(i1, t1)).order() < self.tok(self.slot(i1, t2)).order());
                let p = self.label(i1);
                assert(p.push(self.tok(v)).is_prefix_of(self.label(v))) by {
                    assert(p.push(self.tok(v)) =~= self.label(v).subrange(0, p.len() as int + 1));
                }
                assert(p.push(self.tok(w)).is_prefix_of(self.label(w))) by {
                    assert(p.push(self.tok(w)) =~= self.label(w).subrange(0, p.len() as int + 1));
                }
                lemma_lex_branch(p, self.tok(v), self.tok(w), self.label(v), self.label(w));
            } else {
                self.lemma_level_pair(i1, i2);
                if self.label(i1).len() == self.label(i2).len() {
                    lemma_lex_push(self.label(i1), self.label(i2), self.tok(v), self.tok(w));
                }
            }
        }
    }

    /// The level order of a trie: the root's empty label first, then each
    /// depth's labels in lexicographic order before the next depth's; the
    /// labels are exactly the empty one and the non-empty prefixes of keys.
    pub proof fn lemma_level_order(self)
        requires
            self.well_formed(),
        ensures
            self.level_labels().len() > 0,
            self.level_labels()[0] == Seq::<Token>::empty(),
            forall|i: int, j: int|
                0 <= i < j < self.level_labels().len() ==> level_lt(
                    #[trigger] self.level_labels()[i],
                    #[trigger] self.level_labels()[j],
                ),
            forall|q: Seq<Token>|
                (exists|i: int| 0 <= i < self.level_labels().len() && #[trigger] self.level_labels()[i] == q)
                    == (q.len() == 0 || prefix_of_some_key(self@, q)),
    {
        assert forall|i: int, j: int| 0 <= i < j < self.level_labels().len() implies level_lt(
            #[trigger] self.level_labels()[i],
            #[trigger] self.level_labels()[j],
        ) by {
            self.lemma_level_pair(i, j);
        }
        assert forall|q: Seq<Token>|
            (exists|i: int| 0 <= i < self.level_labels().len() && #[trigger] self.level_labels()[i] == q)
                == (q.len() == 0 || prefix_of_some_key(self@, q)) by {
            if exists|i: int| 0 <= i < self.level_labels().len() && #[trigger] self.level_labels()[i] == q {
                let i = choose|i: int| 0 <= i < self.level_labels().len() && #[trigger] self.level_labels()[i] == q;
                if i > 0 {
                    self.lemma_node_prefix(i);
                }
            }
            if q.len() == 0 {
                assert(self.level_labels()[0] == q);
            } else if prefix_of_some_key(self@, q) {
                if !self.is_node_label(q) {
                    self.lemma_not_node(q);
                }
                let v = choose|v: int| 0 <= v <= self.size() && self.label(v) == q;
                assert(self.level_labels()[v] == q);
            }
        }
    }

    /// Equal labels give equal degrees, node by node.
    proof fn lemma_degs_agree(t1: Self, t2: Self, i: int)
        requires
            t1.wf(),
            t2.wf(),
            t1.labels@ == t2.labels@,
            0 <= i <= t1.size() + 1,
        ensures
            deg_sum(t1.degs@, i) == deg_sum(t2.degs@, i),
            forall|j: int| 0 <= j < i ==> t1.degs@[j] == t2.degs@[j],
        decreases i,
    {
        if i > 0 {
            let k = i - 1;
            Self::lemma_degs_agree(t1, t2, k);
            if t1.deg(k) != t2.deg(k) {
                let (a, b) = if t1.deg(k) < t2.deg(k) {
                    (t1, t2)
                } else {
                    (t2, t1)
                };
                // the first child of `k` in `b` past `a`'s children of `k`
                let t = a.deg(k) as int;
                b.lemma_child(k, t);
                let u = b.slot(k, t);
                let (k2, t2_) = a.lemma_owner(u);
                assert(a.label(k2) =~= a.label(u).drop_last());
                assert(b.label(k) =~= b.label(u).drop_last());
                a.lemma_injective(k2, k);
            }
            assert(deg_sum(t1.degs@, i) == deg_sum(t1.degs@, k) + t1.degs@[k]);
            assert(deg_sum(t2.degs@, i) == deg_sum(t2.degs@, k) + t2.degs@[k]);
        }
    }

    /// Two tries that hold the same keys and values have the same shape: the
    /// same nodes in the same level order and the same LOUDS bits, so the
    /// same tokens on the same edges (each the last of a node's label) and
    /// the same value at each node (the view's at its label). A trie's shape
    /// does not depend on the order its keys were inserted in.
    pub proof fn lemma_shape_determined(t1: Self, t2: Self)
        requires
            t1.well_formed(),
            t2.well_formed(),
            t1@ == t2@,
        ensures
            t1.level_labels() == t2.level_labels(),
            t1.lbs() == t2.lbs(),
    {
        t1.lemma_level_order();
        t2.lemma_level_order();
        let a = t1.level_labels();
        let b = t2.level_labels();
        let lt = |x: Seq<Token>, y: Seq<Token>| level_lt(x, y);
        assert forall|x: Seq<Token>, y: Seq<Token>| #[trigger] lt(x, y) implies !lt(y, x) && x != y by {
            lemma_level_lt_asymmetric(x, y);
        }
        assert forall|i: int| 0 <= i < a.len() implies #[trigger] occurs_in(b, a[i]) by {
            let q = a[i];
            assert(exists|i2: int| 0 <= i2 < a.len() && #[trigger] a[i2] == q);
            reveal(occurs_in);
        }
        assert forall|j: int| 0 <= j < b.len() implies #[trigger] occurs_in(a, b[j]) by {
            let q = b[j];
            assert(exists|j2: int| 0 <= j2 < b.len() && #[trigger] b[j2] == q);
            reveal(occurs_in);
        }
        assert forall|i: int, j: int| 0 <= i < j < a.len() implies lt(#[trigger] a[i], #[trigger] a[j]) by {
        }
        assert forall|i: int, j: int| 0 <= i < j < b.len() implies lt(#[trigger] b[i], #[trigger] b[j]) by {
        }
        lemma_sorted_unique_by(lt, a, b);
        Self::lemma_degs_agree(t1, t2, t1.size() + 1);
        assert(t1.degs@ =~= t2.degs@);
    }

    /// The empty label is never a key.
    pub proof fn lemma_empty_not_key(self)
        ensures
            !self@.dom().contains(Seq::<Token>::empty()),
    {
    }

    /// The definition of the view.
    pub(crate) proof fn lemma_view_def(self, k: Seq<Token>)
        ensures
            self@.dom().contains(k) == (k.len() > 0 && exists|v: int| self.key_node(v) && self.label(v) == k),
            self@.dom().contains(k) ==> self@[k] == self.val(
                choose|v: int| self.key_node(v) && self.label(v) == k,
            ).unwrap(),
    {
    }

    // ---- structural lemmas ----
    pub(crate) proof fn lemma_owner(self, v: int) -> (it: (int, int))
        requires
            self.wf(),
            1 <= v <= self.size(),
        ensures
            0 <= it.0 < v,
            0 <= it.1 < self.deg(it.0),
            v == self.slot(it.0, it.1),
            self.label(v) == self.label(it.0).push(self.tok(v)),
    {
        let (i, t) = lemma_owner(self.degs@, v);
        assert(self.labels@[self.slot(i, t)] == self.labels@[i].push(self.tok(self.slot(i, t))));
        (i, t)
    }

    pub(crate) proof fn lemma_label_len(self, v: int)
        requires
            self.wf(),
            0 <= v <= self.size(),
        ensures
            (self.label(v).len() == 0) == (v == 0),
    {
        if v > 0 {
            self.lemma_owner(v);
        }
    }

    /// A label is no longer than the node's position in level order.
    pub(crate) proof fn lemma_label_len_bound(self, v: int)
        requires
            self.wf(),
            0 <= v <= self.size(),
        ensures
            self.label(v).len() <= v,
        decreases v,
    {
        if v > 0 {
            let (i, t) = self.lemma_owner(v);
            self.lemma_label_len_bound(i);
        }
    }

    /// A child comes after its parent in level order, and its label extends
    /// its parent's by its token.
    pub(crate) proof fn lemma_child(self, v: int, t: int)
        requires
            self.wf(),
            0 <= v <= self.size(),
            0 <= t < self.deg(v),
        ensures
            v < self.slot(v, t) <= self.size(),
            self.label(self.slot(v, t)) == self.label(v).push(self.tok(self.slot(v, t))),
    {
        lemma_deg_sum_mono(self.degs@, v + 1, self.size() + 1);
        assert(deg_sum(self.degs@, v + 1) == deg_sum(self.degs@, v) + self.deg(v));
        if v >= 1 {
            assert(deg_sum(self.degs@, v) >= v);
        }
        assert(self.labels@[self.slot(v, t)] == self.labels@[v].push(self.tok(self.slot(v, t))));
    }

    /// Distinct nodes have distinct labels.
    pub(crate) proof fn lemma_injective(self, v: int, w: int)
        requires
            self.wf(),
            0 <= v <= self.size(),
            0 <= w <= self.size(),
            self.label(v) == self.label(w),
        ensures
            v == w,
        decreases v + w,
    {
        self.lemma_label_len(v);
        self.lemma_label_len(w);
        if v > 0 && w > 0 {
            let (i1, t1) = self.lemma_owner(v);
            let (i2, t2) = self.lemma_owner(w);
            assert(self.label(i1) == self.label(v).drop_last());
            assert(self.label(i2) == self.label(w).drop_last());
            self.lemma_injective(i1, i2);
            assert(self.tok(v) == self.label(v).last());
            assert(self.tok(w) == self.label(w).last());
            if t1 < t2 {
                assert(self.tok(self.slot(i1, t1)).order() < self.tok(self.slot(i1, t2)).order());
            } else if t2 < t1 {
                assert(self.tok(self.slot(i1, t2)).order() < self.tok(self.slot(i1, t1)).order());
            }
        }
    }

    /// Every prefix of a node's label is the label of an ancestor.
    pub(crate) proof fn lemma_ancestor(self, w: int, m: int) -> (u: int)
        requires
            self.wf(),
            0 <= w <= self.size(),
            0 <= m <= self.label(w).len(),
        ensures
            0 <= u <= w,
            self.label(u) == self.label(w).take(m),
            u == 0 <==> m == 0,
        decreases w,
    {
        self.lemma_label_len(w);
        if m == self.label(w).len() {
            assert(self.label(w).take(m) == self.label(w));
            w
        } else {
            let (i, t) = self.lemma_owner(w);
            assert(self.label(w).take(m) == self.label(i).take(m));
            let u = self.lemma_ancestor(i, m);
            self.lemma_label_len(u);
            u
        }
    }

    /// A node whose label extends node `v`'s by one token is a child of `v`.
    pub(crate) proof fn lemma_child_slot(self, v: int, u: int) -> (t: int)
        requires
            self.wf(),
            0 <= v <= self.size(),
            1 <= u <= self.size(),
            self.label(u).drop_last() == self.label(v),
        ensures
            0 <= t < self.deg(v),
            u == self.slot(v, t),
    {
        let (i, t) = self.lemma_owner(u);
        assert(self.label(i) == self.label(u).drop_last());
        self.lemma_injective(i, v);
        t
    }

    /// Below every node other than the root ends some key.
    pub(crate) proof fn lemma_key_below(self, v: int) -> (w: int)
        requires
            self.wf(),
            1 <= v <= self.size(),
        ensures
            self.key_node(w),
            self.label(v).is_prefix_of(self.label(w)),
        decreases self.size() - v,
    {
        if self.val(v) is Some {
            v
        } else {
            assert(self.deg(v) > 0);
            let c = self.slot(v, 0);
            lemma_deg_sum_mono(self.degs@, v + 1, self.size() + 1);
            assert(deg_sum(self.degs@, v + 1) == deg_sum(self.degs@, v) + self.deg(v));
            assert(deg_sum(self.degs@, v) >= v);
            assert(self.labels@[self.slot(v, 0)] == self.labels@[v].push(self.tok(self.slot(v, 0))));
            let w = self.lemma_key_below(c);
            assert(self.label(v).is_prefix_of(self.label(w)));
            w
        }
    }

    /// The view holds exactly the labels of value nodes, with their values.
    pub(crate) proof fn lemma_view_at(self, v: int)
        requires
            self.wf(),
            1 <= v <= self.size(),
        ensures
            self@.dom().contains(self.label(v)) == (self.val(v) is Some),
            self.val(v) is Some ==> self@[self.label(v)] == self.val(v).unwrap(),
    {
        let k = self.label(v);
        self.lemma_label_len(v);
        if self.val(v) is Some {
            assert(self.key_node(v) && self.label(v) == k);
            let w = choose|w: int| self.key_node(w) && self.label(w) == k;
            self.lemma_injective(v, w);
        } else {
            if self@.dom().contains(k) {
                let w = choose|w: int| self.key_node(w) && self.label(w) == k;
                self.lemma_injective(v, w);
            }
        }
    }

    /// A label that names no node is no key, and no prefix of one.
    pub(crate) proof fn lemma_not_node(self, q: Seq<Token>)
        requires
            self.wf(),
            !self.is_node_label(q),
        ensures
            !self@.dom().contains(q),
            !prefix_of_some_key(self@, q),
    {
        if prefix_of_some_key(self@, q) {
            let k = choose|k: Seq<Token>| self@.dom().contains(k) && q.is_prefix_of(k);
            let w = choose|w: int| self.key_node(w) && self.label(w) == k;
            let u = self.lemma_ancestor(w, q.len() as int);
            assert(self.label(u) == q);
        }
        if self@.dom().contains(q) {
            let w = choose|w: int| self.key_node(w) && self.label(w) == q;
            assert(self.label(w) == q);
        }
    }

    /// A node label is a prefix of some key, unless it is the root's.
    pub(crate) proof fn lemma_node_prefix(self, v: int)
        requires
            self.wf(),
            1 <= v <= self.size(),
        ensures
            prefix_of_some_key(self@, self.label(v)),
    {
        let w = self.lemma_key_below(v);
        self.lemma_view_at(w);
    }

    /// A node has children exactly when some key properly extends its label.
    pub(crate) proof fn lemma_has_children(self, v: int)
        requires
            self.wf(),
            0 <= v <= self.size(),
        ensures
            (self.deg(v) > 0) == strict_prefix_of_some_key(self@, self.label(v)),
    {
        if self.deg(v) > 0 {
            let c = self.slot(v, 0);
            lemma_deg_sum_mono(self.degs@, v + 1, self.size() + 1);
            assert(deg_sum(self.degs@, v + 1) == deg_sum(self.degs@, v) + self.deg(v));
            if v >= 1 {
                assert(deg_sum(self.degs@, v) >= v);
            }
            assert(self.labels@[self.slot(v, 0)] == self.labels@[v].push(self.tok(self.slot(v, 0))));
            let w = self.lemma_key_below(c);
            self.lemma_view_at(w);
            assert(self.label(v).is_prefix_of(self.label(w))) by {
                assert(self.label(v) =~= self.label(w).subrange(0, self.label(v).len() as int)) by {
                    assert forall|i: int| 0 <= i < self.label(v).len() implies self.label(v)[i]
                        == self.label(w)[i] by {
                        assert(self.label(c)[i] == self.label(v)[i]);
                    }
                }
            }
        } else {
            if strict_prefix_of_some_key(self@, self.label(v)) {
                let k = choose|k: Seq<Token>|
                    self@.dom().contains(k) && self.label(v).is_prefix_of(k) && k.len() > self.label(
                        v,
                    ).len();
                self.lemma_view_def(k);
                let w = choose|w: int| self.key_node(w) && self.label(w) == k;
                let m = self.label(v).len() as int;
                let u = self.lemma_ancestor(w, m + 1);
                assert(self.label(u).drop_last() =~= self.label(v));
                let t = self.lemma_child_slot(v, u);
            }
        }
    }

    /// Replacing the value that node `v` holds changes the view at node `v`'s
    /// label only.
    pub(crate) proof fn lemma_set_value(t1: Self, t2: Self, v: int, x: Value)
        requires
            t1.wf(),
            1 <= v <= t1.size(),
            t1.nodes@[v - 1].value is Some,
            t2.nodes@ == t1.nodes@,
            t2.degs@ == t1.degs@,
            t2.labels@ == t1.labels@,
            t2.values@ == t1.values@.update(t1.nodes@[v - 1].value.unwrap() as int, x),
        ensures
            t2@ == t1@.insert(t1.label(v), x),
    {
        let j = t1.nodes@[v - 1].value.unwrap() as int;
        assert forall|w: int| 1 <= w <= t1.size() implies #[trigger] t2.val(w) == if w == v {
            Some(x)
        } else {
            t1.val(w)
        } by {
            if w != v && t1.nodes@[w - 1].value is Some {
                assert(t1.nodes@[w - 1].value.unwrap() != t1.nodes@[v - 1].value.unwrap());
            }
        }
        assert forall|k: Seq<Token>| #[trigger] t2@.dom().contains(k) == t1@.insert(t1.label(v), x).dom().contains(k)
            && (t2@.dom().contains(k) ==> t2@[k] == t1@.insert(t1.label(v), x)[k]) by {
            t1.lemma_view_def(k);
            t2.lemma_view_def(k);
            t1.lemma_view_at(v);
            assert forall|w: int| t2.key_node(w) == t1.key_node(w) by {
            }
            if t2@.dom().contains(k) {
                let w = choose|w: int| t2.key_node(w) && t2.label(w) == k;
                if k == t1.label(v) {
                    t1.lemma_injective(w, v);
                } else {
                    let w1 = choose|w: int| t1.key_node(w) && t1.label(w) == k;
                    t1.lemma_injective(w, w1);
                }
            }
        }
        assert(t2@ =~= t1@.insert(t1.label(v), x));
    }

    /// The empty label is never a key.
    pub(crate) proof fn lemma_view_root(self)
        requires
            self.wf(),
        ensures
            !self@.dom().contains(Seq::<Token>::empty()),
    {
        self.lemma_view_def(Seq::<Token>::empty());
        if self@.dom().contains(Seq::<Token>::empty()) {
            let w = choose|w: int| self.key_node(w) && self.label(w) == Seq::<Token>::empty();
            self.lemma_label_len(w);
        }
    }

    // ---- navigation ----
    /// The node numbers of node `num`'s children, in order.
    pub(crate) fn children_nums(&self, num: u64) -> (r: Vec<u64>)
        requires
            self.wf(),
            1 <= num <= self.size() + 1,
        ensures
            r.len() == self.deg(num - 1),
            forall|t: int| 0 <= t < r.len() ==> r[t] == self.slot(num - 1, t) + 1,
    {
        let ghost degs = self.degs@;
        let ghost i = num - 1;
        proof {
            lemma_lob_is_lbs(degs);
            lemma_lob_kth_zero(degs, i);
            lemma_lob_run(degs, i, 0);
        }
        let r = louds_children(&self.louds, num);
        proof {
            assert forall|t: int| 0 <= t < r.len() implies r[t] == self.slot(num - 1, t) + 1 by {
                lemma_lob_block(degs, i, t);
            }
        }
        r
    }

    /// The node number of node `num`'s parent.
    pub(crate) fn parent_num(&self, num: u64) -> (r: u64)
        requires
            self.wf(),
            2 <= num <= self.size() + 1,
        ensures
            1 <= r < num,
            exists|t: int| 0 <= t < self.deg(r - 1) && num - 1 == #[trigger] self.slot(r - 1, t),
            self.label(num - 1) == self.label(r - 1).push(self.tok(num - 1)),
    {
        let ghost degs = self.degs@;
        let ghost bits = level_order_bits(degs);
        let ghost (i, t) = self.lemma_owner(num - 1);
        proof {
            lemma_lob_is_lbs(degs);
            lemma_lob_kth_one(degs, i, t);
            lemma_lob_block(degs, i, t);
        }
        let index = louds_node_num_to_index(&self.louds, num);
        proof {
            lemma_pos_unique(bits, index as int, 2 + deg_sum(degs, i) + i + t, true);
        }
        let r = louds_child_to_parent(&self.louds, index);
        proof {
            assert(count_bit(bits, index + 1, false) == count_bit(bits, index as int, false));
            assert(r == i + 1);
            assert(num - 1 == self.slot(r - 1, t));
        }
        r
    }

    /// The child of node `num` whose token is `token`, found by binary search.
    pub(crate) fn find_child(&self, num: u64, token: &Token) -> (r: Option<u64>)
        requires
            self.wf(),
            1 <= num <= self.size() + 1,
        ensures
            match r {
                Some(c) => exists|t: int|
                    0 <= t < self.deg(num - 1) && c == #[trigger] self.slot(num - 1, t) + 1
                        && self.tok(c - 1) == *token,
                None => forall|t: int|
                    0 <= t < self.deg(num - 1) ==> self.tok(#[trigger] self.slot(num - 1, t))
                        != *token,
            },
    {
        let children = self.children_nums(num);
        let ghost i = num - 1;
        let mut lo: usize = 0;
        let mut hi: usize = children.len();
        proof {
            lemma_deg_sum_mono(self.degs@, i + 1, self.size() + 1);
        }
        while lo < hi
            invariant
                self.wf(),
                i == num - 1,
                1 <= num <= self.size() + 1,
                children.len() == self.deg(i),
                forall|t: int| 0 <= t < children.len() ==> children[t] == self.slot(i, t) + 1,
                deg_sum(self.degs@, i) + self.deg(i) <= self.size(),
                0 <= lo <= hi <= children.len(),
                forall|t: int| 0 <= t < lo ==> self.tok(#[trigger] self.slot(i, t)).order() < token.order(),
                forall|t: int|
                    hi <= t < children.len() ==> token.order() < self.tok(#[trigger] self.slot(i, t)).order(),
            decreases hi - lo,
        {
            let mid = lo + (hi - lo) / 2;
            let c = children[mid];
            let ct = &self.nodes[(c - 2) as usize].token;
            if ct.less_than(token) {
                proof {
                    assert forall|t: int| 0 <= t < mid + 1 implies self.tok(#[trigger] self.slot(i, t)).order()
                        < token.order() by {
                        if t < mid {
                            assert(self.tok(self.slot(i, t)).order() < self.tok(self.slot(i, mid as int)).order());
                        }
                    }
                }
                lo = mid + 1;
            } else if token.less_than(ct) {
                proof {
                    assert forall|t: int| mid <= t < children.len() implies token.order() < self.tok(
                        #[trigger] self.slot(i, t),
                    ).order() by {
                        if t > mid {
                            assert(self.tok(self.slot(i, mid as int)).order() < self.tok(self.slot(i, t)).order());
                        }
                    }
                }
                hi = mid;
            } else {
                proof {
                    Token::lemma_order_injective(*ct, *token);
                }
                return Some(c);
            }
        }
        proof {
            assert forall|t: int| 0 <= t < self.deg(num - 1) implies self.tok(
                #[trigger] self.slot(num - 1, t),
            ) != *token by {
                if t < lo {
                    assert(self.tok(self.slot(i, t)).order() < token.order());
                } else {
                    assert(token.order() < self.tok(self.slot(i, t)).order());
                }
            }
        }
        None
    }

    /// The node number of the node labelled `q`, if there is one.
    pub(crate) fn get_num(&self, q: &[Token]) -> (r: Option<u64>)
        requires
            self.wf(),
        ensures
            match r {
                Some(num) => 1 <= num <= self.size() + 1 && self.label(num - 1) == q@,
                None => !self.is_node_label(q@),
            },
    {
        let mut num: u64 = 1;
        let mut k: usize = 0;
        assert(q@.take(0) == Seq::<Token>::empty());
        while k < q.len()
            invariant
                self.wf(),
                0 <= k <= q.len(),
                1 <= num <= self.size() + 1,
                self.label(num - 1) == q@.take(k as int),
            decreases q.len() - k,
        {
            match self.find_child(num, &q[k]) {
                Some(c) => {
                    proof {
                        let t = choose|t: int|
                            0 <= t < self.deg(num - 1) && c == #[trigger] self.slot(num - 1, t) + 1
                                && self.tok(c - 1) == q[k as int];
                        assert(self.labels@[self.slot(num - 1, t)] == self.labels@[num - 1].push(
                            self.tok(self.slot(num - 1, t)),
                        ));
                        lemma_deg_sum_mono(self.degs@, num - 1 + 1, self.size() + 1);
                        assert(q@.take(k + 1) == q@.take(k as int).push(q[k as int]));
                    }
                    num = c;
                },
                None => {
                    proof {
                        if self.is_node_label(q@) {
                            let v = choose|v: int| 0 <= v <= self.size() && self.label(v) == q@;
                            let u = self.lemma_ancestor(v, k + 1);
                            assert(self.label(u).drop_last() == q@.take(k as int));
                            let t = self.lemma_child_slot((num - 1) as int, u);
                            assert(self.tok(u) == self.label(u).last());
                            assert(self.tok(self.slot(num - 1, t)) != q[k as int]);
                        }
                    }
                    return None;
                },
            }
            k = k + 1;
        }
        assert(q@.take(q.len() as int) == q@);
        Some(num)
    }

    /// The token on the edge into node `num`.
    pub(crate) fn token_at(&self, num: u64) -> (r: &Token)
        requires
            self.wf(),
            2 <= num <= self.size() + 1,
        ensures
            *r == self.tok(num - 1),
    {
        &self.nodes[(num - 2) as usize].token
    }

    /// The value stored at node `num`, if any (the root holds none).
    pub(crate) fn value_at(&self, num: u64) -> (r: Option<&Value>)
        requires
            self.wf(),
            1 <= num <= self.size() + 1,
        ensures
            num == 1 ==> r is None,
            num >= 2 ==> (r is Some <==> self.val(num - 1) is Some),
            r is Some ==> *r.unwrap() == self.val(num - 1).unwrap(),
    {
        if num >= 2 {
            match self.nodes[(num - 2) as usize].value {
                Some(j) => Some(&self.values[j]),
                None => None,
            }
        } else {
            None
        }
    }
}

impl<Token: TrieToken, Value> Trie<Token, Value> {
    /// Get the value of a label.
    pub fn get_value<L: Label<Token>>(&self, label: L) -> (r: Option<&Value>)
        ensures
            r is Some == self@.dom().contains(label.tokens()),
            r is Some ==> *r.unwrap() == self@[label.tokens()],
    {
        proof {
            use_type_invariant(self);
        }
        let q = label.into_tokens();
        match self.get_num(q.as_slice()) {
            Some(num) => {
                proof {
                    if num == 1 {
                        self.lemma_label_len(0);
                        self.lemma_view_root();
                    } else {
                        self.lemma_view_at(num - 1);
                    }
                }
                self.value_at(num)
            },
            None => {
                proof {
                    self.lemma_not_node(q@);
                }
                None
            },
        }
    }

    /// Get a mutable reference to the value of a label.
    pub fn get_value_mut<L: Label<Token>>(&mut self, label: L) -> (r: Option<&mut Value>)
        ensures
            r is Some == old(self)@.dom().contains(label.tokens()),
            r is Some ==> *r.unwrap() == old(self)@[label.tokens()] && final(self)@ == old(
                self,
            )@.insert(label.tokens(), *final(r.unwrap())),
            r is None ==> final(self)@ == old(self)@,
    {
        proof {
            use_type_invariant(&*self);
        }
        let q = label.into_tokens();
        match self.get_num(q.as_slice()) {
            Some(num) => {
                proof {
                    if num == 1 {
                        self.lemma_label_len(0);
                        self.lemma_view_root();
                    } else {
                        self.lemma_view_at(num - 1);
                    }
                }
                if num >= 2 {
                    match self.nodes[(num - 2) as usize].value {
                        Some(j) => {
                            proof {
                                assert forall|t2: Self, x: Value|
                                    #![trigger t2@, self@.insert(q@, x)]
                                    t2.nodes@ == self.nodes@ && t2.degs@ == self.degs@ && t2.labels@
                                        == self.labels@ && t2.values@ == self.values@.update(j as int, x)
                                        implies t2@ == self@.insert(q@, x) by {
                                    Self::lemma_set_value(*self, t2, num - 1, x);
                                }
                            }
                            Some(&mut self.values[j])
                        },
                        None => None,
                    }
                } else {
                    None
                }
            },
            None => {
                proof {
                    self.lemma_not_node(q@);
                }
                None
            },
        }
    }

    /// Is `label` a key of this trie?
    pub fn is_exact<L: Label<Token>>(&self, label: L) -> (r: bool)
        ensures
            r == self@.dom().contains(label.tokens()),
    {
        self.get_value(label).is_some()
    }

    /// Builds a trie from `(label, value)` pairs, inserted in order.
    pub fn from_iter<L: Label<Token>>(items: Vec<(L, Value)>) -> (r: Self)
        requires
            forall|a: int| 0 <= a < items@.len() ==> (#[trigger] items@[a]).0.tokens().len() > 0,
        ensures
            r@ == map_of_pairs(items@.map_values(|p: (L, Value)| (p.0.tokens(), p.1))),
            r.well_formed(),
    {
        let ghost spec_items = items@.map_values(|p: (L, Value)| (p.0.tokens(), p.1));
        let mut builder = TrieBuilder::new();
        let mut items = items;
        let mut rev: Vec<(L, Value)> = Vec::new();
        let ghost orig = items@;
        while items.len() > 0
            invariant
                items@.len() + rev@.len() == orig.len(),
                forall|a: int| 0 <= a < items@.len() ==> items@[a] == orig[a],
                forall|a: int| 0 <= a < rev@.len() ==> rev@[a] == orig[orig.len() - 1 - a],
            decreases items@.len(),
        {
            match items.pop() {
                Some(p) => rev.push(p),
                None => {},
            }
        }
        let ghost mut done: int = 0;
        proof {
            assert(spec_items.take(0) =~= Seq::<(Seq<Token>, Value)>::empty());
        }
        while rev.len() > 0
            invariant
                0 <= done <= orig.len(),
                rev@.len() == orig.len() - done,
                forall|a: int| 0 <= a < rev@.len() ==> rev@[a] == orig[orig.len() - 1 - a],
                forall|a: int| 0 <= a < orig.len() ==> (#[trigger] orig[a]).0.tokens().len() > 0,
                spec_items == orig.map_values(|p: (L, Value)| (p.0.tokens(), p.1)),
                builder@ == map_of_pairs(spec_items.take(done)),
            decreases rev@.len(),
        {
            match rev.pop() {
                Some(p) => {
                    let (label, value) = p;
                    proof {
                        assert(p == orig[done]);
                        assert(spec_items.take(done + 1).drop_last() =~= spec_items.take(done));
                    }
                    builder.insert(label, value);
                    proof {
                        done = done + 1;
                    }
                },
                None => {},
            }
        }
        proof {
            assert(spec_items.take(done) =~= spec_items);
        }
        builder.build()
    }
}

impl<Token: TrieToken, Value: Clone> Clone for Trie<Token, Value> {
    /// A copy of this trie: the same keys, each with a clone of its value.
    fn clone(&self) -> (r: Self)
        ensures
            r@.dom() == self@.dom(),
            forall|k: Seq<Token>| #[trigger] r@.dom().contains(k) ==> vstd::pervasive::cloned(self@[k], r@[k]),
            r.well_formed(),
    {
        proof {
            use_type_invariant(self);
        }
        let mut nodes: Vec<Node<Token, usize>> = Vec::new();
        let mut i: usize = 0;
        while i < self.nodes.len()
            invariant
                0 <= i <= self.nodes.len(),
                nodes@.len() == i,
                forall|j: int| 0 <= j < i ==> nodes@[j] == self.nodes@[j],
            decreases self.nodes.len() - i,
        {
            let n = &self.nodes[i];
            nodes.push(Node { token: n.token, value: n.value });
            i = i + 1;
        }
        let mut values: Vec<Value> = Vec::new();
        let mut i: usize = 0;
        while i < self.values.len()
            invariant
                0 <= i <= self.values.len(),
                values@.len() == i,
                forall|j: int| 0 <= j < i ==> vstd::pervasive::cloned(self.values@[j], #[trigger] values@[j]),
            decreases self.values.len() - i,
        {
            values.push(self.values[i].clone());
            i = i + 1;
        }
        proof {
            assert(nodes@ =~= self.nodes@);
        }
        let louds = louds_clone(&self.louds);
        let r = Trie { louds, nodes, values, degs: Ghost(self.degs@), labels: Ghost(self.labels@) };
        proof {
            assert forall|k: Seq<Token>| #[trigger] r@.dom().contains(k) == self@.dom().contains(k)
                && (r@.dom().contains(k) ==> vstd::pervasive::cloned(self@[k], r@[k])) by {
                r.lemma_view_def(k);
                self.lemma_view_def(k);
                assert forall|v: int| r.key_node(v) == self.key_node(v) && r.label(v) == self.label(v) by {
                }
                if r@.dom().contains(k) {
                    let v1 = choose|v: int| r.key_node(v) && r.label(v) == k;
                    let v2 = choose|v: int| self.key_node(v) && self.label(v) == k;
                    assert(self.key_node(v1) && self.label(v1) == k);
                    self.lemma_injective(v1, v2);
                    let j = self.nodes@[v1 - 1].value.unwrap() as int;
                    assert(vstd::pervasive::cloned(self.values@[j], r.values@[j]));
                }
            }
            assert(r@.dom() =~= self@.dom());
        }
        r
    }
}

} // verus!
