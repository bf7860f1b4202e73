//! Building a LOUDS trie from a naive trie.
use vstd::prelude::*;
use crate::label::Label;
use std::collections::VecDeque;
use crate::internal::naive_trie::{
    count_upto, has_kid, kid_pos, lemma_kid_pos, lemma_queue_count_front, lemma_queue_count_push,
    lemma_root_wf, lemma_subtree_push, lemma_subtree_wf, lemma_view_lookup, queue_count, NaiveTrie,
};
use crate::lbs::{deg_sum, level_order_bits, ones, unary};
use crate::token::TrieToken;
use super::trie::{lo_slot, shape_wf, slots_wf, tok_at, Node, Trie};
use crate::louds::louds_from_bits;
use crate::lbs::{lemma_lob_is_lbs, lemma_deg_sum_mono};

verus! {

/// The state of a breadth-first walk over `root` that has emitted the
/// nodes `nodes` (with their labels) and processed the first `i` of them
/// (root included), with `queue` holding the child lists still to process.
pub(crate) open spec fn walk_inv<Token: TrieToken, Value>(
    root: NaiveTrie<Token, Value>,
    nodes: Seq<Node<Token, Value>>,
    degs: Seq<nat>,
    labels: Seq<Seq<Token>>,
    queue: Seq<Vec<NaiveTrie<Token, Value>>>,
    i: int,
) -> bool {
    let n = nodes.len() as int;
    &&& 0 <= i <= n + 1
    &&& degs.len() == i
    &&& labels.len() == n + 1
    &&& queue.len() == n + 1 - i
    &&& deg_sum(degs, i) == n
    &&& forall|v: int| 1 <= v < i ==> #[trigger] deg_sum(degs, v) >= v
    &&& labels[0] == Seq::<Token>::empty()
    &&& forall|v: int| 1 <= v <= n ==> (#[trigger] labels[v]).len() > 0
    &&& forall|a: int, t: int|
        0 <= a < i && 0 <= t < degs[a] ==> #[trigger] labels[lo_slot(degs, a, t)] == labels[a].push(
            nodes[lo_slot(degs, a, t) - 1].token,
        )
    &&& forall|v: int|
        1 <= v <= n ==> {
            &&& (#[trigger] root.subtree_at(labels[v])) is Some
            &&& root.subtree_at(labels[v]).unwrap().tok() == nodes[v - 1].token
            &&& root.subtree_at(labels[v]).unwrap().val() == nodes[v - 1].value
        }
    &&& forall|v: int|
        i <= v <= n ==> {
            &&& (#[trigger] root.subtree_at(labels[v])) is Some
            &&& root.subtree_at(labels[v]).unwrap().kids() == queue[v - i]@
        }
    &&& forall|v: int|
        0 <= v < i ==> {
            &&& (#[trigger] root.subtree_at(labels[v])) is Some
            &&& root.subtree_at(labels[v]).unwrap().kids().len() == degs[v]
            &&& forall|t: int|
                0 <= t < degs[v] ==> (#[trigger] root.subtree_at(labels[v]).unwrap().kids()[t]).tok()
                    == nodes[lo_slot(degs, v, t) - 1].token
        }
}

pub(crate) proof fn lemma_lob_push(degs: Seq<nat>, d: nat)
    ensures
        level_order_bits(degs.push(d)) == level_order_bits(degs) + ones(d) + seq![false],
{
    assert(degs.push(d).drop_last() == degs);
    assert(unary(degs.push(d)) == unary(degs) + ones(d) + seq![false]);
    assert(level_order_bits(degs.push(d)) =~= level_order_bits(degs) + ones(d) + seq![false]);
}

pub(crate) proof fn lemma_deg_sum_push(degs: Seq<nat>, d: nat, v: int)
    requires
        0 <= v <= degs.len(),
    ensures
        deg_sum(degs.push(d), v) == deg_sum(degs, v),
    decreases v,
{
    if v > 0 {
        lemma_deg_sum_push(degs, d, v - 1);
    }
}

/// Lists the nodes of a naive trie in level order: the LOUDS bits, the
/// nodes below the root with their tokens and values, and (as ghosts) each
/// node's degree and label.
pub(crate) fn level_order<Token: TrieToken, Value>(root: NaiveTrie<Token, Value>) -> (r: (
    Vec<bool>,
    Vec<Node<Token, Value>>,
    Ghost<Seq<nat>>,
    Ghost<Seq<Seq<Token>>>,
))
    requires
        root.wf_root(),
    ensures
        r.0@ == level_order_bits(r.2@),
        walk_inv(root, r.1@, r.2@, r.3@, Seq::empty(), r.1@.len() + 1int),
{
    let ghost root0 = root;
    proof {
        lemma_root_wf(root0);
    }
    let mut root = root;
    let first = root.drain_children();
    let mut queue: VecDeque<Vec<NaiveTrie<Token, Value>>> = VecDeque::new();
    queue.push_back(first);
    let mut bits: Vec<bool> = vec![true, false];
    let mut nodes: Vec<Node<Token, Value>> = Vec::new();
    let ghost mut degs: Seq<nat> = Seq::empty();
    let ghost mut labels: Seq<Seq<Token>> = seq![Seq::empty()];
    let ghost mut i: int = 0;
    proof {
        assert(root0.subtree_at(labels[0]) == Some(root0));
        assert(bits@ =~= level_order_bits(degs));
    }
    while queue.len() > 0
        invariant
            root0.wf_root(),
            walk_inv(root0, nodes@, degs, labels, queue@, i),
            bits@ == level_order_bits(degs),
        decreases queue_count(queue@), queue@.len(),
    {
        let ghost q0 = queue@;
        let ghost n0 = nodes@.len() as int;
        let ghost nodes0 = nodes@;
        let ghost labels0 = labels;
        proof {
            lemma_queue_count_front(q0);
        }
        let mut kids = match queue.pop_front() {
            Some(k) => k,
            None => Vec::new(),
        };
        let ghost k0 = kids@;
        let ghost rest = queue@;
        let ghost sub = root0.subtree_at(labels[i]).unwrap();
        proof {
            assert(q0[0] == q0[i - i]);
            assert(k0 == sub.kids());
            if i == 0 {
                assert(sub == root0);
            } else {
                lemma_subtree_wf(root0, labels[i]);
            }
            assert(sub.wf_kids());
        }
        let d = kids.len();
        let mut j: usize = 0;
        while j < d
            invariant
                root0.wf_root(),
                0 <= i <= n0,
                0 <= j <= d,
                d == k0.len(),
                kids@.len() == d,
                forall|t: int| j <= t < d ==> kids@[t] == k0[t],
                k0 == sub.kids(),
                sub.wf_kids(),
                root0.subtree_at(labels0[i]) == Some(sub),
                nodes@.len() == n0 + j,
                forall|v: int| 0 <= v < n0 ==> nodes@[v] == nodes0[v],
                forall|t: int|
                    0 <= t < j ==> (#[trigger] nodes@[n0 + t]).token == k0[t].tok() && nodes@[n0
                        + t].value == k0[t].val(),
                labels.len() == n0 + 1 + j,
                forall|v: int| 0 <= v <= n0 ==> labels[v] == labels0[v],
                forall|t: int| 0 <= t < j ==> #[trigger] labels[n0 + 1 + t] == labels0[i].push(k0[t].tok()),
                queue@.len() == rest.len() + j,
                forall|v: int| 0 <= v < rest.len() ==> queue@[v] == rest[v],
                forall|t: int| 0 <= t < j ==> (#[trigger] queue@[rest.len() + t])@ == k0[t].kids(),
                bits@ == level_order_bits(degs) + ones(j as nat),
                queue_count(queue@) + j == queue_count(rest) + count_upto(k0, j as int),
            decreases d - j,
        {
            let mut kid = NaiveTrie::PhantomSibling;
            let slot = &mut kids[j];
            std::mem::swap(&mut kid, slot);
            proof {
                assert(kid == k0[j as int]);
                assert(kid.wf_node());
            }
            match kid {
                NaiveTrie::IntermOrLeaf(n) => {
                    let ghost kv = n.children@;
                    bits.push(true);
                    nodes.push(Node { token: n.token, value: n.value });
                    proof {
                        lemma_queue_count_push(queue@, n.children);
                    }
                    queue.push_back(n.children);
                    proof {
                        labels = labels.push(labels0[i].push(n.token));
                        assert(bits@ =~= level_order_bits(degs) + ones((j + 1) as nat));
                        assert(count_upto(k0, j + 1) == count_upto(k0, j as int) + k0[j as int].count());
                        assert(k0[j as int].count() == 1 + count_upto(kv, kv.len() as int));
                    }
                },
                _ => {
                    proof {
                        assert(false);
                    }
                },
            }
            j = j + 1;
        }
        bits.push(false);
        proof {
            let n1 = nodes@.len() as int;
            let degs0 = degs;
            lemma_lob_push(degs0, d as nat);
            degs = degs.push(d as nat);
            assert forall|v: int| 0 <= v <= i implies deg_sum(degs, v) == deg_sum(degs0, v) by {
                lemma_deg_sum_push(degs0, d as nat, v);
            }
            assert(deg_sum(degs, i + 1) == n1);
            assert(lo_slot(degs, i, 0) == n0 + 1);
            // labels of new nodes are non-empty
            assert forall|v: int| 1 <= v <= n1 implies (#[trigger] labels[v]).len() > 0 by {
                if v > n0 {
                    assert(labels[n0 + 1 + (v - n0 - 1)] == labels0[i].push(k0[v - n0 - 1].tok()));
                }
            }
            // children of processed nodes keep their labels
            assert forall|a: int, t: int|
                0 <= a < i + 1 && 0 <= t < degs[a] implies #[trigger] labels[lo_slot(degs, a, t)]
                == labels[a].push(nodes@[lo_slot(degs, a, t) - 1].token) by {
                if a < i {
                    assert(degs[a] == degs0[a]);
                    assert(lo_slot(degs, a, t) == lo_slot(degs0, a, t));
                    crate::lbs::lemma_deg_sum_mono(degs0, a + 1, i);
                    assert(deg_sum(degs0, a + 1) == deg_sum(degs0, a) + degs0[a]);
                } else {
                    assert(lo_slot(degs, a, t) == n0 + 1 + t);
                    assert(labels[n0 + 1 + t] == labels0[i].push(k0[t].tok()));
                    assert(nodes@[n0 + t].token == k0[t].tok());
                }
            }
            // emitted nodes correspond to subtrees
            assert forall|v: int| 1 <= v <= n1 implies {
                &&& (#[trigger] root0.subtree_at(labels[v])) is Some
                &&& root0.subtree_at(labels[v]).unwrap().tok() == nodes@[v - 1].token
                &&& root0.subtree_at(labels[v]).unwrap().val() == nodes@[v - 1].value
            } by {
                if v <= n0 {
                    assert(labels[v] == labels0[v]);
                    assert(nodes@[v - 1] == nodes0[v - 1]);
                } else {
                    let t = v - n0 - 1;
                    assert(labels[n0 + 1 + t] == labels0[i].push(k0[t].tok()));
                    lemma_subtree_push(root0, labels0[i], k0[t].tok());
                    lemma_kid_pos(k0, t);
                    assert(nodes@[n0 + t].token == k0[t].tok());
                }
            }
            assert forall|v: int| i + 1 <= v <= n1 implies {
                &&& (#[trigger] root0.subtree_at(labels[v])) is Some
                &&& root0.subtree_at(labels[v]).unwrap().kids() == queue@[v - (i + 1)]@
            } by {
                if v <= n0 {
                    assert(labels[v] == labels0[v]);
                    assert(q0[v - i] == rest[v - i - 1]);
                    assert(queue@[v - (i + 1)] == rest[v - i - 1]);
                } else {
                    let t = v - n0 - 1;
                    assert(labels[n0 + 1 + t] == labels0[i].push(k0[t].tok()));
                    lemma_subtree_push(root0, labels0[i], k0[t].tok());
                    lemma_kid_pos(k0, t);
                    assert(rest.len() == n0 - i);
                    assert(queue@[rest.len() + t]@ == k0[t].kids());
                }
            }
            assert forall|v: int| 0 <= v < i + 1 implies {
                &&& (#[trigger] root0.subtree_at(labels[v])) is Some
                &&& root0.subtree_at(labels[v]).unwrap().kids().len() == degs[v]
                &&& forall|t: int|
                    0 <= t < degs[v] ==> (#[trigger] root0.subtree_at(labels[v]).unwrap().kids()[t]).tok()
                        == nodes@[lo_slot(degs, v, t) - 1].token
            } by {
                assert(labels[v] == labels0[v]);
                if v < i {
                    assert(degs[v] == degs0[v]);
                    assert forall|t: int| 0 <= t < degs[v] implies (#[trigger] root0.subtree_at(
                        labels[v],
                    ).unwrap().kids()[t]).tok() == nodes@[lo_slot(degs, v, t) - 1].token by {
                        assert(lo_slot(degs, v, t) == lo_slot(degs0, v, t));
                        crate::lbs::lemma_deg_sum_mono(degs0, v + 1, i);
                        assert(deg_sum(degs0, v + 1) == deg_sum(degs0, v) + degs0[v]);
                    }
                } else {
                    assert forall|t: int| 0 <= t < degs[v] implies (#[trigger] root0.subtree_at(
                        labels[v],
                    ).unwrap().kids()[t]).tok() == nodes@[lo_slot(degs, v, t) - 1].token by {
                        assert(lo_slot(degs, v, t) == n0 + 1 + t);
                        assert(nodes@[n0 + t].token == k0[t].tok());
                    }
                }
            }
            assert forall|v: int| 1 <= v < i + 1 implies #[trigger] deg_sum(degs, v) >= v by {
                if v < i {
                    assert(deg_sum(degs0, v) >= v);
                }
            }
            i = i + 1;
            assert(walk_inv(root0, nodes@, degs, labels, queue@, i));
        }
    }
    proof {
        assert(queue@ =~= Seq::<Vec<NaiveTrie<Token, Value>>>::empty());
    }
    (bits, nodes, Ghost(degs), Ghost(labels))
}

/// Every node of the naive trie got a label in the walk.
proof fn lemma_walk_complete<Token: TrieToken, Value>(
    root: NaiveTrie<Token, Value>,
    nodes: Seq<Node<Token, Value>>,
    degs: Seq<nat>,
    labels: Seq<Seq<Token>>,
    p: Seq<Token>,
)
    requires
        root.wf_root(),
        walk_inv(root, nodes, degs, labels, Seq::empty(), nodes.len() + 1int),
        root.subtree_at(p) is Some,
    ensures
        exists|v: int| 0 <= v <= nodes.len() && labels[v] == p,
    decreases p.len(),
{
    let n = nodes.len() as int;
    if p.len() == 0 {
        assert(labels[0] == p);
    } else {
        let p1 = p.drop_last();
        let x = p.last();
        assert(p1.push(x) == p);
        lemma_subtree_push(root, p1, x);
        lemma_walk_complete(root, nodes, degs, labels, p1);
        let v1 = choose|v: int| 0 <= v <= n && labels[v] == p1;
        let s1 = root.subtree_at(p1).unwrap();
        assert(root.subtree_at(labels[v1]) == Some(s1));
        let t = kid_pos(s1.kids(), x);
        assert(s1.kids()[t].tok() == nodes[lo_slot(degs, v1, t) - 1].token);
        assert(labels[lo_slot(degs, v1, t)] == labels[v1].push(nodes[lo_slot(degs, v1, t) - 1].token));
        lemma_deg_sum_mono(degs, v1 + 1, n + 1);
        assert(deg_sum(degs, v1 + 1) == deg_sum(degs, v1) + degs[v1]);
        assert(labels[lo_slot(degs, v1, t)] == p);
    }
}

/// Moves the values out of `nodes` into a vector of their own; each key node
/// keeps the index of its value there.
fn split_values<Token: TrieToken, Value>(nodes: Vec<Node<Token, Value>>) -> (r: (
    Vec<Node<Token, usize>>,
    Vec<Value>,
))
    ensures
        r.0@.len() == nodes@.len(),
        slots_wf(r.0@, r.1@.len() as int),
        forall|i: int|
            0 <= i < nodes@.len() ==> {
                &&& (#[trigger] r.0@[i]).token == nodes@[i].token
                &&& r.0@[i].value is Some == nodes@[i].value is Some
                &&& r.0@[i].value is Some ==> r.1@[r.0@[i].value.unwrap() as int] == nodes@[i].value.unwrap()
            },
{
    let ghost orig = nodes@;
    let ghost n = orig.len() as int;
    let mut nodes = nodes;
    let mut rev: Vec<Node<Token, usize>> = Vec::new();
    let mut values: Vec<Value> = Vec::new();
    while nodes.len() > 0
        invariant
            n == orig.len(),
            nodes@.len() + rev@.len() == n,
            forall|i: int| 0 <= i < nodes@.len() ==> nodes@[i] == orig[i],
            slots_wf(rev@, values@.len() as int),
            forall|k: int|
                0 <= k < rev@.len() ==> {
                    &&& (#[trigger] rev@[k]).token == orig[n - 1 - k].token
                    &&& rev@[k].value is Some == orig[n - 1 - k].value is Some
                    &&& rev@[k].value is Some ==> values@[rev@[k].value.unwrap() as int] == orig[n - 1
                        - k].value.unwrap()
                },
        decreases nodes@.len(),
    {
        let ghost k = rev@.len() as int;
        let ghost values0 = values@;
        let ghost rev0 = rev@;
        match nodes.pop() {
            Some(node) => {
                let Node { token, value } = node;
                let slot = match value {
                    Some(v) => {
                        values.push(v);
                        Some(values.len() - 1)
                    },
                    None => None,
                };
                rev.push(Node { token, value: slot });
                proof {
                    assert forall|j: int| 0 <= j < k && (#[trigger] rev@[j]).value is Some implies values@[rev@[j].value.unwrap() as int] == orig[n - 1 - j].value.unwrap() by {
                        assert(rev@[j] == rev0[j]);
                        if rev0[j].value is Some {
                            assert(rev0[j].value.unwrap() < values0.len());
                        }
                    }
                }
            },
            None => {},
        }
    }
    let mut out: Vec<Node<Token, usize>> = Vec::new();
    let mut k: usize = rev.len();
    while k > 0
        invariant
            n == orig.len(),
            rev@.len() == n,
            0 <= k <= n,
            out@.len() == n - k,
            forall|i: int| 0 <= i < out@.len() ==> #[trigger] out@[i] == rev@[n - 1 - i],
        decreases k,
    {
        k = k - 1;
        let node = &rev[k];
        out.push(Node { token: node.token, value: node.value });
    }
    proof {
        assert forall|i: int| 0 <= i < out@.len() && (#[trigger] out@[i]).value is Some implies out@[i].value.unwrap() < values@.len() by {
            assert(out@[i] == rev@[n - 1 - i]);
        }
        assert forall|i: int, j: int|
            0 <= i < out@.len() && 0 <= j < out@.len() && i != j && (#[trigger] out@[i]).value is Some
                && (#[trigger] out@[j]).value is Some implies out@[i].value.unwrap() != out@[j].value.unwrap() by {
            assert(out@[i] == rev@[n - 1 - i]);
            assert(out@[j] == rev@[n - 1 - j]);
        }
        assert forall|i: int| 0 <= i < n implies {
            &&& (#[trigger] out@[i]).token == orig[i].token
            &&& out@[i].value is Some == orig[i].value is Some
            &&& out@[i].value is Some ==> values@[out@[i].value.unwrap() as int] == orig[i].value.unwrap()
        } by {
            assert(out@[i] == rev@[n - 1 - i]);
            assert(n - 1 - (n - 1 - i) == i);
        }
    }
    (out, values)
}

/// A label inserted into a builder reads back, from any trie built from it,
/// the value last inserted for it; every other label reads as it did before
/// the insert.
pub proof fn lemma_read_after_insert<Token, Value>(
    before: Map<Seq<Token>, Value>,
    built: Map<Seq<Token>, Value>,
    k: Seq<Token>,
    v: Value,
    other: Seq<Token>,
)
    requires
        built == before.insert(k, v),
    ensures
        built.dom().contains(k),
        built[k] == v,
        other != k ==> built.dom().contains(other) == before.dom().contains(other),
        other != k && before.dom().contains(other) ==> built[other] == before[other],
{
}

/// Two builders that hold the same labels and values, whatever order they
/// were inserted in, build tries of the same shape: the same nodes in the
/// same level order and the same LOUDS bits.
pub proof fn lemma_build_order_independent<Token: TrieToken, Value>(
    b1: TrieBuilder<Token, Value>,
    b2: TrieBuilder<Token, Value>,
    t1: Trie<Token, Value>,
    t2: Trie<Token, Value>,
)
    requires
        b1@ == b2@,
        t1@ == b1@,
        t2@ == b2@,
        t1.well_formed(),
        t2.well_formed(),
    ensures
        t1@ == t2@,
        t1.level_labels() == t2.level_labels(),
        t1.lbs() == t2.lbs(),
{
    Trie::lemma_shape_determined(t1, t2);
}

/// A trie builder for [Trie].
pub struct TrieBuilder<Token: TrieToken, Value> {
    pub(crate) naive_trie: NaiveTrie<Token, Value>,
}

impl<Token: TrieToken, Value> View for TrieBuilder<Token, Value> {
    type V = Map<Seq<Token>, Value>;

    /// The labels inserted so far, each with its last inserted value.
    closed spec fn view(&self) -> Map<Seq<Token>, Value> {
        self.naive_trie@
    }
}

impl<Token: TrieToken, Value> TrieBuilder<Token, Value> {
    #[verifier::type_invariant]
    spec fn inv(self) -> bool {
        self.naive_trie.wf_root()
    }

    /// Return an empty [TrieBuilder].
    pub fn new() -> (r: Self)
        ensures
            r@ == Map::<Seq<Token>, Value>::empty(),
    {
        TrieBuilder { naive_trie: NaiveTrie::make_root() }
    }

    /// Insert a value for a given label; a later insert of the same label
    /// replaces the value. The empty label cannot hold a value.
    pub fn insert<L: Label<Token>>(&mut self, label: L, value: Value)
        requires
            label.tokens().len() > 0,
        ensures
            final(self)@ == old(self)@.insert(label.tokens(), value),
    {
        proof {
            use_type_invariant(&*self);
        }
        let q = label.into_tokens();
        let mut t = NaiveTrie::make_root();
        std::mem::swap(&mut t, &mut self.naive_trie);
        t.insert(q.as_slice(), value);
        self.naive_trie = t;
    }

    /// Build a [Trie] holding exactly the inserted labels and values.
    pub fn build(self) -> (t: Trie<Token, Value>)
        ensures
            t@ == self@,
            t.well_formed(),
    {
        proof {
            use_type_invariant(&self);
        }
        let ghost root0 = self.naive_trie;
        let TrieBuilder { naive_trie } = self;
        let (bits, nodes, Ghost(degs), Ghost(labels)) = level_order(naive_trie);
        let ghost n = nodes@.len() as int;
        let bl = bits.len();
        proof {
            lemma_root_wf(root0);
            lemma_lob_is_lbs(degs);
        }
        proof {
            assert forall|i: int, t: int|
                0 <= i <= n && 0 <= t < degs[i] implies #[trigger] labels[lo_slot(degs, i, t)]
                == labels[i].push(tok_at(nodes@, lo_slot(degs, i, t))) by {
                assert(labels[lo_slot(degs, i, t)] == labels[i].push(
                    nodes@[lo_slot(degs, i, t) - 1].token,
                ));
            }
            assert forall|i: int, t1: int, t2: int|
                0 <= i <= n && 0 <= t1 < t2 < degs[i] implies (#[trigger] tok_at(
                nodes@,
                lo_slot(degs, i, t1),
            )).order() < (#[trigger] tok_at(nodes@, lo_slot(degs, i, t2))).order() by {
                let s = root0.subtree_at(labels[i]).unwrap();
                assert(root0.subtree_at(labels[i]) is Some);
                if i == 0 {
                    assert(s == root0);
                } else {
                    assert(labels[i].len() > 0);
                    lemma_subtree_wf(root0, labels[i]);
                }
                assert(s.kids()[t1].tok() == nodes@[lo_slot(degs, i, t1) - 1].token);
                assert(s.kids()[t2].tok() == nodes@[lo_slot(degs, i, t2) - 1].token);
            }
            assert forall|v: int| 1 <= v <= n implies #[trigger] degs[v] > 0 || nodes@[v
                - 1].value is Some by {
                assert(labels[v].len() > 0);
                assert(root0.subtree_at(labels[v]) is Some);
                lemma_subtree_wf(root0, labels[v]);
            }
            assert forall|v: int| 1 <= v < degs.len() implies #[trigger] deg_sum(degs, v) >= v by {
            }
            assert(shape_wf(bits@, nodes@, degs, labels));
        }
        let louds = louds_from_bits(bits.as_slice());
        let ghost onodes = nodes@;
        let (nodes, values) = split_values(nodes);
        proof {
            assert forall|i: int, t: int|
                0 <= i <= n && 0 <= t < degs[i] implies #[trigger] labels[lo_slot(degs, i, t)]
                == labels[i].push(tok_at(nodes@, lo_slot(degs, i, t))) by {
                lemma_deg_sum_mono(degs, i + 1, n + 1);
                assert(deg_sum(degs, i + 1) == deg_sum(degs, i) + degs[i]);
                assert(nodes@[lo_slot(degs, i, t) - 1].token == onodes[lo_slot(degs, i, t) - 1].token);
                assert(labels[lo_slot(degs, i, t)] == labels[i].push(tok_at(onodes, lo_slot(degs, i, t))));
            }
            assert forall|i: int, t1: int, t2: int|
                0 <= i <= n && 0 <= t1 < t2 < degs[i] implies (#[trigger] tok_at(
                nodes@,
                lo_slot(degs, i, t1),
            )).order() < (#[trigger] tok_at(nodes@, lo_slot(degs, i, t2))).order() by {
                lemma_deg_sum_mono(degs, i + 1, n + 1);
                assert(deg_sum(degs, i + 1) == deg_sum(degs, i) + degs[i]);
                assert(nodes@[lo_slot(degs, i, t1) - 1].token == onodes[lo_slot(degs, i, t1) - 1].token);
                assert(nodes@[lo_slot(degs, i, t2) - 1].token == onodes[lo_slot(degs, i, t2) - 1].token);
                assert(tok_at(onodes, lo_slot(degs, i, t1)).order() < tok_at(onodes, lo_slot(degs, i, t2)).order());
            }
            assert forall|v: int| 1 <= v <= n implies #[trigger] degs[v] > 0 || nodes@[v
                - 1].value is Some by {
                assert(nodes@[v - 1].value is Some == onodes[v - 1].value is Some);
            }
            assert(shape_wf(bits@, nodes@, degs, labels));
        }
        let trie = Trie { louds, nodes, values, degs: Ghost(degs), labels: Ghost(labels) };
        proof {
            assert forall|v: int| 1 <= v <= n implies #[trigger] trie.val(v) == onodes[v - 1].value by {
                assert(trie.nodes@[v - 1].value is Some == onodes[v - 1].value is Some);
            }
            assert forall|k: Seq<Token>| #[trigger] trie@.dom().contains(k) == root0@.dom().contains(k)
                && (trie@.dom().contains(k) ==> trie@[k] == root0@[k]) by {
                trie.lemma_view_def(k);
                lemma_view_lookup(root0, k);
                if trie@.dom().contains(k) {
                    let w = choose|v: int| trie.key_node(v) && trie.label(v) == k;
                    assert(root0.subtree_at(labels[w]) is Some);
                }
                if root0@.dom().contains(k) {
                    lemma_walk_complete(root0, onodes, degs, labels, k);
                    let v = choose|v: int| 0 <= v <= n && labels[v] == k;
                    if v == 0 {
                        assert(k.len() == 0);
                        assert(root0.subtree_at(k) == Some(root0));
                    } else {
                        assert(trie.key_node(v) && trie.label(v) == k);
                        let w = choose|w: int| trie.key_node(w) && trie.label(w) == k;
                        trie.lemma_injective(v, w);
                    }
                }
            }
            assert(trie@ =~= root0@);
        }
        proof {
            trie.lemma_well_formed();
        }
        trie
    }
}

impl<Token: TrieToken, Value> Default for TrieBuilder<Token, Value> {
    fn default() -> (r: Self)
        ensures
            r@ == Map::<Seq<Token>, Value>::empty(),
    {
        Self::new()
    }
}

} // verus!
