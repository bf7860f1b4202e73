//! A set of labels, kept as a trie map whose values are `()`.
use vstd::prelude::*;
use crate::inc_search::IncSearch;
use crate::label::Label;
use crate::map::node_ref::shortest_common_key;
use crate::search::{lists_keys_below, prefix_keys, with_prefix};
use crate::token::{lex_lt, TrieToken};
use super::key_ref::KeyRef;
use super::trie_builder::TrieBuilder;

verus! {

/// `q` is a prefix of some label of `s`.
pub open spec fn prefix_of_some<Token>(s: Set<Seq<Token>>, q: Seq<Token>) -> bool {
    exists|k: Seq<Token>| s.contains(k) && q.is_prefix_of(k)
}

/// `q` is a proper prefix of some label of `s`.
pub open spec fn strict_prefix_of_some<Token>(s: Set<Seq<Token>>, q: Seq<Token>) -> bool {
    exists|k: Seq<Token>| s.contains(k) && q.is_prefix_of(k) && k.len() > q.len()
}

/// `labels` holds exactly the labels of `s` that have `q` as a prefix (as a
/// proper prefix when `strict`), in increasing lexicographic order.
pub open spec fn lists_labels_below<Token: TrieToken>(
    s: Set<Seq<Token>>,
    q: Seq<Token>,
    strict: bool,
    labels: Seq<Seq<Token>>,
) -> bool {
    &&& forall|a: int|
        0 <= a < labels.len() ==> {
            &&& s.contains(#[trigger] labels[a])
            &&& q.is_prefix_of(labels[a])
            &&& strict ==> labels[a].len() > q.len()
        }
    &&& forall|a: int, b: int| 0 <= a < b < labels.len() ==> lex_lt(#[trigger] labels[a], #[trigger] labels[b])
    &&& forall|k: Seq<Token>|
        s.contains(k) && q.is_prefix_of(k) && (strict ==> k.len() > q.len()) ==> exists|a: int|
            0 <= a < labels.len() && #[trigger] labels[a] == k
}

/// The labels of `s` among the first `j` non-empty prefixes of `q`, shortest first.
pub open spec fn prefix_labels<Token>(s: Set<Seq<Token>>, q: Seq<Token>, j: int) -> Seq<Seq<Token>>
    decreases j,
{
    if j <= 0 {
        Seq::empty()
    } else if s.contains(q.take(j)) {
        prefix_labels(s, q, j - 1).push(q.take(j))
    } else {
        prefix_labels(s, q, j - 1)
    }
}

/// `k` is a label of `s` with prefix `q`, and every label of `s` with prefix
/// `q` has prefix `k`.
pub open spec fn shortest_common_label<Token>(s: Set<Seq<Token>>, q: Seq<Token>, k: Seq<Token>) -> bool {
    &&& s.contains(k)
    &&& q.is_prefix_of(k)
    &&& forall|k2: Seq<Token>| s.contains(k2) && q.is_prefix_of(k2) ==> k.is_prefix_of(k2)
}

/// The views of a sequence of token vectors.
pub open spec fn views_of<Token>(r: Seq<Vec<Token>>) -> Seq<Seq<Token>> {
    r.map_values(|v: Vec<Token>| v@)
}

/// A listing of keys with values, stripped of the values, lists the labels.
pub(crate) proof fn lemma_lists_labels<Token: TrieToken, Value>(
    m: Map<Seq<Token>, Value>,
    q: Seq<Token>,
    strict: bool,
    keys: Seq<(Seq<Token>, Value)>,
    labels: Seq<Seq<Token>>,
)
    requires
        lists_keys_below(m, q, strict, keys),
        labels.len() == keys.len(),
        forall|a: int| 0 <= a < labels.len() ==> #[trigger] labels[a] == keys[a].0,
    ensures
        lists_labels_below(m.dom(), q, strict, labels),
{
    assert forall|a: int| 0 <= a < labels.len() implies {
        &&& m.dom().contains(#[trigger] labels[a])
        &&& q.is_prefix_of(labels[a])
        &&& strict ==> labels[a].len() > q.len()
    } by {
        assert(m.dom().contains(keys[a].0));
    }
    assert forall|a: int, b: int| 0 <= a < b < labels.len() implies lex_lt(
        #[trigger] labels[a],
        #[trigger] labels[b],
    ) by {
        assert(lex_lt(keys[a].0, keys[b].0));
    }
    assert forall|k: Seq<Token>|
        m.dom().contains(k) && q.is_prefix_of(k) && (strict ==> k.len() > q.len()) implies exists|a: int|
        0 <= a < labels.len() && #[trigger] labels[a] == k by {
        let a = choose|a: int| 0 <= a < keys.len() && #[trigger] keys[a].0 == k;
        assert(labels[a] == k);
    }
}

/// The keys among the prefixes of a label are the labels among them.
pub(crate) proof fn lemma_prefix_labels<Token, Value>(m: Map<Seq<Token>, Value>, q: Seq<Token>, j: int)
    ensures
        prefix_keys(m, q, j) == prefix_labels(m.dom(), q, j),
    decreases j,
{
    if j > 0 {
        lemma_prefix_labels(m, q, j - 1);
    }
}

/// A trie for a set of labels.
pub struct Trie<Token: TrieToken>(pub crate::map::Trie<Token, ()>);

impl<Token: TrieToken> View for Trie<Token> {
    type V = Set<Seq<Token>>;

    /// The labels held.
    open spec fn view(&self) -> Set<Seq<Token>> {
        self.0@.dom()
    }
}

impl<Token: TrieToken> Trie<Token> {
    /// Get a key reference for a label: there is one when the label is empty
    /// (the root) or a prefix of some label held.
    pub fn get<L: Label<Token>>(&self, label: L) -> (r: Option<KeyRef<'_, Token>>)
        ensures
            r is Some == (label.tokens().len() == 0 || prefix_of_some(self@, label.tokens())),
            r is Some ==> r.unwrap().key_label() == label.tokens() && r.unwrap().trie_keys() == self@,
    {
        match self.0.get(label) {
            Some(n) => Some(KeyRef::of_node(n)),
            None => None,
        }
    }

    /// Is `label` held?
    pub fn is_exact<L: Label<Token>>(&self, label: L) -> (r: bool)
        ensures
            r == self@.contains(label.tokens()),
    {
        self.0.get_value(label).is_some()
    }

    /// Is `label` a proper prefix of some label held?
    ///
    /// A label may be a prefix, held, both, or neither.
    pub fn is_prefix<L: Label<Token>>(&self, label: L) -> (r: bool)
        ensures
            r == strict_prefix_of_some(self@, label.tokens()),
    {
        let ghost q = label.tokens();
        match self.0.get(label) {
            Some(n) => n.is_prefix(),
            None => {
                proof {
                    if strict_prefix_of_some(self@, q) {
                        assert(crate::map::trie::prefix_of_some_key(self.0@, q));
                    }
                }
                false
            },
        }
    }

    /// The labels held that are prefixes of `label`, shortest first.
    pub fn prefixes_of<L: Label<Token>>(&self, label: L) -> (r: Vec<Vec<Token>>)
        ensures
            views_of(r@) == prefix_labels(self@, label.tokens(), label.tokens().len() as int),
    {
        let ghost q = label.tokens();
        let it = self.0.prefixes_of(label);
        let r = it.labels();
        proof {
            lemma_prefix_labels(self.0@, q, q.len() as int);
            assert(views_of(r@) =~= it@.map_values(|p: (Seq<Token>, ())| p.0));
        }
        r
    }

    /// The labels held that are prefixes of `label`, shortest first, as
    /// [`Trie::prefixes_of`] gives them.
    pub fn prefixes_of_labels<L: Label<Token>>(&self, label: L) -> (r: Vec<Vec<Token>>)
        ensures
            views_of(r@) == prefix_labels(self@, label.tokens(), label.tokens().len() as int),
    {
        self.prefixes_of(label)
    }

    /// The labels held that start with `label`, in lexicographic order.
    pub fn starts_with<L: Label<Token>>(&self, label: L) -> (r: Vec<Vec<Token>>)
        ensures
            lists_labels_below(self@, label.tokens(), false, views_of(r@)),
    {
        let ghost q = label.tokens();
        let it = self.0.starts_with(label);
        let r = it.labels();
        proof {
            lemma_lists_labels(self.0@, q, false, it@, views_of(r@));
        }
        r
    }

    /// The labels held that start with `label`, as [`Trie::starts_with`]
    /// gives them.
    pub fn starts_with_labels<L: Label<Token>>(&self, label: L) -> (r: Vec<Vec<Token>>)
        ensures
            lists_labels_below(self@, label.tokens(), false, views_of(r@)),
    {
        self.starts_with(label)
    }

    /// The labels held that properly extend `label`, each as the tokens that
    /// follow `label`, in lexicographic order.
    pub fn suffixes_of<L: Label<Token>>(&self, label: L) -> (r: Vec<Vec<Token>>)
        ensures
            lists_labels_below(
                self@,
                label.tokens(),
                true,
                views_of(r@).map_values(|s: Seq<Token>| label.tokens() + s),
            ),
    {
        let ghost q = label.tokens();
        let it = self.0.suffixes_of(label);
        let r = it.labels();
        proof {
            lemma_lists_labels(
                self.0@,
                q,
                true,
                with_prefix(q, it@),
                views_of(r@).map_values(|s: Seq<Token>| q + s),
            );
        }
        r
    }

    /// The labels held that properly extend `label`, as
    /// [`Trie::suffixes_of`] gives them.
    pub fn suffixes_of_labels<L: Label<Token>>(&self, label: L) -> (r: Vec<Vec<Token>>)
        ensures
            lists_labels_below(
                self@,
                label.tokens(),
                true,
                views_of(r@).map_values(|s: Seq<Token>| label.tokens() + s),
            ),
    {
        self.suffixes_of(label)
    }

    /// All labels held, in lexicographic order.
    pub fn iter(&self) -> (r: Vec<Vec<Token>>)
        ensures
            lists_labels_below(self@, Seq::empty(), false, views_of(r@)),
    {
        let it = self.0.iter();
        let r = it.labels();
        proof {
            lemma_lists_labels(self.0@, Seq::empty(), false, it@, views_of(r@));
        }
        r
    }

    /// Starts an incremental search at the root.
    pub fn inc_search(&self) -> (r: IncSearch<'_, Token, ()>)
        ensures
            r.source() == self.0,
            r.searched() == Seq::<Token>::empty(),
    {
        IncSearch::new(&self.0)
    }

    /// The label where the labels that start with `label` start to differ,
    /// if there is one: the label held that is a prefix of all of them.
    pub fn longest_prefix<L: Label<Token>>(&self, label: L) -> (r: Option<Vec<Token>>)
        ensures
            r is Some == exists|k: Seq<Token>| shortest_common_label(self@, label.tokens(), k),
            r is Some ==> shortest_common_label(self@, label.tokens(), r.unwrap()@),
    {
        let ghost q = label.tokens();
        match self.0.path_of(label) {
            Some(n) => {
                let r = n.label();
                proof {
                    assert(shortest_common_key(self.0@, q, r@));
                    assert(shortest_common_label(self@, q, r@));
                }
                Some(r)
            },
            None => {
                proof {
                    if exists|k: Seq<Token>| shortest_common_label(self@, q, k) {
                        let k = choose|k: Seq<Token>| shortest_common_label(self@, q, k);
                        assert(shortest_common_key(self.0@, q, k));
                    }
                }
                None
            },
        }
    }

    /// Builds a trie from labels; each must be non-empty.
    pub fn from_iter<L: Label<Token>>(items: Vec<L>) -> (r: Self)
        requires
            forall|a: int| 0 <= a < items@.len() ==> (#[trigger] items@[a]).tokens().len() > 0,
        ensures
            r@ == Set::new(|k: Seq<Token>| exists|a: int| 0 <= a < items@.len() && (#[trigger] items@[a]).tokens() == k),
            r.0.well_formed(),
    {
        let ghost orig = items@;
        let mut builder = TrieBuilder::new();
        let mut items = items;
        let mut rev: Vec<L> = Vec::new();
        while items.len() > 0
            invariant
                items@.len() + rev@.len() == orig.len(),
                forall|a: int| 0 <= a < items@.len() ==> items@[a] == orig[a],
                forall|a: int| 0 <= a < rev@.len() ==> rev@[a] == orig[orig.len() - 1 - a],
            decreases items@.len(),
        {
            match items.pop() {
                Some(p) => rev.push(p),
                None => {},
            }
        }
        let ghost mut done: int = 0;
        proof {
            assert(builder@ =~= Set::new(|k: Seq<Token>| exists|a: int| 0 <= a < done && (#[trigger] orig[a]).tokens() == k));
        }
        while rev.len() > 0
            invariant
                0 <= done <= orig.len(),
                rev@.len() == orig.len() - done,
                forall|a: int| 0 <= a < rev@.len() ==> rev@[a] == orig[orig.len() - 1 - a],
                forall|a: int| 0 <= a < orig.len() ==> (#[trigger] orig[a]).tokens().len() > 0,
                builder@ == Set::new(|k: Seq<Token>| exists|a: int| 0 <= a < done && (#[trigger] orig[a]).tokens() == k),
            decreases rev@.len(),
        {
            match rev.pop() {
                Some(l) => {
                    proof {
                        assert(l == orig[done]);
                    }
                    let ghost before = builder@;
                    builder.insert(l);
                    proof {
                        assert(builder@ =~= Set::new(|k: Seq<Token>| exists|a: int| 0 <= a < done + 1 && (#[trigger] orig[a]).tokens() == k)) by {
                            assert forall|k: Seq<Token>| builder@.contains(k) implies exists|a: int| 0 <= a < done + 1 && (#[trigger] orig[a]).tokens() == k by {
                                if k == orig[done].tokens() {
                                    assert(orig[done].tokens() == k);
                                } else {
                                    assert(before.contains(k));
                                }
                            }
                        }
                        done = done + 1;
                    }
                },
                None => {},
            }
        }
        proof {
            assert(Set::new(|k: Seq<Token>| exists|a: int| 0 <= a < done && (#[trigger] orig[a]).tokens() == k)
                =~= Set::new(|k: Seq<Token>| exists|a: int| 0 <= a < orig.len() && (#[trigger] orig[a]).tokens() == k));
        }
        builder.build()
    }

}

impl<Token: TrieToken> Clone for Trie<Token> {
    /// A copy of this trie.
    fn clone(&self) -> (r: Self)
        ensures
            r@ == self@,
    {
        Trie(self.0.clone())
    }
}

} // verus!
