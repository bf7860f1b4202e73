//! Incremental search: a label is fed to the trie a token at a time, and each
//! step costs one search among the children of the current node.
use vstd::prelude::*;
use crate::label::{Label, LabelKind};
use crate::map::node_ref::NodeRef;
use crate::map::trie::{prefix_of_some_key, strict_prefix_of_some_key, Trie};
use crate::token::TrieToken;

verus! {

/// An incremental search of a trie: a position in it, at the node of the
/// label searched so far.
pub struct IncSearch<'t, Token: TrieToken, Value> {
    pub(crate) trie: &'t Trie<Token, Value>,
    pub(crate) node: u64,
}

/// A search position, kept apart from the search that borrows the trie.
pub struct Position {
    pub(crate) num: u64,
}

impl Position {
    /// The position names a node of `trie`.
    pub closed spec fn is_in<Token: TrieToken, Value>(self, trie: Trie<Token, Value>) -> bool {
        1 <= self.num <= trie.size() + 1
    }

    /// The label of the node of `trie` at this position.
    pub closed spec fn label_in<Token: TrieToken, Value>(self, trie: Trie<Token, Value>) -> Seq<Token> {
        trie.label(self.num - 1)
    }
}

/// Two keys of `m` run through `q` and part right after it.
pub open spec fn branches_at<Token, Value>(m: Map<Seq<Token>, Value>, q: Seq<Token>) -> bool {
    exists|k1: Seq<Token>, k2: Seq<Token>|
        #![trigger m.dom().contains(k1), m.dom().contains(k2)]
        m.dom().contains(k1) && m.dom().contains(k2) && q.is_prefix_of(k1) && q.is_prefix_of(k2)
            && k1.len() > q.len() && k2.len() > q.len() && k1[q.len() as int] != k2[q.len() as int]
}

/// A prefix of a prefix of some key is a prefix of some key.
pub proof fn lemma_prefix_of_key_closed<Token, Value>(
    m: Map<Seq<Token>, Value>,
    p: Seq<Token>,
    q: Seq<Token>,
)
    requires
        p.is_prefix_of(q),
        prefix_of_some_key(m, q),
    ensures
        prefix_of_some_key(m, p),
{
    let k = choose|k: Seq<Token>| m.dom().contains(k) && q.is_prefix_of(k);
    crate::search::lemma_prefix_trans(p, q, k);
}

impl<Token: TrieToken, Value> Trie<Token, Value> {
    /// The child of node `num` along `token`, if the label grown by `token`
    /// is a prefix of some key.
    pub(crate) fn step(&self, num: u64, token: &Token) -> (r: Option<u64>)
        requires
            self.wf(),
            1 <= num <= self.size() + 1,
        ensures
            r is Some == prefix_of_some_key(self@, self.label(num - 1).push(*token)),
            r is Some ==> {
                let c = r.unwrap();
                &&& num < c <= self.size() + 1
                &&& self.label(c - 1) == self.label(num - 1).push(*token)
            },
    {
        let ghost v = num - 1;
        let ghost q = self.label(v).push(*token);
        match self.find_child(num, token) {
            Some(c) => {
                proof {
                    let t = choose|t: int|
                        0 <= t < self.deg(v) && c == #[trigger] self.slot(v, t) + 1 && self.tok(c - 1)
                            == *token;
                    self.lemma_child(v, t);
                    self.lemma_node_prefix(c - 1);
                }
                Some(c)
            },
            None => {
                proof {
                    if self.is_node_label(q) {
                        let u = choose|u: int| 0 <= u <= self.size() && self.label(u) == q;
                        self.lemma_label_len(u);
                        assert(self.label(u).drop_last() =~= self.label(v));
                        let t = self.lemma_child_slot(v, u);
                        self.lemma_child(v, t);
                        assert(self.tok(u) == q.last());
                    }
                    self.lemma_not_node(q);
                }
                None
            },
        }
    }

    /// Starts an incremental search at the root.
    pub fn inc_search(&self) -> (r: IncSearch<'_, Token, Value>)
        ensures
            r.source() == *self,
            r.searched() == Seq::<Token>::empty(),
    {
        IncSearch::new(self)
    }
}

impl<'t, Token: TrieToken, Value> Clone for IncSearch<'t, Token, Value> {
    /// A search at the same position of the same trie.
    fn clone(&self) -> (r: Self)
        ensures
            r == *self,
    {
        proof {
            use_type_invariant(self);
        }
        IncSearch { trie: self.trie, node: self.node }
    }
}

impl<'t, Token: TrieToken, Value> IncSearch<'t, Token, Value> {
    #[verifier::type_invariant]
    pub(crate) open spec fn inv(self) -> bool {
        1 <= self.node <= self.trie.size() + 1
    }

    /// The trie being searched.
    pub closed spec fn source(self) -> Trie<Token, Value> {
        *self.trie
    }

    /// The label searched so far.
    pub closed spec fn searched(self) -> Seq<Token> {
        self.trie.label(self.node - 1)
    }

    /// Starts an incremental search of `trie` at the root.
    pub fn new(trie: &'t Trie<Token, Value>) -> (r: Self)
        ensures
            r.source() == *trie,
            r.searched() == Seq::<Token>::empty(),
    {
        proof {
            use_type_invariant(trie);
        }
        IncSearch { trie, node: 1 }
    }

    /// The current position of the search.
    pub fn position(&self) -> (r: Position)
        ensures
            r.is_in(self.source()),
            r.label_in(self.source()) == self.searched(),
    {
        proof {
            use_type_invariant(self);
        }
        Position { num: self.node }
    }

    /// Resumes a search of `trie` at a position taken from a search of it.
    pub fn resume(trie: &'t Trie<Token, Value>, position: Position) -> (r: Self)
        requires
            position.is_in(*trie),
        ensures
            r.source() == *trie,
            r.searched() == position.label_in(*trie),
    {
        IncSearch { trie, node: position.num }
    }

    /// The node one `token` further, without moving there.
    pub fn peek(&self, token: &Token) -> (r: Option<NodeRef<'t, Token, Value>>)
        ensures
            r is Some == prefix_of_some_key(self.source()@, self.searched().push(*token)),
            r is Some ==> r.unwrap().node_label() == self.searched().push(*token)
                && r.unwrap().trie_map() == self.source()@,
    {
        proof {
            use_type_invariant(self);
            use_type_invariant(self.trie);
        }
        let trie = self.trie;
        match trie.step(self.node, token) {
            Some(c) => Some(NodeRef::at(trie, c)),
            None => None,
        }
    }

    /// The kind of the label one `token` further, without moving there.
    pub fn peek_kind(&self, token: &Token) -> (r: Option<LabelKind>)
        ensures
            r is Some == prefix_of_some_key(self.source()@, self.searched().push(*token)),
            r is Some ==> r.unwrap() == LabelKind::of(
                strict_prefix_of_some_key(self.source()@, self.searched().push(*token)),
                self.source()@.dom().contains(self.searched().push(*token)),
            ),
    {
        match self.peek(token) {
            Some(n) => Some(n.kind()),
            None => None,
        }
    }

    /// Moves one `token` further, if the label grown by it is a prefix of
    /// some key; otherwise stays.
    pub fn next(&mut self, token: &Token) -> (r: Option<NodeRef<'t, Token, Value>>)
        ensures
            final(self).source() == old(self).source(),
            r is Some == prefix_of_some_key(old(self).source()@, old(self).searched().push(*token)),
            r is Some ==> r.unwrap().node_label() == old(self).searched().push(*token)
                && r.unwrap().trie_map() == old(self).source()@,
            final(self).searched() == if r is Some {
                old(self).searched().push(*token)
            } else {
                old(self).searched()
            },
    {
        proof {
            use_type_invariant(&*self);
            use_type_invariant(self.trie);
        }
        let trie = self.trie;
        match trie.step(self.node, token) {
            Some(c) => {
                self.node = c;
                Some(NodeRef::at(trie, c))
            },
            None => None,
        }
    }

    /// Moves one `token` further, as [`IncSearch::next`] does, and returns
    /// the kind of the label reached.
    pub fn next_kind(&mut self, token: &Token) -> (r: Option<LabelKind>)
        ensures
            final(self).source() == old(self).source(),
            r is Some == prefix_of_some_key(old(self).source()@, old(self).searched().push(*token)),
            r is Some ==> r.unwrap() == LabelKind::of(
                strict_prefix_of_some_key(old(self).source()@, old(self).searched().push(*token)),
                old(self).source()@.dom().contains(old(self).searched().push(*token)),
            ),
            final(self).searched() == if r is Some {
                old(self).searched().push(*token)
            } else {
                old(self).searched()
            },
    {
        match self.next(token) {
            Some(n) => Some(n.kind()),
            None => None,
        }
    }

    /// Moves along the tokens of `label` while the label grows into a prefix
    /// of some key. Returns the node reached when all of them were taken,
    /// else `Err` with the index of the first token that could not be taken
    /// (0 for an empty label).
    pub fn next_label<L: Label<Token>>(&mut self, label: L) -> (r: Result<
        NodeRef<'t, Token, Value>,
        usize,
    >)
        ensures
            final(self).source() == old(self).source(),
            r is Ok == (label.tokens().len() > 0 && prefix_of_some_key(
                old(self).source()@,
                old(self).searched() + label.tokens(),
            )),
            r is Ok ==> r->Ok_0.node_label() == old(self).searched() + label.tokens()
                && r->Ok_0.trie_map() == old(self).source()@ && final(self).searched()
                == old(self).searched() + label.tokens(),
            r is Err ==> {
                let i = r->Err_0 as int;
                &&& i <= label.tokens().len()
                &&& i < label.tokens().len() ==> !prefix_of_some_key(
                    old(self).source()@,
                    old(self).searched() + label.tokens().take(i + 1),
                )
                &&& i == label.tokens().len() ==> i == 0
                &&& forall|j: int|
                    1 <= j <= i ==> prefix_of_some_key(
                        old(self).source()@,
                        #[trigger] (old(self).searched() + label.tokens().take(j)),
                    )
                &&& final(self).searched() == old(self).searched() + label.tokens().take(i)
            },
    {
        let ghost c = self.searched();
        let ghost m = self.source()@;
        let q = label.into_tokens();
        let mut last: Option<NodeRef<'t, Token, Value>> = None;
        let mut i: usize = 0;
        proof {
            assert(c + q@.take(0) =~= c);
        }
        while i < q.len()
            invariant
                0 <= i <= q@.len(),
                q@ == label.tokens(),
                c == old(self).searched(),
                self.source() == old(self).source(),
                m == self.source()@,
                self.searched() == c + q@.take(i as int),
                forall|j: int| 1 <= j <= i ==> prefix_of_some_key(m, #[trigger] (c + q@.take(j))),
                i == 0 ==> last is None,
                i > 0 ==> last is Some && last->Some_0.node_label() == self.searched()
                    && last->Some_0.trie_map() == m,
            decreases q@.len() - i,
        {
            proof {
                assert(q@.take(i + 1) =~= q@.take(i as int).push(q@[i as int]));
                assert(c + q@.take(i + 1) =~= (c + q@.take(i as int)).push(q@[i as int]));
            }
            match self.next(&q[i]) {
                Some(n) => {
                    last = Some(n);
                },
                None => {
                    proof {
                        if prefix_of_some_key(m, c + q@) {
                            assert((c + q@.take(i + 1)).is_prefix_of(c + q@)) by {
                                assert(c + q@.take(i + 1) =~= (c + q@).subrange(0, c.len() + i + 1));
                            }
                            lemma_prefix_of_key_closed(m, c + q@.take(i + 1), c + q@);
                        }
                    }
                    return Err(i);
                },
            }
            i = i + 1;
        }
        proof {
            assert(q@.take(q@.len() as int) =~= q@);
        }
        match last {
            Some(n) => Ok(n),
            None => Err(0),
        }
    }

    /// Moves along the tokens of `label`, as [`IncSearch::next_label`] does,
    /// and returns the kind of the label reached.
    pub fn next_label_kind<L: Label<Token>>(&mut self, label: L) -> (r: Result<LabelKind, usize>)
        ensures
            final(self).source() == old(self).source(),
            r is Ok == (label.tokens().len() > 0 && prefix_of_some_key(
                old(self).source()@,
                old(self).searched() + label.tokens(),
            )),
            r is Ok ==> r->Ok_0 == LabelKind::of(
                strict_prefix_of_some_key(old(self).source()@, old(self).searched() + label.tokens()),
                old(self).source()@.dom().contains(old(self).searched() + label.tokens()),
            ) && final(self).searched() == old(self).searched() + label.tokens(),
            r is Err ==> {
                let i = r->Err_0 as int;
                &&& i <= label.tokens().len()
                &&& i < label.tokens().len() ==> !prefix_of_some_key(
                    old(self).source()@,
                    old(self).searched() + label.tokens().take(i + 1),
                )
                &&& i == label.tokens().len() ==> i == 0
                &&& forall|j: int|
                    1 <= j <= i ==> prefix_of_some_key(
                        old(self).source()@,
                        #[trigger] (old(self).searched() + label.tokens().take(j)),
                    )
                &&& final(self).searched() == old(self).searched() + label.tokens().take(i)
            },
    {
        match self.next_label(label) {
            Ok(n) => Ok(n.kind()),
            Err(i) => Err(i),
        }
    }

    /// The tokens that can follow the label searched so far, in order, each
    /// with the value of the label grown by it.
    pub fn children(&self) -> (r: Vec<(&'t Token, Option<&'t Value>)>)
        ensures
            forall|a: int|
                #![trigger r@[a]]
                0 <= a < r@.len() ==> {
                    let q = self.searched().push(*r@[a].0);
                    &&& prefix_of_some_key(self.source()@, q)
                    &&& r@[a].1 is Some == self.source()@.dom().contains(q)
                    &&& r@[a].1 is Some ==> *r@[a].1.unwrap() == self.source()@[q]
                },
            forall|a: int, b: int|
                0 <= a < b < r@.len() ==> (*(#[trigger] r@[a]).0).order() < (*(
                #[trigger] r@[b]).0).order(),
            forall|t: Token|
                prefix_of_some_key(self.source()@, #[trigger] self.searched().push(t)) ==> exists|
                    a: int,
                | 0 <= a < r@.len() && *(#[trigger] r@[a]).0 == t,
    {
        proof {
            use_type_invariant(self);
            use_type_invariant(self.trie);
        }
        let trie = self.trie;
        let ghost v = self.node - 1;
        let kids = trie.children_nums(self.node);
        let mut r: Vec<(&'t Token, Option<&'t Value>)> = Vec::new();
        let mut k: usize = 0;
        while k < kids.len()
            invariant
                trie.wf(),
                trie == self.trie,
                v == self.node - 1,
                0 <= v <= trie.size(),
                kids.len() == trie.deg(v),
                forall|t: int| 0 <= t < kids.len() ==> kids[t] == trie.slot(v, t) + 1,
                0 <= k <= kids.len(),
                r@.len() == k,
                forall|a: int|
                    #![trigger r@[a]]
                    0 <= a < k ==> {
                        &&& *r@[a].0 == trie.tok(trie.slot(v, a))
                        &&& r@[a].1 is Some == trie.val(trie.slot(v, a)) is Some
                        &&& r@[a].1 is Some ==> *r@[a].1.unwrap() == trie.val(trie.slot(v, a)).unwrap()
                    },
            decreases kids.len() - k,
        {
            proof {
                trie.lemma_child(v, k as int);
            }
            let c = kids[k];
            r.push((trie.token_at(c), trie.value_at(c)));
            k = k + 1;
        }
        proof {
            assert forall|a: int| #![trigger r@[a]] 0 <= a < r@.len() implies {
                let q = self.searched().push(*r@[a].0);
                &&& prefix_of_some_key(self.source()@, q)
                &&& r@[a].1 is Some == self.source()@.dom().contains(q)
                &&& r@[a].1 is Some ==> *r@[a].1.unwrap() == self.source()@[q]
            } by {
                trie.lemma_child(v, a);
                trie.lemma_node_prefix(trie.slot(v, a));
                trie.lemma_view_at(trie.slot(v, a));
            }
            assert forall|a: int, b: int| 0 <= a < b < r@.len() implies (*(#[trigger] r@[a]).0).order()
                < (*(#[trigger] r@[b]).0).order() by {
            }
            assert forall|t: Token| prefix_of_some_key(self.source()@, #[trigger] self.searched().push(t))
                implies exists|a: int| 0 <= a < r@.len() && *(#[trigger] r@[a]).0 == t by {
                let q = self.searched().push(t);
                let key = choose|key: Seq<Token>| trie@.dom().contains(key) && q.is_prefix_of(key);
                trie.lemma_view_def(key);
                let w = choose|w: int| trie.key_node(w) && trie.label(w) == key;
                let u = trie.lemma_ancestor(w, q.len() as int);
                assert(trie.label(u) =~= q);
                assert(trie.label(u).drop_last() =~= trie.label(v));
                let a = trie.lemma_child_slot(v, u);
                trie.lemma_child(v, a);
                assert(trie.tok(u) == q.last());
                assert(*r@[a].0 == t);
            }
        }
        r
    }

    /// The value of the label searched so far, if it is a key.
    pub fn value(&self) -> (r: Option<&'t Value>)
        ensures
            r is Some == self.source()@.dom().contains(self.searched()),
            r is Some ==> *r.unwrap() == self.source()@[self.searched()],
    {
        proof {
            use_type_invariant(self);
            use_type_invariant(self.trie);
            if self.node == 1 {
                self.trie.lemma_view_root();
            } else {
                self.trie.lemma_view_at(self.node - 1);
            }
        }
        self.trie.value_at(self.node)
    }

    /// Moves down while the label searched has exactly one continuation and,
    /// past the first step, is not a key. Returns `Ok(n)` after `n` steps when
    /// it stops at a key, or `Ok(0)` when no key extends the label at all;
    /// `Err(n)` after `n` steps when it stops where the keys below part.
    pub fn goto_longest_prefix(&mut self) -> (r: Result<usize, usize>)
        ensures
            final(self).source() == old(self).source(),
            ({
                let m = old(self).source()@;
                let c = old(self).searched();
                let l = final(self).searched();
                let n: int = match r {
                    Ok(n) => n as int,
                    Err(n) => n as int,
                };
                &&& c.is_prefix_of(l)
                &&& l.len() == c.len() + n
                &&& forall|k: Seq<Token>|
                    #![trigger m.dom().contains(k)]
                    m.dom().contains(k) && c.is_prefix_of(k) && k.len() > c.len() ==> l.is_prefix_of(k)
                &&& forall|j: int| c.len() < j < l.len() ==> !m.dom().contains(#[trigger] l.take(j))
                &&& r is Ok && n == 0 ==> !strict_prefix_of_some_key(m, c)
                &&& r is Ok && n > 0 ==> m.dom().contains(l)
                &&& r is Err ==> branches_at(m, l)
                &&& r is Err && n > 0 ==> !m.dom().contains(l)
            }),
    {
        proof {
            use_type_invariant(&*self);
            use_type_invariant(self.trie);
        }
        let trie = self.trie;
        let ghost m = trie@;
        let ghost c = trie.label(self.node - 1);
        let mut node = self.node;
        let mut count: usize = 0;
        proof {
            trie.lemma_label_len_bound(node - 1);
            assert(c.is_prefix_of(c)) by {
                assert(c =~= c.subrange(0, c.len() as int));
            }
        }
        loop
            invariant
                trie.wf(),
                self.trie == trie,
                old(self).trie == trie,
                m == trie@,
                c == trie.label(old(self).node - 1),
                1 <= node <= trie.size() + 1,
                c.is_prefix_of(trie.label(node - 1)),
                trie.label(node - 1).len() == c.len() + count,
                trie.label(node - 1).len() <= node - 1,
                forall|k: Seq<Token>|
                    #![trigger m.dom().contains(k)]
                    m.dom().contains(k) && c.is_prefix_of(k) && k.len() > c.len() ==> trie.label(
                        node - 1,
                    ).is_prefix_of(k),
                forall|j: int|
                    c.len() < j < trie.label(node - 1).len() ==> !m.dom().contains(
                        #[trigger] trie.label(node - 1).take(j),
                    ),
                count > 0 ==> node > 1,
            decreases trie.size() + 1 - node,
        {
            let ghost v: int = node - 1;
            let ghost l = trie.label(v);
            proof {
                if v >= 1 {
                    trie.lemma_view_at(v);
                }
            }
            if count > 0 && trie.value_at(node).is_some() {
                self.node = node;
                return Ok(count);
            }
            let kids = trie.children_nums(node);
            if kids.len() == 1 {
                let u = kids[0];
                proof {
                    trie.lemma_child(v, 0);
                    trie.lemma_label_len_bound(u - 1);
                    let lu = trie.label(u - 1);
                    assert(l.is_prefix_of(lu)) by {
                        assert(l =~= lu.subrange(0, l.len() as int));
                    }
                    crate::search::lemma_prefix_trans(c, l, lu);
                    assert forall|k: Seq<Token>|
                        #![trigger m.dom().contains(k)]
                        m.dom().contains(k) && c.is_prefix_of(k) && k.len() > c.len() implies lu.is_prefix_of(
                            k,
                        ) by {
                        assert(l.is_prefix_of(k));
                        if k.len() == l.len() {
                            assert(k =~= l);
                        }
                        trie.lemma_view_def(k);
                        let w = choose|w: int| trie.key_node(w) && trie.label(w) == k;
                        let a = trie.lemma_ancestor(w, l.len() as int + 1);
                        assert(trie.label(a).drop_last() =~= l);
                        let t = trie.lemma_child_slot(v, a);
                        assert(trie.label(a) =~= k.take(l.len() as int + 1));
                    }
                    assert forall|j: int| c.len() < j < lu.len() implies !m.dom().contains(
                        #[trigger] lu.take(j),
                    ) by {
                        if j < l.len() {
                            assert(lu.take(j) =~= l.take(j));
                        } else {
                            assert(lu.take(j) =~= l);
                        }
                    }
                }
                node = u;
                count = count + 1;
            } else if kids.len() == 0 {
                proof {
                    trie.lemma_has_children(v);
                    assert(l =~= c);
                }
                self.node = node;
                return Ok(count);
            } else {
                proof {
                    trie.lemma_child(v, 0);
                    trie.lemma_child(v, 1);
                    let c0 = trie.slot(v, 0);
                    let c1 = trie.slot(v, 1);
                    let w0 = trie.lemma_key_below(c0);
                    let w1 = trie.lemma_key_below(c1);
                    trie.lemma_view_at(w0);
                    trie.lemma_view_at(w1);
                    let k0 = trie.label(w0);
                    let k1 = trie.label(w1);
                    assert(trie.tok(c0).order() < trie.tok(c1).order());
                    assert(l.is_prefix_of(trie.label(c0))) by {
                        assert(l =~= trie.label(c0).subrange(0, l.len() as int));
                    }
                    assert(l.is_prefix_of(trie.label(c1))) by {
                        assert(l =~= trie.label(c1).subrange(0, l.len() as int));
                    }
                    crate::search::lemma_prefix_trans(l, trie.label(c0), k0);
                    crate::search::lemma_prefix_trans(l, trie.label(c1), k1);
                    assert(k0[l.len() as int] == trie.label(c0)[l.len() as int]);
                    assert(k1[l.len() as int] == trie.label(c1)[l.len() as int]);
                    assert(m.dom().contains(k0) && m.dom().contains(k1) && l.is_prefix_of(k0)
                        && l.is_prefix_of(k1) && k0.len() > l.len() && k1.len() > l.len()
                        && k0[l.len() as int] != k1[l.len() as int]);
                }
                self.node = node;
                return Err(count);
            }
        }
    }

    /// The label searched so far.
    pub fn prefix(&self) -> (r: Vec<Token>)
        ensures
            r@ == self.searched(),
    {
        proof {
            use_type_invariant(self);
            use_type_invariant(self.trie);
            assert(self.trie.label(0) == Seq::<Token>::empty());
        }
        let r = self.trie.label_from(1, self.node);
        proof {
            assert(r@ =~= self.searched());
        }
        r
    }

    /// The length of the label searched so far.
    pub fn prefix_len(&self) -> (r: usize)
        ensures
            r == self.searched().len(),
    {
        proof {
            use_type_invariant(self);
            use_type_invariant(self.trie);
        }
        let trie = self.trie;
        let mut cur = self.node;
        let mut n: usize = 0;
        proof {
            trie.lemma_label_len_bound(cur - 1);
        }
        while cur != 1
            invariant
                trie.wf(),
                1 <= cur <= trie.size() + 1,
                trie.label(cur - 1).len() <= cur - 1,
                n + trie.label(cur - 1).len() == self.trie.label(self.node - 1).len(),
                trie == self.trie,
                self.node <= trie.size() + 1,
                self.trie.label(self.node - 1).len() <= self.node - 1,
            decreases cur,
        {
            proof {
                trie.lemma_label_len((cur - 1) as int);
            }
            let p = trie.parent_num(cur);
            proof {
                trie.lemma_label_len_bound(p - 1);
            }
            cur = p;
            n = n + 1;
        }
        proof {
            trie.lemma_label_len(0);
        }
        n
    }

    /// Goes back to the root.
    pub fn reset(&mut self)
        ensures
            final(self).source() == old(self).source(),
            final(self).searched() == Seq::<Token>::empty(),
    {
        proof {
            use_type_invariant(self.trie);
        }
        self.node = 1;
    }
}

} // verus!
