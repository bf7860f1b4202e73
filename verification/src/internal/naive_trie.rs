//! Naive trie with ordered tokens on its edges; the builder's working form.
use vstd::prelude::*;
use crate::token::{lemma_sorted_unique_by, occurs_in, TrieToken};

verus! {

/// Naive trie with ordered token sequences on its edges.
///
/// The following naive trie contains these words: a, app, apple, application.
///
/// ```text
/// <Root>
///   | a
/// <IntermOrLeaf (Terminate)>
///   | p
/// <IntermOrLeaf>
///   | p
/// <IntermOrLeaf (Terminate)>
///   | l
/// <IntermOrLeaf>
///   |------------------------------+
///   | e                            | i
/// <IntermOrLeaf (Terminate)>     <IntermOrLeaf>
///                                  | c, a, t, i, o
///                                  ...
///                                  | n
///                                <IntermOrLeaf (Terminate)>
/// ```
pub enum NaiveTrie<Token, Value> {
    Root(NaiveTrieRoot<Token, Value>),
    IntermOrLeaf(NaiveTrieIntermOrLeaf<Token, Value>),
    /// A marker between sibling groups in a breadth-first listing.
    PhantomSibling,
}

/// The root: it has children but no token and no value.
pub struct NaiveTrieRoot<Token, Value> {
    /// Sorted by token order.
    pub children: Vec<NaiveTrie<Token, Value>>,
}

/// A node below the root.
pub struct NaiveTrieIntermOrLeaf<Token, Value> {
    /// Sorted by token order.
    pub children: Vec<NaiveTrie<Token, Value>>,
    pub token: Token,
    pub value: Option<Value>,
}

/// Tokens of `ks` strictly increase.
pub open spec fn sorted_kids<Token: TrieToken, Value>(ks: Seq<NaiveTrie<Token, Value>>) -> bool {
    forall|a: int, b: int|
        0 <= a < b < ks.len() ==> (#[trigger] ks[a].tok()).order() < (#[trigger] ks[b].tok()).order()
}

/// Some child in `ks` has token `x`.
pub open spec fn has_kid<Token: TrieToken, Value>(ks: Seq<NaiveTrie<Token, Value>>, x: Token) -> bool {
    exists|j: int| 0 <= j < ks.len() && (#[trigger] ks[j].tok()) == x
}

/// The position of the child with token `x` in `ks`.
pub open spec fn kid_pos<Token: TrieToken, Value>(ks: Seq<NaiveTrie<Token, Value>>, x: Token) -> int {
    choose|j: int| 0 <= j < ks.len() && (#[trigger] ks[j].tok()) == x
}

/// The value at relative path `r` (non-empty) below the children `ks`.
pub open spec fn find_below<Token: TrieToken, Value>(
    ks: Seq<NaiveTrie<Token, Value>>,
    r: Seq<Token>,
) -> Option<Value> {
    if r.len() > 0 && has_kid(ks, r[0]) {
        ks[kid_pos(ks, r[0])].lookup(r.drop_first())
    } else {
        None
    }
}

impl<Token: TrieToken, Value> NaiveTrie<Token, Value> {
    pub open spec fn kids(self) -> Seq<NaiveTrie<Token, Value>> {
        match self {
            NaiveTrie::Root(r) => r.children@,
            NaiveTrie::IntermOrLeaf(n) => n.children@,
            NaiveTrie::PhantomSibling => seq![],
        }
    }

    pub open spec fn tok(self) -> Token {
        match self {
            NaiveTrie::IntermOrLeaf(n) => n.token,
            _ => arbitrary(),
        }
    }

    pub open spec fn val(self) -> Option<Value> {
        match self {
            NaiveTrie::IntermOrLeaf(n) => n.value,
            _ => None,
        }
    }

    /// A node below the root: children sorted and well formed, and it ends a
    /// word or has children.
    pub open spec fn wf_node(self) -> bool
        decreases self,
    {
        match self {
            NaiveTrie::IntermOrLeaf(n) => {
                &&& (n.value is Some || n.children.len() > 0)
                &&& sorted_kids(n.children@)
                &&& forall|j: int| 0 <= j < n.children.len() ==> (#[trigger] n.children@[j]).wf_node()
            },
            _ => false,
        }
    }

    /// The children are sorted and well formed.
    pub open spec fn wf_kids(self) -> bool {
        &&& sorted_kids(self.kids())
        &&& forall|j: int| 0 <= j < self.kids().len() ==> (#[trigger] self.kids()[j]).wf_node()
    }

    /// A well-formed root.
    pub open spec fn wf_root(self) -> bool {
        &&& self is Root
        &&& self.wf_kids()
    }

    /// The node reached from this one along the path `p`.
    pub open spec fn subtree_at(self, p: Seq<Token>) -> Option<NaiveTrie<Token, Value>>
        decreases p.len(),
    {
        if p.len() == 0 {
            Some(self)
        } else if has_kid(self.kids(), p[0]) {
            self.kids()[kid_pos(self.kids(), p[0])].subtree_at(p.drop_first())
        } else {
            None
        }
    }

    /// The value stored at relative path `r`.
    pub open spec fn lookup(self, r: Seq<Token>) -> Option<Value> {
        match self.subtree_at(r) {
            Some(s) => s.val(),
            None => None,
        }
    }
}

impl<Token: TrieToken, Value> NaiveTrie<Token, Value> {
    /// How many leading tokens of `w` already form a path from this node.
    pub open spec fn matched(self, w: Seq<Token>) -> nat {
        matched_kids(self.kids(), w)
    }

    /// The number of nodes in this subtree, counting this one.
    pub open spec fn count(self) -> nat
        decreases self, 0nat,
    {
        match self {
            NaiveTrie::Root(r) => 1 + count_upto(r.children@, r.children@.len() as int),
            NaiveTrie::IntermOrLeaf(n) => 1 + count_upto(n.children@, n.children@.len() as int),
            NaiveTrie::PhantomSibling => 1,
        }
    }
}

/// The number of nodes in the first `j` subtrees of `ks`.
pub open spec fn count_upto<Token: TrieToken, Value>(ks: Seq<NaiveTrie<Token, Value>>, j: int) -> nat
    decreases ks, j,
{
    if 0 < j <= ks.len() {
        count_upto(ks, j - 1) + ks[j - 1].count()
    } else {
        0
    }
}

/// How many leading tokens of `w` already form a path below the children `ks`.
pub open spec fn matched_kids<Token: TrieToken, Value>(ks: Seq<NaiveTrie<Token, Value>>, w: Seq<Token>) -> nat
    decreases w.len(),
{
    if w.len() > 0 && has_kid(ks, w[0]) {
        1 + matched_kids(ks[kid_pos(ks, w[0])].kids(), w.drop_first())
    } else {
        0
    }
}

/// Replacing subtree `j` changes the count by the difference of the two subtrees.
proof fn lemma_count_update<Token: TrieToken, Value>(
    ks: Seq<NaiveTrie<Token, Value>>,
    j: int,
    c: NaiveTrie<Token, Value>,
    n: int,
)
    requires
        0 <= j < ks.len(),
        0 <= n <= ks.len(),
    ensures
        count_upto(ks.update(j, c), n) + (if j < n { ks[j].count() } else { 0 }) == count_upto(ks, n) + (
        if j < n { c.count() } else { 0 }),
    decreases n,
{
    if n > 0 {
        lemma_count_update(ks, j, c, n - 1);
    }
}

/// Inserting a subtree adds its count.
proof fn lemma_count_insert<Token: TrieToken, Value>(
    ks: Seq<NaiveTrie<Token, Value>>,
    j: int,
    c: NaiveTrie<Token, Value>,
    n: int,
)
    requires
        0 <= j <= ks.len(),
        0 <= n <= ks.len() + 1,
    ensures
        count_upto(ks.insert(j, c), n) == if n <= j {
            count_upto(ks, n)
        } else {
            count_upto(ks, n - 1) + c.count()
        },
    decreases n,
{
    if n > 0 {
        lemma_count_insert(ks, j, c, n - 1);
        if n - 1 > j {
            assert(ks.insert(j, c)[n - 1] == ks[n - 2]);
        }
    }
}

/// The number of nodes in a queue of child lists.
pub open spec fn queue_count<Token: TrieToken, Value>(q: Seq<Vec<NaiveTrie<Token, Value>>>) -> nat
    decreases q.len(),
{
    if q.len() == 0 {
        0
    } else {
        queue_count(q.drop_last()) + count_upto(q.last()@, q.last()@.len() as int)
    }
}

pub proof fn lemma_queue_count_front<Token: TrieToken, Value>(q: Seq<Vec<NaiveTrie<Token, Value>>>)
    requires
        q.len() > 0,
    ensures
        queue_count(q) == count_upto(q[0]@, q[0]@.len() as int) + queue_count(q.drop_first()),
    decreases q.len(),
{
    if q.len() > 1 {
        lemma_queue_count_front(q.drop_last());
        assert(q.drop_last()[0] == q[0]);
        assert(q.drop_last().drop_first() == q.drop_first().drop_last());
        assert(q.drop_first().last() == q.last());
        assert(queue_count(q.drop_first()) == queue_count(q.drop_first().drop_last()) + count_upto(
            q.drop_first().last()@,
            q.drop_first().last()@.len() as int,
        ));
    } else {
        assert(q.drop_first().len() == 0);
        assert(q.drop_last().len() == 0);
        assert(q.last() == q[0]);
        assert(queue_count(q.drop_last()) == 0);
        assert(queue_count(q.drop_first()) == 0);
    }
}

pub proof fn lemma_queue_count_push<Token: TrieToken, Value>(
    q: Seq<Vec<NaiveTrie<Token, Value>>>,
    x: Vec<NaiveTrie<Token, Value>>,
)
    ensures
        queue_count(q.push(x)) == queue_count(q) + count_upto(x@, x@.len() as int),
{
    assert(q.push(x).drop_last() == q);
}

/// The node at the end of path `p + [x]` is the child with token `x` of the
/// node at the end of `p`.
pub proof fn lemma_subtree_push<Token: TrieToken, Value>(
    t: NaiveTrie<Token, Value>,
    p: Seq<Token>,
    x: Token,
)
    ensures
        t.subtree_at(p.push(x)) == match t.subtree_at(p) {
            Some(s) => if has_kid(s.kids(), x) {
                Some(s.kids()[kid_pos(s.kids(), x)])
            } else {
                None
            },
            None => None,
        },
    decreases p.len(),
{
    if p.len() == 0 {
        assert(p.push(x).drop_first().len() == 0);
        assert(p.push(x)[0] == x);
        assert(t.subtree_at(p) == Some(t));
        if has_kid(t.kids(), x) {
            let k = t.kids()[kid_pos(t.kids(), x)];
            assert(k.subtree_at(p.push(x).drop_first()) == Some(k));
        }
    } else {
        assert(p.push(x)[0] == p[0]);
        assert(p.push(x).drop_first() == p.drop_first().push(x));
        if has_kid(t.kids(), p[0]) {
            let k = t.kids()[kid_pos(t.kids(), p[0])];
            lemma_subtree_push(k, p.drop_first(), x);
            assert(t.subtree_at(p) == k.subtree_at(p.drop_first()));
            assert(t.subtree_at(p.push(x)) == k.subtree_at(p.drop_first().push(x)));
        }
    }
}

/// The subtree below a well-formed root or node is well formed.
pub proof fn lemma_subtree_wf<Token: TrieToken, Value>(t: NaiveTrie<Token, Value>, p: Seq<Token>)
    requires
        t.wf_kids(),
        t.subtree_at(p) is Some,
        p.len() > 0,
    ensures
        t.subtree_at(p).unwrap().wf_node(),
    decreases p.len(),
{
    let ks = t.kids();
    let k = ks[kid_pos(ks, p[0])];
    assert(k.wf_node());
    if p.len() > 1 {
        lemma_subtree_wf(k, p.drop_first());
    }
}

/// Only the root itself sits at the empty path.
pub proof fn lemma_root_wf<Token: TrieToken, Value>(t: NaiveTrie<Token, Value>)
    requires
        t.wf_root(),
    ensures
        t.wf_kids(),
        t is Root,
        t.lookup(Seq::<Token>::empty()) is None,
        !t@.dom().contains(Seq::<Token>::empty()),
{
}

/// The view holds exactly the non-empty-valued lookups.
pub proof fn lemma_view_lookup<Token: TrieToken, Value>(t: NaiveTrie<Token, Value>, k: Seq<Token>)
    ensures
        t@.dom().contains(k) == (t.lookup(k) is Some),
        t.lookup(k) is Some ==> t@[k] == t.lookup(k).unwrap(),
{
}

impl<Token: TrieToken, Value> View for NaiveTrie<Token, Value> {
    type V = Map<Seq<Token>, Value>;

    /// Every path that ends at a node holding a value, mapped to that value.
    open spec fn view(&self) -> Map<Seq<Token>, Value> {
        Map::new(|r: Seq<Token>| self.lookup(r) is Some, |r: Seq<Token>| self.lookup(r).unwrap())
    }
}

/// Following `p` and then `r` reaches where following `p + r` does.
pub proof fn lemma_subtree_concat<Token: TrieToken, Value>(
    t: NaiveTrie<Token, Value>,
    p: Seq<Token>,
    r: Seq<Token>,
)
    ensures
        t.subtree_at(p + r) == match t.subtree_at(p) {
            Some(s) => s.subtree_at(r),
            None => None,
        },
    decreases p.len(),
{
    if p.len() == 0 {
        assert(p + r =~= r);
    } else {
        assert((p + r)[0] == p[0]);
        assert((p + r).drop_first() =~= p.drop_first() + r);
        if has_kid(t.kids(), p[0]) {
            lemma_subtree_concat(t.kids()[kid_pos(t.kids(), p[0])], p.drop_first(), r);
        }
    }
}

/// Below a well-formed node some path ends at a value.
pub proof fn lemma_value_below<Token: TrieToken, Value>(s: NaiveTrie<Token, Value>) -> (r: Seq<Token>)
    requires
        s.wf_node(),
    ensures
        s.lookup(r) is Some,
    decreases s,
{
    match s {
        NaiveTrie::IntermOrLeaf(n) => {
            if n.value is Some {
                assert(s.subtree_at(Seq::<Token>::empty()) == Some(s));
                Seq::empty()
            } else {
                let k0 = n.children@[0];
                assert(k0.wf_node());
                let r0 = lemma_value_below(k0);
                lemma_kid_pos(s.kids(), 0);
                let r = seq![k0.tok()] + r0;
                assert(r[0] == k0.tok());
                assert(r.drop_first() =~= r0);
                r
            }
        },
        _ => Seq::empty(),
    }
}

/// In a well-formed trie, the paths are the empty one and the non-empty
/// prefixes of the words held.
pub proof fn lemma_paths<Token: TrieToken, Value>(t: NaiveTrie<Token, Value>, p: Seq<Token>)
    requires
        t.wf_root(),
    ensures
        t.subtree_at(p) is Some == (p.len() == 0 || exists|k: Seq<Token>|
            t@.dom().contains(k) && p.is_prefix_of(k)),
{
    if p.len() > 0 {
        if t.subtree_at(p) is Some {
            let s = t.subtree_at(p).unwrap();
            lemma_subtree_wf(t, p);
            let r = lemma_value_below(s);
            lemma_subtree_concat(t, p, r);
            assert(t@.dom().contains(p + r));
            assert(p.is_prefix_of(p + r)) by {
                assert(p =~= (p + r).subrange(0, p.len() as int));
            }
        }
        if exists|k: Seq<Token>| t@.dom().contains(k) && p.is_prefix_of(k) {
            let k = choose|k: Seq<Token>| t@.dom().contains(k) && p.is_prefix_of(k);
            let rest = k.skip(p.len() as int);
            assert(p + rest =~= k);
            lemma_subtree_concat(t, p, rest);
        }
    } else {
        assert(t.subtree_at(p) == Some(t));
    }
}

/// `t.matched(w)` is the length of the longest prefix of `w` that is a path
/// from `t`: that prefix is a path, and one more token of `w` is not.
pub proof fn lemma_matched<Token: TrieToken, Value>(t: NaiveTrie<Token, Value>, w: Seq<Token>)
    ensures
        t.matched(w) <= w.len(),
        t.subtree_at(w.take(t.matched(w) as int)) is Some,
        t.matched(w) < w.len() ==> t.subtree_at(w.take(t.matched(w) as int + 1)) is None,
    decreases w.len(),
{
    let m = t.matched(w) as int;
    if w.len() > 0 && has_kid(t.kids(), w[0]) {
        let k = t.kids()[kid_pos(t.kids(), w[0])];
        let w1 = w.drop_first();
        lemma_matched(k, w1);
        assert(w.take(m)[0] == w[0]);
        assert(w.take(m).drop_first() =~= w1.take(m - 1));
        if m < w.len() {
            assert(w.take(m + 1)[0] == w[0]);
            assert(w.take(m + 1).drop_first() =~= w1.take(m));
        }
    } else {
        assert(w.take(0).len() == 0);
        if w.len() > 0 {
            assert(w.take(1)[0] == w[0]);
        }
    }
}

/// The tokens of the children `ks`, in order.
pub open spec fn kid_tokens<Token: TrieToken, Value>(ks: Seq<NaiveTrie<Token, Value>>) -> Seq<Token> {
    ks.map_values(|k: NaiveTrie<Token, Value>| k.tok())
}

/// The children at a path of a well-formed trie are sorted by token.
proof fn lemma_sorted_at<Token: TrieToken, Value>(t: NaiveTrie<Token, Value>, p: Seq<Token>)
    requires
        t.wf_root(),
        t.subtree_at(p) is Some,
    ensures
        sorted_kids(t.subtree_at(p).unwrap().kids()),
{
    if p.len() == 0 {
        assert(t.subtree_at(p) == Some(t));
    } else {
        lemma_subtree_wf(t, p);
    }
}

/// Two well-formed tries that hold the same words have the same shape,
/// whatever order the words went in: the same paths, the same values along
/// them, and at each path the same children in the same order.
pub proof fn lemma_same_words_same_shape<Token: TrieToken, Value>(
    a: NaiveTrie<Token, Value>,
    b: NaiveTrie<Token, Value>,
    p: Seq<Token>,
)
    requires
        a.wf_root(),
        b.wf_root(),
        a@ == b@,
    ensures
        a.subtree_at(p) is Some == b.subtree_at(p) is Some,
        a.lookup(p) == b.lookup(p),
        a.subtree_at(p) is Some ==> kid_tokens(a.subtree_at(p).unwrap().kids()) == kid_tokens(
            b.subtree_at(p).unwrap().kids(),
        ),
{
    lemma_paths(a, p);
    lemma_paths(b, p);
    lemma_view_lookup(a, p);
    lemma_view_lookup(b, p);
    if a.subtree_at(p) is Some {
        let sa = a.subtree_at(p).unwrap();
        let sb = b.subtree_at(p).unwrap();
        lemma_sorted_at(a, p);
        lemma_sorted_at(b, p);
        let ta = kid_tokens(sa.kids());
        let tb = kid_tokens(sb.kids());
        let lt = |x: Token, y: Token| x.order() < y.order();
        assert forall|i: int| 0 <= i < ta.len() implies #[trigger] occurs_in(tb, ta[i]) by {
            let x = ta[i];
            assert(has_kid(sa.kids(), x));
            lemma_subtree_push(a, p, x);
            lemma_subtree_push(b, p, x);
            lemma_paths(a, p.push(x));
            lemma_paths(b, p.push(x));
            let j = kid_pos(sb.kids(), x);
            assert(tb[j] == x);
            reveal(occurs_in);
        }
        assert forall|j: int| 0 <= j < tb.len() implies #[trigger] occurs_in(ta, tb[j]) by {
            let x = tb[j];
            assert(has_kid(sb.kids(), x));
            lemma_subtree_push(a, p, x);
            lemma_subtree_push(b, p, x);
            lemma_paths(a, p.push(x));
            lemma_paths(b, p.push(x));
            let i = kid_pos(sa.kids(), x);
            assert(ta[i] == x);
            reveal(occurs_in);
        }
        assert forall|i: int, j: int| 0 <= i < j < ta.len() implies lt(#[trigger] ta[i], #[trigger] ta[j]) by {
            assert(sa.kids()[i].tok().order() < sa.kids()[j].tok().order());
        }
        assert forall|i: int, j: int| 0 <= i < j < tb.len() implies lt(#[trigger] tb[i], #[trigger] tb[j]) by {
            assert(sb.kids()[i].tok().order() < sb.kids()[j].tok().order());
        }
        lemma_sorted_unique_by(lt, ta, tb);
    }
}

/// Sequences with equal first elements and equal tails are equal.
pub proof fn lemma_cons_eq<A>(a: Seq<A>, b: Seq<A>)
    requires
        a.len() > 0,
        b.len() > 0,
        a[0] == b[0],
        a.drop_first() == b.drop_first(),
    ensures
        a == b,
{
    assert(a.len() == a.drop_first().len() + 1);
    assert(b.len() == b.drop_first().len() + 1);
    assert forall|k: int| 0 <= k < a.len() implies a[k] == b[k] by {
        if k > 0 {
            assert(a[k] == a.drop_first()[k - 1]);
            assert(b[k] == b.drop_first()[k - 1]);
        }
    }
    assert(a =~= b);
}

/// In sorted children, the child with a given token is found at its position.
pub proof fn lemma_kid_pos<Token: TrieToken, Value>(ks: Seq<NaiveTrie<Token, Value>>, j: int)
    requires
        sorted_kids(ks),
        0 <= j < ks.len(),
    ensures
        has_kid(ks, ks[j].tok()),
        kid_pos(ks, ks[j].tok()) == j,
{
    let x = ks[j].tok();
    assert(0 <= j < ks.len() && ks[j].tok() == x);
    let k = kid_pos(ks, x);
    if k < j {
        assert(ks[k].tok().order() < ks[j].tok().order());
    } else if j < k {
        assert(ks[j].tok().order() < ks[k].tok().order());
    }
}

/// A non-empty relative lookup goes through the children.
pub proof fn lemma_lookup_kids<Token: TrieToken, Value>(t: NaiveTrie<Token, Value>, r: Seq<Token>)
    requires
        r.len() > 0,
    ensures
        t.lookup(r) == find_below(t.kids(), r),
{
}

/// Two nodes with the same children have the same non-empty lookups.
pub proof fn lemma_same_kids_lookup<Token: TrieToken, Value>(
    a: NaiveTrie<Token, Value>,
    b: NaiveTrie<Token, Value>,
    r: Seq<Token>,
)
    requires
        a.kids() == b.kids(),
        r.len() > 0,
    ensures
        a.lookup(r) == b.lookup(r),
{
    lemma_lookup_kids(a, r);
    lemma_lookup_kids(b, r);
}

/// A node without children holds only its own value.
pub proof fn lemma_leaf_lookup<Token: TrieToken, Value>(t: NaiveTrie<Token, Value>, r: Seq<Token>)
    requires
        t.kids().len() == 0,
    ensures
        t.lookup(r) == if r.len() == 0 {
            t.val()
        } else {
            None
        },
{
}

/// Replacing child `j` by a node with the same token changes lookups only
/// through that child.
pub proof fn lemma_find_update<Token: TrieToken, Value>(
    ks: Seq<NaiveTrie<Token, Value>>,
    j: int,
    c: NaiveTrie<Token, Value>,
    r: Seq<Token>,
)
    requires
        sorted_kids(ks),
        0 <= j < ks.len(),
        c.tok() == ks[j].tok(),
        r.len() > 0,
    ensures
        sorted_kids(ks.update(j, c)),
        find_below(ks.update(j, c), r) == if r[0] == ks[j].tok() {
            c.lookup(r.drop_first())
        } else {
            find_below(ks, r)
        },
{
    let ks2 = ks.update(j, c);
    assert forall|a: int, b: int| 0 <= a < b < ks2.len() implies (#[trigger] ks2[a].tok()).order()
        < (#[trigger] ks2[b].tok()).order() by {
        assert(ks2[a].tok() == ks[a].tok());
        assert(ks2[b].tok() == ks[b].tok());
    }
    lemma_kid_pos(ks2, j);
    if r[0] != ks[j].tok() {
        if has_kid(ks, r[0]) {
            let k = kid_pos(ks, r[0]);
            lemma_kid_pos(ks, k);
            assert(ks2[k] == ks[k]);
            lemma_kid_pos(ks2, k);
        } else {
            if has_kid(ks2, r[0]) {
                let k = kid_pos(ks2, r[0]);
                assert(ks[k].tok() == ks2[k].tok());
            }
        }
    }
}

/// Inserting a child with a new token at its sorted place keeps the other
/// lookups.
pub proof fn lemma_find_insert<Token: TrieToken, Value>(
    ks: Seq<NaiveTrie<Token, Value>>,
    j: int,
    c: NaiveTrie<Token, Value>,
    r: Seq<Token>,
)
    requires
        sorted_kids(ks),
        0 <= j <= ks.len(),
        forall|a: int| 0 <= a < j ==> (#[trigger] ks[a].tok()).order() < c.tok().order(),
        forall|a: int| j <= a < ks.len() ==> c.tok().order() < (#[trigger] ks[a].tok()).order(),
        r.len() > 0,
    ensures
        sorted_kids(ks.insert(j, c)),
        find_below(ks.insert(j, c), r) == if r[0] == c.tok() {
            c.lookup(r.drop_first())
        } else {
            find_below(ks, r)
        },
{
    let ks2 = ks.insert(j, c);
    assert forall|a: int, b: int| 0 <= a < b < ks2.len() implies (#[trigger] ks2[a].tok()).order()
        < (#[trigger] ks2[b].tok()).order() by {
        if a < j {
            assert(ks2[a] == ks[a]);
            if b < j {
                assert(ks2[b] == ks[b]);
            } else if b > j {
                assert(ks2[b] == ks[b - 1]);
            }
        } else if a == j {
            assert(ks2[b] == ks[b - 1]);
        } else {
            assert(ks2[a] == ks[a - 1]);
            assert(ks2[b] == ks[b - 1]);
        }
    }
    lemma_kid_pos(ks2, j);
    if r[0] != c.tok() {
        if has_kid(ks, r[0]) {
            let k = kid_pos(ks, r[0]);
            lemma_kid_pos(ks, k);
            if k < j {
                assert(ks2[k] == ks[k]);
                lemma_kid_pos(ks2, k);
            } else {
                assert(ks2[k + 1] == ks[k]);
                lemma_kid_pos(ks2, k + 1);
            }
        } else {
            if has_kid(ks2, r[0]) {
                let k = kid_pos(ks2, r[0]);
                if k < j {
                    assert(ks2[k] == ks[k]);
                } else if k > j {
                    assert(ks2[k] == ks[k - 1]);
                }
            }
        }
    } else {
        // no old child carries the new token
        if has_kid(ks, r[0]) {
            let k = kid_pos(ks, r[0]);
            if k < j {
                assert(ks[k].tok().order() < c.tok().order());
            } else {
                assert(c.tok().order() < ks[k].tok().order());
            }
        }
    }
}

impl<Token: TrieToken, Value> NaiveTrie<Token, Value> {
    /// An empty root.
    pub fn make_root() -> (r: Self)
        ensures
            r.wf_root(),
            r@ == Map::<Seq<Token>, Value>::empty(),
            r.kids().len() == 0,
    {
        let r = NaiveTrie::Root(NaiveTrieRoot { children: Vec::new() });
        proof {
            assert forall|p: Seq<Token>| !(#[trigger] r@.dom().contains(p)) by {
                lemma_leaf_lookup(r, p);
            }
            assert(r@ =~= Map::<Seq<Token>, Value>::empty());
        }
        r
    }

    /// A node below the root with no children yet.
    pub fn make_interm_or_leaf(token: Token, terminal: Option<Value>) -> (r: Self)
        ensures
            r is IntermOrLeaf,
            r.tok() == token,
            r.val() == terminal,
            r.kids().len() == 0,
    {
        NaiveTrie::IntermOrLeaf(NaiveTrieIntermOrLeaf { children: Vec::new(), token, value: terminal })
    }

    /// Inserts `value` for `word`. The root takes no value, so `word` must not
    /// be empty.
    pub fn insert(&mut self, word: &[Token], value: Value)
        requires
            old(self).wf_root(),
            word@.len() > 0,
        ensures
            final(self).wf_root(),
            final(self)@ == old(self)@.insert(word@, value),
            forall|p: Seq<Token>|
                #[trigger] final(self).subtree_at(p) is Some == (old(self).subtree_at(p) is Some || (
                p.len() > 0 && p.is_prefix_of(word@))),
            final(self).count() == old(self).count() + (word@.len() - old(self).matched(word@)),
    {
        let ghost old_self = *self;
        match self {
            NaiveTrie::Root(r) => {
                insert_kids(&mut r.children, word, 0, value);
            },
            _ => {},
        }
        proof {
            assert(word@.skip(0) == word@);
            assert forall|p: Seq<Token>| #[trigger] self.lookup(p) == if p == word@ {
                Some(value)
            } else {
                old_self.lookup(p)
            } by {
                if p.len() > 0 {
                    lemma_lookup_kids(*self, p);
                    lemma_lookup_kids(old_self, p);
                }
            }
            assert(self@ =~= old_self@.insert(word@, value));
            assert forall|p: Seq<Token>|
                #[trigger] self.subtree_at(p) is Some == (old_self.subtree_at(p) is Some || (p.len() > 0
                    && p.is_prefix_of(word@))) by {
                lemma_paths(*self, p);
                lemma_paths(old_self, p);
                if p.len() > 0 && p.is_prefix_of(word@) {
                    assert(self@.dom().contains(word@));
                }
                if p.len() > 0 && self.subtree_at(p) is Some && !p.is_prefix_of(word@) {
                    let k = choose|k: Seq<Token>| self@.dom().contains(k) && p.is_prefix_of(k);
                    assert(k != word@);
                    assert(old_self@.dom().contains(k));
                }
                if p.len() > 0 && old_self.subtree_at(p) is Some {
                    let k = choose|k: Seq<Token>| old_self@.dom().contains(k) && p.is_prefix_of(k);
                    assert(self@.dom().contains(k));
                }
            }
        }
    }

    /// The children (the root's or a node's).
    pub fn children(&self) -> (r: &[Self])
        requires
            !(self is PhantomSibling),
        ensures
            r@ == self.kids(),
    {
        match self {
            NaiveTrie::Root(node) => node.children.as_slice(),
            NaiveTrie::IntermOrLeaf(node) => node.children.as_slice(),
            NaiveTrie::PhantomSibling => vstd::pervasive::unreached(),
        }
    }

    /// Takes the children out, leaving none.
    pub fn drain_children(&mut self) -> (r: Vec<Self>)
        requires
            !((*old(self)) is PhantomSibling),
        ensures
            r@ == old(self).kids(),
            final(self).kids().len() == 0,
            final(self).tok() == old(self).tok(),
            final(self).val() == old(self).val(),
            (*final(self)) is Root == (*old(self)) is Root,
            (*final(self)) is IntermOrLeaf == (*old(self)) is IntermOrLeaf,
    {
        let mut out: Vec<Self> = Vec::new();
        match self {
            NaiveTrie::Root(node) => {
                std::mem::swap(&mut out, &mut node.children);
            },
            NaiveTrie::IntermOrLeaf(node) => {
                std::mem::swap(&mut out, &mut node.children);
            },
            NaiveTrie::PhantomSibling => {},
        }
        out
    }

    /// The value of a node below the root.
    pub fn value(&self) -> (r: Option<&Value>)
        requires
            self is IntermOrLeaf,
        ensures
            r is Some == self.val() is Some,
            r is Some ==> *r.unwrap() == self.val().unwrap(),
    {
        match self {
            NaiveTrie::IntermOrLeaf(node) => node.value.as_ref(),
            _ => None,
        }
    }

    /// The token on the edge into a node below the root.
    pub fn token(&self) -> (r: &Token)
        requires
            self is IntermOrLeaf,
        ensures
            *r == self.tok(),
    {
        match self {
            NaiveTrie::IntermOrLeaf(node) => &node.token,
            _ => vstd::pervasive::unreached(),
        }
    }

    /// Sets the value of a node below the root.
    fn set_value(&mut self, value: Value)
        requires
            (*old(self)) is IntermOrLeaf,
        ensures
            (*final(self)) is IntermOrLeaf,
            final(self).val() == Some(value),
            final(self).tok() == old(self).tok(),
            final(self).kids() == old(self).kids(),
    {
        match self {
            NaiveTrie::IntermOrLeaf(node) => {
                node.value = Some(value);
            },
            _ => {},
        }
    }

    /// Inserts the rest of `word` (from position `i`) below this node.
    fn insert_below(&mut self, word: &[Token], i: usize, value: Value)
        requires
            (*old(self)) is IntermOrLeaf,
            old(self).wf_kids(),
            i < word@.len(),
        ensures
            final(self).wf_node(),
            final(self).tok() == old(self).tok(),
            final(self).val() == old(self).val(),
            forall|r: Seq<Token>|
                r.len() > 0 ==> #[trigger] final(self).lookup(r) == if r == word@.skip(i as int) {
                    Some(value)
                } else {
                    old(self).lookup(r)
                },
            final(self).count() == old(self).count() + (word@.len() - i - old(self).matched(
                word@.skip(i as int),
            )),
        decreases word@.len() - i, 1int,
    {
        let ghost old_self = *self;
        match self {
            NaiveTrie::IntermOrLeaf(node) => {
                insert_kids(&mut node.children, word, i, value);
            },
            _ => {},
        }
        proof {
            assert forall|r: Seq<Token>| r.len() > 0 implies #[trigger] self.lookup(r) == if r
                == word@.skip(i as int) {
                Some(value)
            } else {
                old_self.lookup(r)
            } by {
                lemma_lookup_kids(*self, r);
                lemma_lookup_kids(old_self, r);
            }
        }
    }
}

/// Binary search for token `x` among sorted children: `Ok(j)` when child `j`
/// has it, `Err(j)` for the place where it would go.
fn search_kids<Token: TrieToken, Value>(ks: &Vec<NaiveTrie<Token, Value>>, x: &Token) -> (r: Result<
    usize,
    usize,
>)
    requires
        sorted_kids(ks@),
        forall|j: int| 0 <= j < ks.len() ==> (#[trigger] ks@[j]).wf_node(),
    ensures
        match r {
            Ok(j) => 0 <= j < ks.len() && ks@[j as int].tok() == *x,
            Err(j) => {
                &&& 0 <= j <= ks.len()
                &&& forall|a: int| 0 <= a < j ==> (#[trigger] ks@[a].tok()).order() < x.order()
                &&& forall|a: int| j <= a < ks.len() ==> x.order() < (#[trigger] ks@[a].tok()).order()
            },
        },
{
    let mut lo: usize = 0;
    let mut hi: usize = ks.len();
    while lo < hi
        invariant
            sorted_kids(ks@),
            forall|j: int| 0 <= j < ks.len() ==> (#[trigger] ks@[j]).wf_node(),
            0 <= lo <= hi <= ks.len(),
            forall|a: int| 0 <= a < lo ==> (#[trigger] ks@[a].tok()).order() < x.order(),
            forall|a: int| hi <= a < ks.len() ==> x.order() < (#[trigger] ks@[a].tok()).order(),
        decreases hi - lo,
    {
        let mid = lo + (hi - lo) / 2;
        assert(ks@[mid as int].wf_node());
        let t = ks[mid].token();
        if t.less_than(x) {
            proof {
                assert forall|a: int| 0 <= a < mid + 1 implies (#[trigger] ks@[a].tok()).order()
                    < x.order() by {
                    if a < mid {
                        assert(ks@[a].tok().order() < ks@[mid as int].tok().order());
                    }
                }
            }
            lo = mid + 1;
        } else if x.less_than(t) {
            proof {
                assert forall|a: int| mid <= a < ks.len() implies x.order() < (
                #[trigger] ks@[a].tok()).order() by {
                    if a > mid {
                        assert(ks@[mid as int].tok().order() < ks@[a].tok().order());
                    }
                }
            }
            hi = mid;
        } else {
            proof {
                Token::lemma_order_injective(*t, *x);
            }
            return Ok(mid);
        }
    }
    Err(lo)
}

/// Inserts the rest of `word` (from position `i`) below the children `kids`.
fn insert_kids<Token: TrieToken, Value>(
    kids: &mut Vec<NaiveTrie<Token, Value>>,
    word: &[Token],
    i: usize,
    value: Value,
)
    requires
        sorted_kids(old(kids)@),
        forall|j: int| 0 <= j < old(kids).len() ==> (#[trigger] old(kids)@[j]).wf_node(),
        i < word@.len(),
    ensures
        sorted_kids(final(kids)@),
        forall|j: int| 0 <= j < final(kids).len() ==> (#[trigger] final(kids)@[j]).wf_node(),
        final(kids).len() > 0,
        forall|r: Seq<Token>|
            #[trigger] find_below(final(kids)@, r) == if r == word@.skip(i as int) {
                Some(value)
            } else {
                find_below(old(kids)@, r)
            },
        count_upto(final(kids)@, final(kids)@.len() as int) == count_upto(
            old(kids)@,
            old(kids)@.len() as int,
        ) + (word@.len() - i - matched_kids(old(kids)@, word@.skip(i as int))),
    decreases word@.len() - i, 0int,
{
    let ghost ks0 = kids@;
    let ghost w = word@.skip(i as int);
    let x = word[i];
    let last = i + 1 == word.len();
    match search_kids(kids, &x) {
        Ok(j) => {
            let ghost old_kid = kids@[j as int];
            if last {
                let kid = &mut kids[j];
                kid.set_value(value);
                proof {
                    let c = kids@[j as int];
                    assert(kids@ == ks0.update(j as int, c));
                    assert(c.wf_node());
                    lemma_kid_pos(ks0, j as int);
                    assert(w[0] == x);
                    assert(w.len() == 1);
                    assert(w.drop_first().len() == 0);
                    assert(matched_kids(old_kid.kids(), w.drop_first()) == 0);
                    assert(matched_kids(ks0, w) == 1);
                    assert(c.count() == old_kid.count());
                    lemma_count_update(ks0, j as int, c, ks0.len() as int);
                    assert forall|r: Seq<Token>| #[trigger] find_below(kids@, r) == if r == w {
                        Some(value)
                    } else {
                        find_below(ks0, r)
                    } by {
                        if r.len() > 0 {
                            lemma_find_update(ks0, j as int, c, r);
                            if r[0] == x {
                                if r.drop_first().len() > 0 {
                                    lemma_same_kids_lookup(c, old_kid, r.drop_first());
                                    assert(r != w);
                                } else {
                                    assert(r =~= w);
                                }
                            } else {
                                assert(r != w);
                            }
                        }
                    }
                    assert forall|a: int| 0 <= a < kids.len() implies (#[trigger] kids@[a]).wf_node() by {
                        if a != j {
                            assert(kids@[a] == ks0[a]);
                        }
                    }
                }
            } else {
                let kid = &mut kids[j];
                kid.insert_below(word, i + 1, value);
                proof {
                    let c = kids@[j as int];
                    assert(kids@ == ks0.update(j as int, c));
                    assert(word@.skip(i + 1) =~= w.drop_first());
                    lemma_kid_pos(ks0, j as int);
                    assert(w[0] == x);
                    assert(matched_kids(ks0, w) == 1 + old_kid.matched(w.drop_first()));
                    lemma_count_update(ks0, j as int, c, ks0.len() as int);
                    assert forall|r: Seq<Token>| #[trigger] find_below(kids@, r) == if r == w {
                        Some(value)
                    } else {
                        find_below(ks0, r)
                    } by {
                        if r.len() > 0 {
                            lemma_find_update(ks0, j as int, c, r);
                            if r[0] == x {
                                if r.drop_first().len() > 0 {
                                    if r.drop_first() == w.drop_first() {
                                        lemma_cons_eq(r, w);
                                    } else {
                                        assert(r != w);
                                    }
                                } else {
                                    assert(r != w);
                                    lemma_kid_pos(ks0, j as int);
                                }
                            } else {
                                assert(r != w);
                            }
                        }
                    }
                    assert forall|a: int| 0 <= a < kids.len() implies (#[trigger] kids@[a]).wf_node() by {
                        if a != j {
                            assert(kids@[a] == ks0[a]);
                        }
                    }
                }
            }
        },
        Err(j) => {
            if last {
                let child = NaiveTrie::make_interm_or_leaf(x, Some(value));
                let ghost c = child;
                kids.insert(j, child);
                proof {
                    assert(kids@ == ks0.insert(j as int, c));
                    assert(sorted_kids(c.kids()));
                    assert(c.wf_node());
                    lemma_count_insert(ks0, j as int, c, ks0.len() as int + 1);
                    assert(w[0] == x);
                    if has_kid(ks0, x) {
                        let k = kid_pos(ks0, x);
                        if k < j {
                            assert(ks0[k].tok().order() < x.order());
                        } else {
                            assert(x.order() < ks0[k].tok().order());
                        }
                    }
                    assert(c.count() == 1);
                    assert(w.len() == 1);
                    assert(matched_kids(ks0, w) == 0);
                    assert forall|r: Seq<Token>| #[trigger] find_below(kids@, r) == if r == w {
                        Some(value)
                    } else {
                        find_below(ks0, r)
                    } by {
                        if r.len() > 0 {
                            lemma_find_insert(ks0, j as int, c, r);
                            lemma_leaf_lookup(c, r.drop_first());
                            if r[0] == x {
                                if r.drop_first().len() > 0 {
                                    assert(r != w);
                                    if has_kid(ks0, r[0]) {
                                        let k = kid_pos(ks0, r[0]);
                                        if k < j {
                                            assert(ks0[k].tok().order() < x.order());
                                        } else {
                                            assert(x.order() < ks0[k].tok().order());
                                        }
                                    }
                                } else {
                                    assert(r =~= w);
                                }
                            } else {
                                assert(r != w);
                            }
                        }
                    }
                    assert forall|a: int| 0 <= a < kids.len() implies (#[trigger] kids@[a]).wf_node() by {
                        if a < j {
                            assert(kids@[a] == ks0[a]);
                        } else if a > j {
                            assert(kids@[a] == ks0[a - 1]);
                        }
                    }
                }
            } else {
                let mut child = NaiveTrie::make_interm_or_leaf(x, None);
                let ghost fresh = child;
                proof {
                    assert(sorted_kids(fresh.kids()));
                }
                child.insert_below(word, i + 1, value);
                let ghost c = child;
                kids.insert(j, child);
                proof {
                    assert(kids@ == ks0.insert(j as int, c));
                    assert(word@.skip(i + 1) =~= w.drop_first());
                    lemma_count_insert(ks0, j as int, c, ks0.len() as int + 1);
                    assert(w[0] == x);
                    if has_kid(ks0, x) {
                        let k = kid_pos(ks0, x);
                        if k < j {
                            assert(ks0[k].tok().order() < x.order());
                        } else {
                            assert(x.order() < ks0[k].tok().order());
                        }
                    }
                    assert(fresh.count() == 1);
                    assert(fresh.matched(w.drop_first()) == 0);
                    assert(matched_kids(ks0, w) == 0);
                    assert forall|r: Seq<Token>| #[trigger] find_below(kids@, r) == if r == w {
                        Some(value)
                    } else {
                        find_below(ks0, r)
                    } by {
                        if r.len() > 0 {
                            lemma_find_insert(ks0, j as int, c, r);
                            if r[0] == x {
                                if has_kid(ks0, r[0]) {
                                    let k = kid_pos(ks0, r[0]);
                                    if k < j {
                                        assert(ks0[k].tok().order() < x.order());
                                    } else {
                                        assert(x.order() < ks0[k].tok().order());
                                    }
                                }
                                if r.drop_first().len() > 0 {
                                    lemma_leaf_lookup(fresh, r.drop_first());
                                    if r.drop_first() == w.drop_first() {
                                        lemma_cons_eq(r, w);
                                    } else {
                                        assert(r != w);
                                    }
                                } else {
                                    assert(r != w);
                                    assert(c.lookup(r.drop_first()) == c.val());
                                }
                            } else {
                                assert(r != w);
                            }
                        }
                    }
                    assert forall|a: int| 0 <= a < kids.len() implies (#[trigger] kids@[a]).wf_node() by {
                        if a < j {
                            assert(kids@[a] == ks0[a]);
                        } else if a > j {
                            assert(kids@[a] == ks0[a - 1]);
                        }
                    }
                }
            }
        },
    }
}

} // verus!
