//! Searches over a trie: the keys below a label, and the keys along a label.
use vstd::prelude::*;
use crate::label::Label;
use crate::lbs::{deg_sum, lemma_deg_sum_mono};
use crate::map::trie::{prefix_of_some_key, Trie};
use crate::token::{
    lemma_lex_branch, lemma_lex_irreflexive, lemma_lex_prefix, lemma_lex_transitive,
    lemma_sorted_unique_by, lex_lt, occurs_in, TrieToken,
};

verus! {

/// `a` is a prefix of `b`, which is a prefix of `c`.
pub proof fn lemma_prefix_trans<T>(a: Seq<T>, b: Seq<T>, c: Seq<T>)
    requires
        a.is_prefix_of(b),
        b.is_prefix_of(c),
    ensures
        a.is_prefix_of(c),
{
    assert(a =~= c.subrange(0, a.len() as int)) by {
        assert forall|i: int| 0 <= i < a.len() implies a[i] == c[i] by {
            assert(a[i] == b[i]);
            assert(b[i] == c[i]);
        }
    }
}

/// Each found key, listed by its full label: `keys` holds exactly the keys
/// of `m` that have `q` as a prefix (as a proper prefix when `strict`), in
/// increasing lexicographic order, each with its value.
pub open spec fn lists_keys_below<Token: TrieToken, Value>(
    m: Map<Seq<Token>, Value>,
    q: Seq<Token>,
    strict: bool,
    keys: Seq<(Seq<Token>, Value)>,
) -> bool {
    &&& forall|a: int|
        0 <= a < keys.len() ==> {
            &&& m.dom().contains(#[trigger] keys[a].0)
            &&& q.is_prefix_of(keys[a].0)
            &&& strict ==> keys[a].0.len() > q.len()
            &&& keys[a].1 == m[keys[a].0]
        }
    &&& forall|a: int, b: int| 0 <= a < b < keys.len() ==> lex_lt(#[trigger] keys[a].0, #[trigger] keys[b].0)
    &&& forall|k: Seq<Token>|
        m.dom().contains(k) && q.is_prefix_of(k) && (strict ==> k.len() > q.len()) ==> exists|a: int|
            0 <= a < keys.len() && #[trigger] keys[a].0 == k
}

/// The keys of `m` among the first `j` non-empty prefixes of `q`, shortest first.
pub open spec fn prefix_keys<Token, Value>(m: Map<Seq<Token>, Value>, q: Seq<Token>, j: int) -> Seq<
    Seq<Token>,
>
    decreases j,
{
    if j <= 0 {
        Seq::empty()
    } else if m.dom().contains(q.take(j)) {
        prefix_keys(m, q, j - 1).push(q.take(j))
    } else {
        prefix_keys(m, q, j - 1)
    }
}

/// A search's listing is determined by the keys held: two listings of the
/// keys of `m` below `q` are the same, so the order in which the keys were
/// inserted does not show in it.
pub proof fn lemma_listing_unique<Token: TrieToken, Value>(
    m: Map<Seq<Token>, Value>,
    q: Seq<Token>,
    strict: bool,
    a: Seq<(Seq<Token>, Value)>,
    b: Seq<(Seq<Token>, Value)>,
)
    requires
        lists_keys_below(m, q, strict, a),
        lists_keys_below(m, q, strict, b),
    ensures
        a == b,
{
    let ka = a.map_values(|p: (Seq<Token>, Value)| p.0);
    let kb = b.map_values(|p: (Seq<Token>, Value)| p.0);
    assert forall|i: int, j: int| 0 <= i < j < ka.len() implies lex_lt(#[trigger] ka[i], #[trigger] ka[j]) by {
        assert(lex_lt(a[i].0, a[j].0));
    }
    assert forall|i: int, j: int| 0 <= i < j < kb.len() implies lex_lt(#[trigger] kb[i], #[trigger] kb[j]) by {
        assert(lex_lt(b[i].0, b[j].0));
    }
    assert forall|i: int| 0 <= i < ka.len() implies #[trigger] occurs_in(kb, ka[i]) by {
        assert(m.dom().contains(a[i].0));
        let j = choose|j: int| 0 <= j < b.len() && #[trigger] b[j].0 == a[i].0;
        assert(kb[j] == ka[i]);
        reveal(occurs_in);
    }
    assert forall|j: int| 0 <= j < kb.len() implies #[trigger] occurs_in(ka, kb[j]) by {
        assert(m.dom().contains(b[j].0));
        let i = choose|i: int| 0 <= i < a.len() && #[trigger] a[i].0 == b[j].0;
        assert(ka[i] == kb[j]);
        reveal(occurs_in);
    }
    let lt = |x: Seq<Token>, y: Seq<Token>| lex_lt(x, y);
    assert forall|x: Seq<Token>, y: Seq<Token>| #[trigger] lt(x, y) implies !lt(y, x) && x != y by {
        lemma_lex_irreflexive(x);
        if lex_lt(y, x) {
            lemma_lex_transitive(x, y, x);
        }
    }
    lemma_sorted_unique_by(lt, ka, kb);
    assert(a.len() == b.len()) by {
        assert(ka.len() == kb.len());
    }
    assert forall|i: int| 0 <= i < a.len() implies a[i] == b[i] by {
        assert(ka[i] == kb[i]);
        assert(a[i].0 == b[i].0);
        assert(m.dom().contains(a[i].0));
        assert(m.dom().contains(b[i].0));
        assert(a[i].1 == b[i].1);
    }
    assert(a =~= b);
}

/// The keys of `m` that `prefix_keys` lists: exactly those that are
/// non-empty prefixes of `q` no longer than `j`, shortest first.
pub proof fn lemma_prefix_keys<Token, Value>(m: Map<Seq<Token>, Value>, q: Seq<Token>, j: int)
    requires
        0 <= j <= q.len(),
    ensures
        forall|a: int|
            0 <= a < prefix_keys(m, q, j).len() ==> {
                &&& m.dom().contains(#[trigger] prefix_keys(m, q, j)[a])
                &&& prefix_keys(m, q, j)[a].is_prefix_of(q)
                &&& 0 < prefix_keys(m, q, j)[a].len() <= j
            },
        forall|a: int, b: int|
            0 <= a < b < prefix_keys(m, q, j).len() ==> (#[trigger] prefix_keys(m, q, j)[a]).len() < (
            #[trigger] prefix_keys(m, q, j)[b]).len(),
        forall|k: Seq<Token>|
            m.dom().contains(k) && k.is_prefix_of(q) && 0 < k.len() <= j ==> exists|a: int|
                0 <= a < prefix_keys(m, q, j).len() && #[trigger] prefix_keys(m, q, j)[a] == k,
    decreases j,
{
    if j > 0 {
        lemma_prefix_keys(m, q, j - 1);
        let p = prefix_keys(m, q, j - 1);
        let t = q.take(j);
        assert(t.is_prefix_of(q)) by {
            assert(t =~= q.subrange(0, j));
        }
        assert forall|k: Seq<Token>|
            m.dom().contains(k) && k.is_prefix_of(q) && 0 < k.len() <= j implies exists|a: int|
                0 <= a < prefix_keys(m, q, j).len() && #[trigger] prefix_keys(m, q, j)[a] == k by {
            if k.len() == j {
                assert(k =~= t);
                assert(prefix_keys(m, q, j)[p.len() as int] == k);
            } else {
                let a = choose|a: int| 0 <= a < p.len() && #[trigger] p[a] == k;
                assert(prefix_keys(m, q, j)[a] == k);
            }
        }
    }
}

/// Iterates through the keys below a node, as labels relative to a start node.
pub struct PostfixIter<'t, Token: TrieToken, Value> {
    pub(crate) trie: &'t Trie<Token, Value>,
    /// The node numbers of the keys, in order.
    pub(crate) ends: Vec<u64>,
    /// The node whose label is stripped from the results.
    pub(crate) start: u64,
}

/// Iterates through the keys that are prefixes of a label, shortest first.
pub struct PrefixIter<'t, Token: TrieToken, Value> {
    pub(crate) trie: &'t Trie<Token, Value>,
    /// The node numbers of the keys, in order.
    pub(crate) ends: Vec<u64>,
}

impl<'t, Token: TrieToken, Value> View for PostfixIter<'t, Token, Value> {
    type V = Seq<(Seq<Token>, Value)>;

    /// Each key as its label past the start node's, with its value.
    closed spec fn view(&self) -> Seq<(Seq<Token>, Value)> {
        Seq::new(
            self.ends@.len(),
            |a: int|
                (
                    self.trie.label(self.ends@[a] - 1).skip(self.trie.label(self.start - 1).len() as int),
                    self.trie.val(self.ends@[a] - 1).unwrap(),
                ),
        )
    }
}

impl<'t, Token: TrieToken, Value> View for PrefixIter<'t, Token, Value> {
    type V = Seq<(Seq<Token>, Value)>;

    /// Each key with its value.
    closed spec fn view(&self) -> Seq<(Seq<Token>, Value)> {
        Seq::new(
            self.ends@.len(),
            |a: int| (self.trie.label(self.ends@[a] - 1), self.trie.val(self.ends@[a] - 1).unwrap()),
        )
    }
}

impl<Token: TrieToken, Value> Trie<Token, Value> {
    /// Node number `e` ends a key whose label has node `v`'s label as a
    /// prefix (a proper one when `strict`).
    pub(crate) open spec fn in_block(self, v: int, e: u64, strict: bool) -> bool {
        &&& self.key_node(e - 1)
        &&& self.label(v).is_prefix_of(self.label(e - 1))
        &&& strict ==> e - 1 != v
    }

    /// `block` lists, in lexicographic order of their labels, exactly the
    /// keys below node `v` (node `v` itself only when not `strict`).
    pub(crate) open spec fn dfs_block(self, v: int, block: Seq<u64>, strict: bool) -> bool {
        &&& forall|a: int| 0 <= a < block.len() ==> self.in_block(v, #[trigger] block[a], strict)
        &&& forall|a: int, b: int|
            0 <= a < b < block.len() ==> lex_lt(
                self.label(#[trigger] block[a] - 1),
                self.label(#[trigger] block[b] - 1),
            )
        &&& forall|w: int|
            #![trigger self.key_node(w)]
            self.key_node(w) && self.label(v).is_prefix_of(self.label(w)) && (strict ==> w != v)
                ==> exists|a: int| 0 <= a < block.len() && block[a] == w + 1
    }

    /// Appends the keys below node `num` in preorder (which is lexicographic order).
    pub(crate) fn collect_subtree(&self, num: u64, strict: bool, out: &mut Vec<u64>)
        requires
            self.wf(),
            1 <= num <= self.size() + 1,
        ensures
            final(out)@.len() >= old(out)@.len(),
            final(out)@.take(old(out)@.len() as int) == old(out)@,
            self.dfs_block(num - 1, final(out)@.skip(old(out)@.len() as int), strict),
        decreases self.size() + 1 - num,
    {
        let ghost v = num - 1;
        let ghost out0 = out@;
        let ghost mut block: Seq<u64> = Seq::empty();
        if !strict {
            if let Some(_) = self.value_at(num) {
                out.push(num);
                proof {
                    block = block.push(num);
                }
            }
        }
        let kids = self.children_nums(num);
        let mut k: usize = 0;
        proof {
            assert(out@ =~= out0 + block);
            assert forall|w: int|
                #![trigger self.key_node(w)]
                self.key_node(w) && ((w == v && !strict) || exists|t: int|
                    0 <= t < k && self.label(self.slot(v, t)).is_prefix_of(self.label(w)))
                    implies exists|a: int| 0 <= a < block.len() && block[a] == w + 1 by {
                assert(w == v && !strict);
                assert(block.len() == 1 && block[0] == w + 1);
            }
        }
        while k < kids.len()
            invariant
                self.wf(),
                1 <= num <= self.size() + 1,
                v == num - 1,
                kids.len() == self.deg(v),
                forall|t: int| 0 <= t < kids.len() ==> kids[t] == self.slot(v, t) + 1,
                0 <= k <= kids.len(),
                out@ == out0 + block,
                forall|a: int|
                    0 <= a < block.len() ==> {
                        &&& self.in_block(v, #[trigger] block[a], strict)
                        &&& (block[a] - 1 == v || exists|t: int|
                            0 <= t < k && self.label(self.slot(v, t)).is_prefix_of(
                                self.label(block[a] - 1),
                            ))
                    },
                forall|a: int, b: int|
                    0 <= a < b < block.len() ==> lex_lt(
                        self.label(#[trigger] block[a] - 1),
                        self.label(#[trigger] block[b] - 1),
                    ),
                forall|w: int|
                    #![trigger self.key_node(w)]
                    self.key_node(w) && ((w == v && !strict) || exists|t: int|
                        0 <= t < k && self.label(self.slot(v, t)).is_prefix_of(self.label(w)))
                        ==> exists|a: int| 0 <= a < block.len() && block[a] == w + 1,
            decreases kids.len() - k,
        {
            let c = kids[k];
            proof {
                lemma_deg_sum_mono(self.degs@, v + 1, self.size() + 1);
                assert(deg_sum(self.degs@, v + 1) == deg_sum(self.degs@, v) + self.deg(v));
                if v >= 1 {
                    assert(deg_sum(self.degs@, v) >= v);
                }
                assert(self.labels@[self.slot(v, k as int)] == self.labels@[v].push(
                    self.tok(self.slot(v, k as int)),
                ));
            }
            let ghost len_before = out@.len();
            self.collect_subtree(c, false, out);
            proof {
                let cb = out@.skip(len_before as int);
                let cv = self.slot(v, k as int);
                let lv = self.label(v);
                let lc = self.label(cv);
                assert(lc == lv.push(self.tok(cv)));
                assert(lv.is_prefix_of(lc));
                let nb = block + cb;
                assert(out@ =~= out0 + nb) by {
                    assert(out@ =~= out@.take(len_before as int) + cb);
                }
                assert forall|a: int| 0 <= a < nb.len() implies {
                    &&& self.in_block(v, #[trigger] nb[a], strict)
                    &&& (nb[a] - 1 == v || exists|t: int|
                        0 <= t < k + 1 && self.label(self.slot(v, t)).is_prefix_of(
                            self.label(nb[a] - 1),
                        ))
                } by {
                    if a >= block.len() {
                        let e = cb[a - block.len()];
                        assert(nb[a] == e);
                        assert(self.in_block(cv, e, false));
                        lemma_prefix_trans(lv, lc, self.label(e - 1));
                        assert(self.label(cv).is_prefix_of(self.label(e - 1)));
                        if e - 1 == v {
                            assert(self.label(e - 1).len() >= lc.len());
                        }
                    } else {
                        assert(nb[a] == block[a]);
                    }
                }
                assert forall|a: int, b: int| 0 <= a < b < nb.len() implies lex_lt(
                    self.label(#[trigger] nb[a] - 1),
                    self.label(#[trigger] nb[b] - 1),
                ) by {
                    if b < block.len() {
                        assert(nb[a] == block[a] && nb[b] == block[b]);
                    } else if a >= block.len() {
                        assert(nb[a] == cb[a - block.len()] && nb[b] == cb[b - block.len()]);
                    } else {
                        let ea = block[a];
                        let eb = cb[b - block.len()];
                        assert(nb[a] == ea && nb[b] == eb);
                        assert(self.in_block(cv, eb, false));
                        if ea - 1 == v {
                            lemma_prefix_trans(lv, lc, self.label(eb - 1));
                            lemma_lex_prefix(lv, self.label(eb - 1));
                        } else {
                            let t = choose|t: int|
                                0 <= t < k && self.label(self.slot(v, t)).is_prefix_of(
                                    self.label(ea - 1),
                                );
                            assert(self.labels@[self.slot(v, t)] == self.labels@[v].push(
                                self.tok(self.slot(v, t)),
                            ));
                            assert(self.tok(self.slot(v, t)).order() < self.tok(
                                self.slot(v, k as int),
                            ).order());
                            lemma_lex_branch(
                                lv,
                                self.tok(self.slot(v, t)),
                                self.tok(cv),
                                self.label(ea - 1),
                                self.label(eb - 1),
                            );
                        }
                    }
                }
                assert forall|w: int|
                    #![trigger self.key_node(w)]
                    self.key_node(w) && ((w == v && !strict) || exists|t: int|
                        0 <= t < k + 1 && self.label(self.slot(v, t)).is_prefix_of(self.label(w)))
                        implies exists|a: int| 0 <= a < nb.len() && nb[a] == w + 1 by {
                    if (w == v && !strict) || exists|t: int|
                        0 <= t < k && self.label(self.slot(v, t)).is_prefix_of(self.label(w)) {
                        let a = choose|a: int| 0 <= a < block.len() && block[a] == w + 1;
                        assert(nb[a] == block[a]);
                    } else {
                        assert(self.label(cv).is_prefix_of(self.label(w)));
                        let a = choose|a: int| 0 <= a < cb.len() && cb[a] == w + 1;
                        assert(nb[block.len() + a] == cb[a]);
                    }
                }
                block = nb;
            }
            k = k + 1;
        }
        proof {
            assert(out@.take(out0.len() as int) =~= out0);
            assert(out@.skip(out0.len() as int) =~= block);
            assert forall|w: int|
                #![trigger self.key_node(w)]
                self.key_node(w) && self.label(v).is_prefix_of(self.label(w)) && (strict ==> w != v)
                    implies exists|a: int| 0 <= a < block.len() && block[a] == w + 1 by {
                if w != v {
                    let m = self.label(v).len() as int;
                    if self.label(w).len() == m {
                        assert(self.label(w) =~= self.label(v));
                        self.lemma_injective(v, w);
                    }
                    let u = self.lemma_ancestor(w, m + 1);
                    assert(self.label(u).drop_last() =~= self.label(v));
                    let t = self.lemma_child_slot(v, u);
                    assert(self.label(u).is_prefix_of(self.label(w)));
                    assert(self.label(self.slot(v, t)).is_prefix_of(self.label(w)));
                }
            }
            assert forall|a: int| 0 <= a < block.len() implies self.in_block(v, #[trigger] block[a], strict) by {
            }
        }
    }

    /// The tokens of node `end`'s label past node `start`'s label.
    pub(crate) fn label_from(&self, start: u64, end: u64) -> (r: Vec<Token>)
        requires
            self.wf(),
            1 <= start <= self.size() + 1,
            1 <= end <= self.size() + 1,
            self.label(start - 1).is_prefix_of(self.label(end - 1)),
        ensures
            r@ == self.label(end - 1).skip(self.label(start - 1).len() as int),
    {
        let ghost ls = self.label(start - 1);
        let ghost le = self.label(end - 1);
        let mut rev: Vec<Token> = Vec::new();
        let mut cur = end;
        while cur != start
            invariant
                self.wf(),
                1 <= start <= self.size() + 1,
                1 <= cur <= self.size() + 1,
                ls == self.label(start - 1),
                ls.is_prefix_of(self.label(cur - 1)),
                self.label(cur - 1).len() + rev@.len() == le.len(),
                forall|i: int| 0 <= i < rev@.len() ==> rev@[i] == le[le.len() - 1 - i],
                self.label(cur - 1) == le.take(self.label(cur - 1).len() as int),
            decreases self.label(cur - 1).len(),
        {
            proof {
                if self.label(cur - 1).len() == ls.len() {
                    assert(self.label(cur - 1) =~= ls);
                    self.lemma_injective((cur - 1) as int, (start - 1) as int);
                }
                self.lemma_label_len((cur - 1) as int);
            }
            let ghost lc = self.label(cur - 1);
            let t = *self.token_at(cur);
            rev.push(t);
            let p = self.parent_num(cur);
            proof {
                assert(lc == self.label(p - 1).push(t));
                assert(self.label(p - 1) =~= lc.drop_last());
                assert(lc[lc.len() - 1] == t);
                assert(ls.is_prefix_of(self.label(p - 1))) by {
                    assert(ls =~= self.label(p - 1).subrange(0, ls.len() as int));
                }
                assert(self.label(p - 1) =~= le.take(self.label(p - 1).len() as int));
            }
            cur = p;
        }
        proof {
            assert(self.label(cur - 1) =~= ls);
        }
        let mut r: Vec<Token> = Vec::new();
        let n = rev.len();
        let mut i: usize = 0;
        while i < n
            invariant
                n == rev@.len(),
                ls.len() + n == le.len(),
                forall|j: int| 0 <= j < n ==> rev@[j] == le[le.len() - 1 - j],
                0 <= i <= n,
                r@.len() == i,
                forall|j: int| 0 <= j < i ==> r@[j] == le[ls.len() + j],
            decreases n - i,
        {
            r.push(rev[n - 1 - i]);
            i = i + 1;
        }
        proof {
            assert(r@ =~= le.skip(ls.len() as int));
        }
        r
    }
}

/// The pairs hold the labels and values of `s`, in order.
pub open spec fn pairs_match<Token, Value>(r: Seq<(Vec<Token>, &Value)>, s: Seq<(Seq<Token>, Value)>) -> bool {
    &&& r.len() == s.len()
    &&& forall|a: int| 0 <= a < r.len() ==> (#[trigger] r[a]).0@ == s[a].0 && *r[a].1 == s[a].1
}

/// The labels and values that `(label, value)` pairs hold.
pub open spec fn pairs_view<Token, Value>(r: Seq<(Vec<Token>, &Value)>) -> Seq<(Seq<Token>, Value)> {
    r.map_values(|p: (Vec<Token>, &Value)| (p.0@, *p.1))
}

/// Each full label, given the query `q` and the labels past it.
pub open spec fn with_prefix<Token, Value>(q: Seq<Token>, s: Seq<(Seq<Token>, Value)>) -> Seq<(Seq<Token>, Value)> {
    s.map_values(|p: (Seq<Token>, Value)| (q + p.0, p.1))
}

impl<'t, Token: TrieToken, Value> PostfixIter<'t, Token, Value> {
    #[verifier::type_invariant]
    spec fn inv(self) -> bool {
        &&& 1 <= self.start <= self.trie.size() + 1
        &&& forall|a: int|
            0 <= a < self.ends@.len() ==> {
                &&& self.trie.key_node(#[trigger] self.ends@[a] - 1)
                &&& self.trie.label(self.start - 1).is_prefix_of(self.trie.label(self.ends@[a] - 1))
            }
    }

    /// The number of keys found.
    pub fn len(&self) -> (r: usize)
        ensures
            r == self@.len(),
    {
        self.ends.len()
    }

    /// The found keys as `(label, value)` pairs.
    pub fn pairs(&self) -> (r: Vec<(Vec<Token>, &'t Value)>)
        ensures
            pairs_match(r@, self@),
    {
        proof {
            use_type_invariant(self);
            use_type_invariant(self.trie);
        }
        let mut r: Vec<(Vec<Token>, &'t Value)> = Vec::new();
        let mut a: usize = 0;
        while a < self.ends.len()
            invariant
                self.trie.wf(),
                1 <= self.start <= self.trie.size() + 1,
                forall|a: int|
                    0 <= a < self.ends@.len() ==> {
                        &&& self.trie.key_node(#[trigger] self.ends@[a] - 1)
                        &&& self.trie.label(self.start - 1).is_prefix_of(self.trie.label(self.ends@[a] - 1))
                    },
                0 <= a <= self.ends.len(),
                r@.len() == a,
                forall|b: int| 0 <= b < a ==> (#[trigger] r@[b]).0@ == self@[b].0 && *r@[b].1 == self@[b].1,
            decreases self.ends.len() - a,
        {
            let e = self.ends[a];
            proof {
                assert(self.trie.key_node(self.ends@[a as int] - 1));
            }
            let label = self.trie.label_from(self.start, e);
            let value = match self.trie.value_at(e) {
                Some(v) => v,
                None => vstd::pervasive::unreached(),
            };
            r.push((label, value));
            a = a + 1;
        }
        r
    }

    /// The labels of the found keys.
    pub fn labels(&self) -> (r: Vec<Vec<Token>>)
        ensures
            r@.len() == self@.len(),
            forall|a: int| 0 <= a < r@.len() ==> (#[trigger] r@[a])@ == self@[a].0,
    {
        proof {
            use_type_invariant(self);
            use_type_invariant(self.trie);
        }
        let mut r: Vec<Vec<Token>> = Vec::new();
        let mut a: usize = 0;
        while a < self.ends.len()
            invariant
                self.trie.wf(),
                1 <= self.start <= self.trie.size() + 1,
                forall|a: int|
                    0 <= a < self.ends@.len() ==> {
                        &&& self.trie.key_node(#[trigger] self.ends@[a] - 1)
                        &&& self.trie.label(self.start - 1).is_prefix_of(self.trie.label(self.ends@[a] - 1))
                    },
                0 <= a <= self.ends.len(),
                r@.len() == a,
                forall|b: int| 0 <= b < a ==> (#[trigger] r@[b])@ == self@[b].0,
            decreases self.ends.len() - a,
        {
            let e = self.ends[a];
            proof {
                assert(self.trie.key_node(self.ends@[a as int] - 1));
            }
            let label = self.trie.label_from(self.start, e);
            r.push(label);
            a = a + 1;
        }
        r
    }
}

impl<'t, Token: TrieToken, Value> PrefixIter<'t, Token, Value> {
    #[verifier::type_invariant]
    spec fn inv(self) -> bool {
        forall|a: int| 0 <= a < self.ends@.len() ==> self.trie.key_node(#[trigger] self.ends@[a] - 1)
    }

    /// The number of keys found.
    pub fn len(&self) -> (r: usize)
        ensures
            r == self@.len(),
    {
        self.ends.len()
    }

    /// The found keys as `(label, value)` pairs.
    pub fn pairs(&self) -> (r: Vec<(Vec<Token>, &'t Value)>)
        ensures
            pairs_match(r@, self@),
    {
        proof {
            use_type_invariant(self);
            use_type_invariant(self.trie);
        }
        let mut r: Vec<(Vec<Token>, &'t Value)> = Vec::new();
        let mut a: usize = 0;
        while a < self.ends.len()
            invariant
                self.trie.wf(),
                forall|a: int| 0 <= a < self.ends@.len() ==> self.trie.key_node(#[trigger] self.ends@[a] - 1),
                0 <= a <= self.ends.len(),
                r@.len() == a,
                forall|b: int| 0 <= b < a ==> (#[trigger] r@[b]).0@ == self@[b].0 && *r@[b].1 == self@[b].1,
            decreases self.ends.len() - a,
        {
            let e = self.ends[a];
            proof {
                assert(self.trie.key_node(self.ends@[a as int] - 1));
                assert(self.trie.label(0) == Seq::<Token>::empty());
            }
            let label = self.trie.label_from(1, e);
            let value = match self.trie.value_at(e) {
                Some(v) => v,
                None => vstd::pervasive::unreached(),
            };
            proof {
                assert(label@ =~= self.trie.label(e - 1));
            }
            r.push((label, value));
            a = a + 1;
        }
        r
    }

    /// The labels of the found keys.
    pub fn labels(&self) -> (r: Vec<Vec<Token>>)
        ensures
            r@.len() == self@.len(),
            forall|a: int| 0 <= a < r@.len() ==> (#[trigger] r@[a])@ == self@[a].0,
    {
        proof {
            use_type_invariant(self);
            use_type_invariant(self.trie);
        }
        let mut r: Vec<Vec<Token>> = Vec::new();
        let mut a: usize = 0;
        while a < self.ends.len()
            invariant
                self.trie.wf(),
                forall|a: int| 0 <= a < self.ends@.len() ==> self.trie.key_node(#[trigger] self.ends@[a] - 1),
                0 <= a <= self.ends.len(),
                r@.len() == a,
                forall|b: int| 0 <= b < a ==> (#[trigger] r@[b])@ == self@[b].0,
            decreases self.ends.len() - a,
        {
            let e = self.ends[a];
            proof {
                assert(self.trie.key_node(self.ends@[a as int] - 1));
                assert(self.trie.label(0) == Seq::<Token>::empty());
            }
            let label = self.trie.label_from(1, e);
            proof {
                assert(label@ =~= self.trie.label(e - 1));
            }
            r.push(label);
            a = a + 1;
        }
        r
    }
}

impl<Token: TrieToken, Value> Trie<Token, Value> {
    /// The keys found by a walk below node `num`, listed from node `start`.
    proof fn lemma_block_lists(self, num: u64, start: u64, ends: Seq<u64>, strict: bool)
        requires
            self.wf(),
            1 <= num <= self.size() + 1,
            start == 1 || start == num,
            strict == (start == num && start != 1) || (strict && start == num),
            self.dfs_block(num - 1, ends, strict),
        ensures
            lists_keys_below(
                self@,
                self.label(num - 1),
                strict,
                Seq::new(
                    ends.len(),
                    |a: int| (self.label(ends[a] - 1), self.val(ends[a] - 1).unwrap()),
                ),
            ),
    {
        let q = self.label(num - 1);
        let keys = Seq::new(
            ends.len(),
            |a: int| (self.label(ends[a] - 1), self.val(ends[a] - 1).unwrap()),
        );
        assert forall|a: int| 0 <= a < keys.len() implies {
            &&& self@.dom().contains(#[trigger] keys[a].0)
            &&& q.is_prefix_of(keys[a].0)
            &&& strict ==> keys[a].0.len() > q.len()
            &&& keys[a].1 == self@[keys[a].0]
        } by {
            assert(self.in_block(num - 1, ends[a], strict));
            self.lemma_view_at(ends[a] - 1);
            if strict && keys[a].0.len() <= q.len() {
                assert(keys[a].0 =~= q);
                self.lemma_injective(ends[a] - 1, num - 1);
            }
        }
        assert forall|a: int, b: int| 0 <= a < b < keys.len() implies lex_lt(
            #[trigger] keys[a].0,
            #[trigger] keys[b].0,
        ) by {
            assert(lex_lt(self.label(ends[a] - 1), self.label(ends[b] - 1)));
        }
        assert forall|k: Seq<Token>|
            self@.dom().contains(k) && q.is_prefix_of(k) && (strict ==> k.len() > q.len())
                implies exists|a: int| 0 <= a < keys.len() && #[trigger] keys[a].0 == k by {
            self.lemma_view_def(k);
            let w = choose|v: int| self.key_node(v) && self.label(v) == k;
            assert(self.key_node(w));
            let a = choose|a: int| 0 <= a < ends.len() && ends[a] == w + 1;
            assert(keys[a].0 == k);
        }
    }

    /// Every key of this trie, in lexicographic order.
    pub fn iter(&self) -> (r: PostfixIter<'_, Token, Value>)
        ensures
            lists_keys_below(self@, Seq::empty(), false, r@),
    {
        proof {
            use_type_invariant(self);
        }
        let mut ends: Vec<u64> = Vec::new();
        self.collect_subtree(1, false, &mut ends);
        proof {
            assert(ends@.skip(0) =~= ends@);
            self.lemma_block_lists(1, 1, ends@, false);
        }
        let r = PostfixIter { trie: self, ends, start: 1 };
        proof {
            assert(self.label(0) == Seq::<Token>::empty());
            assert forall|a: int| 0 <= a < ends@.len() implies #[trigger] self.label(ends@[a] - 1).skip(0)
                == self.label(ends@[a] - 1) by {
                assert(self.label(ends@[a] - 1).skip(0) =~= self.label(ends@[a] - 1));
            }
            assert(r@ =~= Seq::new(
                ends@.len(),
                |a: int| (self.label(ends@[a] - 1), self.val(ends@[a] - 1).unwrap()),
            ));
        }
        r
    }

    /// Returns the keys that start with `label` (including `label` itself), in
    /// lexicographic order.
    ///
    /// e.g. "app" → "app", "apple", "application"
    pub fn starts_with<L: Label<Token>>(&self, label: L) -> (r: PostfixIter<'_, Token, Value>)
        ensures
            lists_keys_below(self@, label.tokens(), false, r@),
    {
        proof {
            use_type_invariant(self);
        }
        let q = label.into_tokens();
        let mut ends: Vec<u64> = Vec::new();
        match self.get_num(q.as_slice()) {
            Some(num) => {
                self.collect_subtree(num, false, &mut ends);
                proof {
                    assert(ends@.skip(0) =~= ends@);
                    self.lemma_block_lists(num, 1, ends@, false);
                }
            },
            None => {
                proof {
                    self.lemma_not_node(q@);
                }
            },
        }
        let r = PostfixIter { trie: self, ends, start: 1 };
        proof {
            assert(self.label(0) == Seq::<Token>::empty());
            assert forall|a: int| 0 <= a < ends@.len() implies #[trigger] self.label(ends@[a] - 1).skip(0)
                == self.label(ends@[a] - 1) by {
                assert(self.label(ends@[a] - 1).skip(0) =~= self.label(ends@[a] - 1));
            }
            assert(r@ =~= Seq::new(
                ends@.len(),
                |a: int| (self.label(ends@[a] - 1), self.val(ends@[a] - 1).unwrap()),
            ));
        }
        r
    }

    /// Returns the keys that properly extend `label`, as the tokens that follow
    /// `label`, in lexicographic order.
    ///
    /// e.g. "app" → "le" (as in "apple"), "lication"
    pub fn suffixes_of<L: Label<Token>>(&self, label: L) -> (r: PostfixIter<'_, Token, Value>)
        ensures
            lists_keys_below(self@, label.tokens(), true, with_prefix(label.tokens(), r@)),
    {
        proof {
            use_type_invariant(self);
        }
        let q = label.into_tokens();
        let mut ends: Vec<u64> = Vec::new();
        let r = match self.get_num(q.as_slice()) {
            Some(num) => {
                self.collect_subtree(num, true, &mut ends);
                proof {
                    assert(ends@.skip(0) =~= ends@);
                    self.lemma_block_lists(num, num, ends@, true);
                    assert forall|a: int| 0 <= a < ends@.len() implies self.label(num - 1).is_prefix_of(
                        self.label(#[trigger] ends@[a] - 1),
                    ) by {
                        assert(self.in_block(num - 1, ends@[a], true));
                    }
                }
                let r = PostfixIter { trie: self, ends, start: num };
                proof {
                    assert(with_prefix(q@, r@) =~= Seq::new(
                        ends@.len(),
                        |a: int| (self.label(ends@[a] - 1), self.val(ends@[a] - 1).unwrap()),
                    )) by {
                        assert forall|a: int| 0 <= a < ends@.len() implies q@ + self.label(
                            ends@[a] - 1,
                        ).skip(q@.len() as int) == self.label(#[trigger] ends@[a] - 1) by {
                            assert(self.in_block(num - 1, ends@[a], true));
                            assert(q@ + self.label(ends@[a] - 1).skip(q@.len() as int) =~= self.label(
                                ends@[a] - 1,
                            ));
                        }
                    }
                }
                r
            },
            None => {
                proof {
                    self.lemma_not_node(q@);
                }
                let r = PostfixIter { trie: self, ends, start: 1 };
                proof {
                    assert(with_prefix(q@, r@).len() == 0);
                }
                r
            },
        };
        r
    }

    /// No key extends `q.take(k)` through a token other than those of node
    /// `num`'s children: when none of them is `q[k]`, no longer prefix of `q` is a key.
    proof fn lemma_prefix_walk_stops(self, q: Seq<Token>, k: int, num: u64, j: int)
        requires
            self.wf(),
            0 <= k < j <= q.len(),
            1 <= num <= self.size() + 1,
            self.label(num - 1) == q.take(k),
            forall|t: int|
                0 <= t < self.deg(num - 1) ==> self.tok(#[trigger] self.slot(num - 1, t)) != q[k],
        ensures
            prefix_keys(self@, q, j) == prefix_keys(self@, q, k),
        decreases j - k,
    {
        if j - 1 > k {
            self.lemma_prefix_walk_stops(q, k, num, j - 1);
        }
        if self@.dom().contains(q.take(j)) {
            self.lemma_view_def(q.take(j));
            let w = choose|v: int| self.key_node(v) && self.label(v) == q.take(j);
            let u = self.lemma_ancestor(w, k + 1);
            assert(self.label(u) =~= q.take(k + 1));
            assert(self.label(u).drop_last() =~= q.take(k));
            let t = self.lemma_child_slot((num - 1) as int, u);
            assert(self.tok(u) == self.label(u).last());
        }
    }

    /// Returns the keys that are prefixes of `label` (including `label`
    /// itself), shortest first.
    ///
    /// e.g. "apple" → "a", "app", "apple"
    pub fn prefixes_of<L: Label<Token>>(&self, label: L) -> (r: PrefixIter<'_, Token, Value>)
        ensures
            r@.map_values(|p: (Seq<Token>, Value)| p.0) == prefix_keys(
                self@,
                label.tokens(),
                label.tokens().len() as int,
            ),
            forall|a: int| 0 <= a < r@.len() ==> (#[trigger] r@[a]).1 == self@[r@[a].0],
    {
        proof {
            use_type_invariant(self);
        }
        let q = label.into_tokens();
        let mut ends: Vec<u64> = Vec::new();
        let mut num: u64 = 1;
        let mut k: usize = 0;
        let mut stopped = false;
        proof {
            assert(q@.take(0) =~= Seq::<Token>::empty());
        }
        while k < q.len() && !stopped
            invariant
                self.wf(),
                0 <= k <= q.len(),
                1 <= num <= self.size() + 1,
                self.label(num - 1) == q@.take(k as int),
                forall|a: int| 0 <= a < ends@.len() ==> self.key_node(#[trigger] ends@[a] - 1),
                ends@.len() == prefix_keys(self@, q@, k as int).len(),
                forall|a: int|
                    0 <= a < ends@.len() ==> self.label(#[trigger] ends@[a] - 1) == prefix_keys(
                        self@,
                        q@,
                        k as int,
                    )[a],
                stopped ==> k < q.len() && forall|t: int|
                    0 <= t < self.deg(num - 1) ==> self.tok(#[trigger] self.slot(num - 1, t))
                        != q[k as int],
            decreases q.len() - k, if stopped {
                0int
            } else {
                1int
            },
        {
            match self.find_child(num, &q[k]) {
                Some(c) => {
                    let ghost ends0 = ends@;
                    let ghost pk = prefix_keys(self@, q@, k as int);
                    proof {
                        let t = choose|t: int|
                            0 <= t < self.deg(num - 1) && c == #[trigger] self.slot(num - 1, t) + 1
                                && self.tok(c - 1) == q[k as int];
                        assert(self.labels@[self.slot(num - 1, t)] == self.labels@[num - 1].push(
                            self.tok(self.slot(num - 1, t)),
                        ));
                        lemma_deg_sum_mono(self.degs@, num - 1 + 1, self.size() + 1);
                        assert(q@.take(k + 1) =~= q@.take(k as int).push(q[k as int]));
                        self.lemma_view_at(c - 1);
                    }
                    num = c;
                    if self.value_at(c).is_some() {
                        ends.push(c);
                        proof {
                            assert(prefix_keys(self@, q@, k + 1) == pk.push(q@.take(k + 1)));
                            assert forall|a: int| 0 <= a < ends@.len() implies self.label(
                                #[trigger] ends@[a] - 1,
                            ) == prefix_keys(self@, q@, k + 1)[a] by {
                                if a < ends0.len() {
                                    assert(ends@[a] == ends0[a]);
                                }
                            }
                        }
                    } else {
                        proof {
                            assert(prefix_keys(self@, q@, k + 1) == pk);
                        }
                    }
                    k = k + 1;
                },
                None => {
                    stopped = true;
                },
            }
        }
        proof {
            if stopped {
                self.lemma_prefix_walk_stops(q@, k as int, num, q@.len() as int);
            }
        }
        let r = PrefixIter { trie: self, ends };
        proof {
            let pk = prefix_keys(self@, q@, q@.len() as int);
            assert(r@.map_values(|p: (Seq<Token>, Value)| p.0) =~= pk);
            assert forall|a: int| 0 <= a < r@.len() implies (#[trigger] r@[a]).1 == self@[r@[a].0] by {
                self.lemma_view_at(ends@[a] - 1);
            }
        }
        r
    }
}

impl<Token: TrieToken, Value> Trie<Token, Value> {
    /// The keys that start with `label`, with their values, in lexicographic order.
    pub fn starts_with_pairs<L: Label<Token>>(&self, label: L) -> (r: Vec<(Vec<Token>, &Value)>)
        ensures
            lists_keys_below(self@, label.tokens(), false, pairs_view(r@)),
    {
        let it = self.starts_with(label);
        let r = it.pairs();
        proof {
            assert(pairs_view(r@) =~= it@);
        }
        r
    }

    /// The keys that properly extend `label`, each as the tokens that follow
    /// `label`, with their values, in lexicographic order.
    pub fn suffixes_of_pairs<L: Label<Token>>(&self, label: L) -> (r: Vec<(Vec<Token>, &Value)>)
        ensures
            lists_keys_below(self@, label.tokens(), true, with_prefix(label.tokens(), pairs_view(r@))),
    {
        let it = self.suffixes_of(label);
        let r = it.pairs();
        proof {
            assert(pairs_view(r@) =~= it@);
        }
        r
    }

    /// The keys that are prefixes of `label`, with their values, shortest first.
    pub fn prefixes_of_pairs<L: Label<Token>>(&self, label: L) -> (r: Vec<(Vec<Token>, &Value)>)
        ensures
            pairs_view(r@).map_values(|p: (Seq<Token>, Value)| p.0) == prefix_keys(
                self@,
                label.tokens(),
                label.tokens().len() as int,
            ),
            forall|a: int| 0 <= a < r@.len() ==> *(#[trigger] r@[a]).1 == self@[r@[a].0@],
    {
        let it = self.prefixes_of(label);
        let r = it.pairs();
        proof {
            assert(pairs_view(r@) =~= it@);
            assert forall|a: int| 0 <= a < r@.len() implies *(#[trigger] r@[a]).1 == self@[r@[a].0@] by {
                assert(it@[a].1 == self@[it@[a].0]);
            }
        }
        r
    }
}

} // verus!
