//! Bit-level model of a LOUDS (level-order unary degree sequence): counting,
//! positions of the k-th one or zero, and the encoding of a sequence of node
//! degrees in level order.
use vstd::prelude::*;

verus! {

/// The number of positions `j < i` with `bits[j] == b`.
pub open spec fn count_bit(bits: Seq<bool>, i: int, b: bool) -> nat
    decreases i,
{
    if i <= 0 {
        0
    } else {
        count_bit(bits, i - 1, b) + if bits[i - 1] == b {
            1nat
        } else {
            0nat
        }
    }
}

/// The position of the `k`-th bit equal to `b` (counting from 1).
pub open spec fn kth_pos(bits: Seq<bool>, k: int, b: bool) -> int {
    choose|p: int| 0 <= p < bits.len() && bits[p] == b && count_bit(bits, p, b) == k - 1
}

/// The length of the run of ones that starts at position `s`.
pub open spec fn ones_run(bits: Seq<bool>, s: int) -> nat
    decreases bits.len() - s,
{
    if 0 <= s < bits.len() && bits[s] {
        1 + ones_run(bits, s + 1)
    } else {
        0
    }
}

/// A valid LOUDS bit vector: it starts with "10", no prefix holds more than
/// one zero beyond its ones, and the whole holds exactly one zero more than ones.
pub open spec fn is_lbs(bits: Seq<bool>) -> bool {
    &&& bits.len() >= 2
    &&& bits[0]
    &&& !bits[1]
    &&& forall|i: int|
        0 < i <= bits.len() ==> #[trigger] count_bit(bits, i, false) <= count_bit(bits, i, true)
            + 1
    &&& count_bit(bits, bits.len() as int, false) == count_bit(bits, bits.len() as int, true) + 1
}

/// The sum of the first `i` degrees.
pub open spec fn deg_sum(degs: Seq<nat>, i: int) -> nat
    decreases i,
{
    if i <= 0 {
        0
    } else {
        deg_sum(degs, i - 1) + degs[i - 1]
    }
}

/// `d` ones.
pub open spec fn ones(d: nat) -> Seq<bool> {
    Seq::new(d, |_j: int| true)
}

/// Each degree written in unary and closed by a zero, in order.
pub open spec fn unary(degs: Seq<nat>) -> Seq<bool>
    decreases degs.len(),
{
    if degs.len() == 0 {
        seq![]
    } else {
        unary(degs.drop_last()) + ones(degs.last()) + seq![false]
    }
}

/// The LOUDS bit vector of a tree whose nodes, in level order, have the
/// degrees `degs`: the virtual super root "10" followed by the unary degrees.
pub open spec fn level_order_bits(degs: Seq<nat>) -> Seq<bool> {
    seq![true, false] + unary(degs)
}

/// The degrees describe a tree in level order: every node but the first has
/// its parent among the nodes before it, and there are as many child slots as
/// nodes below the root.
pub open spec fn degrees_wf(degs: Seq<nat>) -> bool {
    &&& degs.len() >= 1
    &&& deg_sum(degs, degs.len() as int) == degs.len() - 1
    &&& forall|v: int| 1 <= v < degs.len() ==> #[trigger] deg_sum(degs, v) >= v
}

pub proof fn lemma_count_bit_le(bits: Seq<bool>, i: int, j: int, b: bool)
    requires
        i <= j,
    ensures
        count_bit(bits, i, b) <= count_bit(bits, j, b),
    decreases j - i,
{
    if i < j {
        lemma_count_bit_le(bits, i, j - 1, b);
    }
}

pub proof fn lemma_count_bit_total(bits: Seq<bool>, i: int)
    requires
        0 <= i,
    ensures
        count_bit(bits, i, true) + count_bit(bits, i, false) == i,
    decreases i,
{
    if i > 0 {
        lemma_count_bit_total(bits, i - 1);
    }
}

/// Two positions holding the same bit value with the same count before them coincide.
pub proof fn lemma_pos_unique(bits: Seq<bool>, p: int, q: int, b: bool)
    requires
        0 <= p < bits.len(),
        0 <= q < bits.len(),
        bits[p] == b,
        bits[q] == b,
        count_bit(bits, p, b) == count_bit(bits, q, b),
    ensures
        p == q,
{
    if p < q {
        lemma_count_bit_le(bits, p + 1, q, b);
    } else if q < p {
        lemma_count_bit_le(bits, q + 1, p, b);
    }
}

/// A count over a prefix of `a + c` that stays within `a`.
pub proof fn lemma_count_bit_prefix(a: Seq<bool>, c: Seq<bool>, p: int, b: bool)
    requires
        0 <= p <= a.len(),
    ensures
        count_bit(a + c, p, b) == count_bit(a, p, b),
    decreases p,
{
    if p > 0 {
        lemma_count_bit_prefix(a, c, p - 1, b);
    }
}

/// A count over a prefix of `a + c` that reaches into `c`.
pub proof fn lemma_count_bit_concat(a: Seq<bool>, c: Seq<bool>, j: int, b: bool)
    requires
        0 <= j <= c.len(),
    ensures
        count_bit(a + c, a.len() + j, b) == count_bit(a, a.len() as int, b) + count_bit(c, j, b),
    decreases j,
{
    if j == 0 {
        lemma_count_bit_prefix(a, c, a.len() as int, b);
    } else {
        lemma_count_bit_concat(a, c, j - 1, b);
        assert((a + c)[a.len() + j - 1] == c[j - 1]);
    }
}

pub proof fn lemma_count_ones_seq(d: nat, t: int)
    requires
        0 <= t <= d,
    ensures
        count_bit(ones(d), t, true) == t,
        count_bit(ones(d), t, false) == 0,
    decreases t,
{
    if t > 0 {
        lemma_count_ones_seq(d, t - 1);
    }
}

pub proof fn lemma_deg_sum_drop_last(degs: Seq<nat>, i: int)
    requires
        0 <= i < degs.len(),
    ensures
        deg_sum(degs.drop_last(), i) == deg_sum(degs, i),
    decreases i,
{
    if i > 0 {
        lemma_deg_sum_drop_last(degs, i - 1);
    }
}

pub proof fn lemma_deg_sum_mono(degs: Seq<nat>, i: int, j: int)
    requires
        0 <= i <= j <= degs.len(),
    ensures
        deg_sum(degs, i) <= deg_sum(degs, j),
    decreases j - i,
{
    if i < j {
        lemma_deg_sum_mono(degs, i, j - 1);
    }
}

/// Length and counts of the whole unary encoding.
pub proof fn lemma_unary_total(degs: Seq<nat>)
    ensures
        unary(degs).len() == deg_sum(degs, degs.len() as int) + degs.len(),
        count_bit(unary(degs), unary(degs).len() as int, true) == deg_sum(degs, degs.len() as int),
        count_bit(unary(degs), unary(degs).len() as int, false) == degs.len(),
    decreases degs.len(),
{
    if degs.len() > 0 {
        let dl = degs.drop_last();
        let d = degs.last();
        lemma_unary_total(dl);
        lemma_deg_sum_drop_last(degs, degs.len() - 1);
        let u1 = unary(dl);
        let u2 = u1 + ones(d);
        let u = u2 + seq![false];
        assert(unary(degs) == u);
        lemma_count_ones_seq(d, d as int);
        lemma_count_bit_concat(u1, ones(d), d as int, true);
        lemma_count_bit_concat(u1, ones(d), d as int, false);
        lemma_count_bit_concat(u2, seq![false], 1, true);
        lemma_count_bit_concat(u2, seq![false], 1, false);
        assert(count_bit(seq![false], 1, true) == 0) by {
            reveal_with_fuel(count_bit, 2);
        }
        assert(count_bit(seq![false], 1, false) == 1) by {
            reveal_with_fuel(count_bit, 2);
        }
    }
}

/// The block of node `i` in the unary encoding: `degs[i]` ones closed by a zero.
pub proof fn lemma_unary_block(degs: Seq<nat>, i: int, t: int)
    requires
        0 <= i < degs.len(),
        0 <= t <= degs[i],
    ensures
        deg_sum(degs, i) + i + t < unary(degs).len(),
        unary(degs)[deg_sum(degs, i) + i + t] == (t < degs[i]),
        count_bit(unary(degs), deg_sum(degs, i) + i + t, true) == deg_sum(degs, i) + t,
        count_bit(unary(degs), deg_sum(degs, i) + i + t, false) == i,
    decreases degs.len(),
{
    let dl = degs.drop_last();
    let d = degs.last();
    let u1 = unary(dl);
    let u2 = u1 + ones(d);
    let u = u2 + seq![false];
    assert(unary(degs) == u);
    lemma_unary_total(dl);
    lemma_unary_total(degs);
    let pos = deg_sum(degs, i) + i + t;
    if i < degs.len() - 1 {
        lemma_unary_block(dl, i, t);
        lemma_deg_sum_drop_last(degs, i);
        assert(dl[i] == degs[i]);
        assert(u[pos] == u1[pos]);
        lemma_count_bit_prefix(u1, ones(d), pos, true);
        lemma_count_bit_prefix(u1, ones(d), pos, false);
        lemma_count_bit_prefix(u2, seq![false], pos, true);
        lemma_count_bit_prefix(u2, seq![false], pos, false);
    } else {
        lemma_deg_sum_drop_last(degs, i);
        assert(pos == u1.len() + t);
        lemma_count_ones_seq(d, t);
        lemma_count_bit_concat(u1, ones(d), t, true);
        lemma_count_bit_concat(u1, ones(d), t, false);
        lemma_count_bit_prefix(u2, seq![false], pos, true);
        lemma_count_bit_prefix(u2, seq![false], pos, false);
        if t < d {
            assert(u[pos] == ones(d)[t]);
        } else {
            assert(u[pos] == false);
        }
    }
}

/// The same block, read in the full LOUDS bit vector.
pub proof fn lemma_lob_block(degs: Seq<nat>, i: int, t: int)
    requires
        0 <= i < degs.len(),
        0 <= t <= degs[i],
    ensures
        2 + deg_sum(degs, i) + i + t < level_order_bits(degs).len(),
        level_order_bits(degs)[2 + deg_sum(degs, i) + i + t] == (t < degs[i]),
        count_bit(level_order_bits(degs), 2 + deg_sum(degs, i) + i + t, true) == 1 + deg_sum(
            degs,
            i,
        ) + t,
        count_bit(level_order_bits(degs), 2 + deg_sum(degs, i) + i + t, false) == 1 + i,
{
    let head = seq![true, false];
    let u = unary(degs);
    lemma_unary_block(degs, i, t);
    let pos = deg_sum(degs, i) + i + t;
    assert(level_order_bits(degs) == head + u);
    assert((head + u)[2 + pos] == u[pos]);
    lemma_count_bit_concat(head, u, pos, true);
    lemma_count_bit_concat(head, u, pos, false);
    assert(count_bit(head, 2, true) == 1) by {
        reveal_with_fuel(count_bit, 3);
    }
    assert(count_bit(head, 2, false) == 1) by {
        reveal_with_fuel(count_bit, 3);
    }
}

/// Every position of the unary part lies in the block of some node.
pub proof fn lemma_unary_position(degs: Seq<nat>, pos: int) -> (it: (int, int))
    requires
        0 <= pos < unary(degs).len(),
    ensures
        0 <= it.0 < degs.len(),
        0 <= it.1 <= degs[it.0],
        pos == deg_sum(degs, it.0) + it.0 + it.1,
    decreases degs.len(),
{
    let dl = degs.drop_last();
    let d = degs.last();
    lemma_unary_total(dl);
    lemma_unary_total(degs);
    let i = degs.len() - 1;
    lemma_deg_sum_drop_last(degs, i);
    if pos < unary(dl).len() {
        let (j, t) = lemma_unary_position(dl, pos);
        lemma_deg_sum_drop_last(degs, j);
        (j, t)
    } else {
        (i, pos - unary(dl).len())
    }
}

/// A LOUDS bit vector built from well-formed degrees is valid.
pub proof fn lemma_lob_is_lbs(degs: Seq<nat>)
    requires
        degrees_wf(degs),
    ensures
        is_lbs(level_order_bits(degs)),
        level_order_bits(degs).len() == 2 * degs.len() + 1,
        count_bit(level_order_bits(degs), level_order_bits(degs).len() as int, true) == degs.len(),
{
    let bits = level_order_bits(degs);
    let head = seq![true, false];
    let u = unary(degs);
    let n1 = degs.len() as int;
    lemma_unary_total(degs);
    assert(bits == head + u);
    assert(count_bit(head, 2, true) == 1) by {
        reveal_with_fuel(count_bit, 3);
    }
    assert(count_bit(head, 2, false) == 1) by {
        reveal_with_fuel(count_bit, 3);
    }
    lemma_count_bit_concat(head, u, u.len() as int, true);
    lemma_count_bit_concat(head, u, u.len() as int, false);
    assert(bits[0]);
    assert(!bits[1]);
    assert forall|i: int| 0 < i <= bits.len() implies #[trigger] count_bit(bits, i, false)
        <= count_bit(bits, i, true) + 1 by {
        if i <= 2 {
            lemma_count_bit_prefix(head, u, i, true);
            lemma_count_bit_prefix(head, u, i, false);
            reveal_with_fuel(count_bit, 3);
        } else {
            let (v, t) = lemma_unary_position(degs, i - 3);
            lemma_lob_block(degs, v, t);
            let p = 2 + deg_sum(degs, v) + v + t;
            assert(p == i - 1);
            if t < degs[v] {
            } else {
                // the closing zero of node v
                if v + 1 < n1 {
                    assert(deg_sum(degs, v + 1) >= v + 1);
                } else {
                    assert(deg_sum(degs, v + 1) == n1 - 1);
                }
            }
        }
    }
}

/// Node `v` (level order, 0 = root) lies in the child block of a node before it.
pub proof fn lemma_owner(degs: Seq<nat>, v: int) -> (it: (int, int))
    requires
        degrees_wf(degs),
        1 <= v < degs.len(),
    ensures
        0 <= it.0 < v,
        0 <= it.1 < degs[it.0],
        v == 1 + deg_sum(degs, it.0) + it.1,
{
    let i = owner_search(degs, v, v);
    (i, v - 1 - deg_sum(degs, i))
}

proof fn owner_search(degs: Seq<nat>, v: int, j: int) -> (i: int)
    requires
        degrees_wf(degs),
        1 <= v < degs.len(),
        1 <= j <= v,
        deg_sum(degs, j) >= v,
    ensures
        0 <= i < j,
        deg_sum(degs, i) < v <= deg_sum(degs, i + 1),
    decreases j,
{
    if deg_sum(degs, j - 1) < v {
        j - 1
    } else {
        assert(j - 1 >= 1);
        owner_search(degs, v, j - 1)
    }
}

/// Child slots of distinct nodes are distinct: slot `(i, t)` is node
/// `1 + deg_sum(i) + t`, and only one slot gives each node.
pub proof fn lemma_slot_unique(degs: Seq<nat>, i1: int, t1: int, i2: int, t2: int)
    requires
        0 <= i1 < degs.len(),
        0 <= i2 < degs.len(),
        0 <= t1 < degs[i1],
        0 <= t2 < degs[i2],
        deg_sum(degs, i1) + t1 == deg_sum(degs, i2) + t2,
    ensures
        i1 == i2,
        t1 == t2,
{
    if i1 < i2 {
        lemma_deg_sum_mono(degs, i1 + 1, i2);
    } else if i2 < i1 {
        lemma_deg_sum_mono(degs, i2 + 1, i1);
    }
}

/// The zero that precedes the child block of node `i` is the `(i+1)`-th zero.
pub proof fn lemma_lob_kth_zero(degs: Seq<nat>, i: int)
    requires
        degrees_wf(degs),
        0 <= i < degs.len(),
    ensures
        kth_pos(level_order_bits(degs), i + 1, false) == 1 + deg_sum(degs, i) + i,
{
    let bits = level_order_bits(degs);
    let p = 1 + deg_sum(degs, i) + i;
    lemma_lob_is_lbs(degs);
    if i == 0 {
        assert(count_bit(bits, 1, false) == 0) by {
            reveal_with_fuel(count_bit, 2);
        }
    } else {
        lemma_lob_block(degs, i - 1, degs[i - 1] as int);
        assert(deg_sum(degs, i) == deg_sum(degs, i - 1) + degs[i - 1]);
    }
    assert(0 <= p < bits.len() && bits[p] == false && count_bit(bits, p, false) == i);
    let q = kth_pos(bits, i + 1, false);
    assert(0 <= q < bits.len() && bits[q] == false && count_bit(bits, q, false) == i);
    if q < p {
        lemma_count_bit_le(bits, q + 1, p, false);
    } else if p < q {
        lemma_count_bit_le(bits, p + 1, q, false);
    }
}

/// The one for node `v >= 1` is the `(v+1)`-th one; it sits in its owner's block.
pub proof fn lemma_lob_kth_one(degs: Seq<nat>, i: int, t: int)
    requires
        degrees_wf(degs),
        0 <= i < degs.len(),
        0 <= t < degs[i],
    ensures
        kth_pos(level_order_bits(degs), 2 + deg_sum(degs, i) + t, true) == 2 + deg_sum(degs, i)
            + i + t,
{
    let bits = level_order_bits(degs);
    let p = 2 + deg_sum(degs, i) + i + t;
    let k = 2 + deg_sum(degs, i) + t;
    lemma_lob_is_lbs(degs);
    lemma_lob_block(degs, i, t);
    let q = kth_pos(bits, k, true);
    assert(0 <= p < bits.len() && bits[p] == true && count_bit(bits, p, true) == k - 1);
    assert(0 <= q < bits.len() && bits[q] == true && count_bit(bits, q, true) == k - 1);
    if q < p {
        lemma_count_bit_le(bits, q + 1, p, true);
    } else if p < q {
        lemma_count_bit_le(bits, p + 1, q, true);
    }
}

/// The run of ones after the `(i+1)`-th zero is node `i`'s child block.
pub proof fn lemma_lob_run(degs: Seq<nat>, i: int, t: int)
    requires
        degrees_wf(degs),
        0 <= i < degs.len(),
        0 <= t <= degs[i],
    ensures
        ones_run(level_order_bits(degs), 2 + deg_sum(degs, i) + i + t) == degs[i] - t,
    decreases degs[i] - t,
{
    lemma_lob_block(degs, i, t);
    if t < degs[i] {
        lemma_lob_run(degs, i, t + 1);
    }
}

} // verus!
