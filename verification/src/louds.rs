//! The LOUDS tree of the `louds-rs` crate, as the trie uses it.
//!
//! A `Louds` is an opaque value to the verifier; what it holds is named by
//! [`louds_bits`], the bit vector (LBS) it was built from. Each query below is
//! stated over those bits with the rank/select counting of [`crate::lbs`].
use vstd::prelude::*;
use louds_rs::{Louds, LoudsIndex, LoudsNodeNum};
use crate::lbs::{count_bit, is_lbs, kth_pos, ones_run};

verus! {

#[verifier::external_type_specification]
#[verifier::external_body]
pub struct ExLouds(Louds);

/// The LOUDS bit vector held by a `Louds`.
pub uninterp spec fn louds_bits(l: Louds) -> Seq<bool>;

/// `Louds::from(&[bool])`: builds the tree from a valid LBS (it panics on an
/// invalid one, hence the `requires`); the built value holds those bits.
#[verifier::external_body]
pub(crate) fn louds_from_bits(bits: &[bool]) -> (l: Louds)
    requires
        is_lbs(bits@),
    ensures
        louds_bits(l) == bits@,
{
    Louds::from(bits)
}

/// `Louds::clone`: the copy holds the same bits.
#[verifier::external_body]
pub(crate) fn louds_clone(l: &Louds) -> (r: Louds)
    ensures
        louds_bits(r) == louds_bits(*l),
{
    l.clone()
}

/// `Louds::parent_to_children_nodes`, collected: the children of node
/// `node_num` are the ones that follow the `node_num`-th zero, each numbered by
/// its rank (the count of ones up to and including it).
#[verifier::external_body]
pub(crate) fn louds_children(l: &Louds, node_num: u64) -> (r: Vec<u64>)
    requires
        is_lbs(louds_bits(*l)),
        1 <= node_num <= count_bit(louds_bits(*l), louds_bits(*l).len() as int, true),
    ensures
        r.len() == ones_run(louds_bits(*l), kth_pos(louds_bits(*l), node_num as int, false) + 1),
        forall|t: int|
            0 <= t < r.len() ==> r[t] == count_bit(
                louds_bits(*l),
                kth_pos(louds_bits(*l), node_num as int, false) + 1 + t,
                true,
            ) + 1,
{
    l.parent_to_children_nodes(LoudsNodeNum(node_num)).map(|n| n.0).collect()
}

/// `Louds::node_num_to_index`: the position of the `node_num`-th one.
#[verifier::external_body]
pub(crate) fn louds_node_num_to_index(l: &Louds, node_num: u64) -> (r: u64)
    requires
        is_lbs(louds_bits(*l)),
        1 <= node_num <= count_bit(louds_bits(*l), louds_bits(*l).len() as int, true),
    ensures
        0 <= r < louds_bits(*l).len(),
        louds_bits(*l)[r as int],
        count_bit(louds_bits(*l), r as int, true) == node_num - 1,
{
    l.node_num_to_index(LoudsNodeNum(node_num)).0
}

/// `Louds::child_to_parent`: for a one at `index` other than the first, the
/// number of zeros up to and including `index`.
#[verifier::external_body]
pub(crate) fn louds_child_to_parent(l: &Louds, index: u64) -> (r: u64)
    requires
        0 < index < louds_bits(*l).len(),
        louds_bits(*l)[index as int],
    ensures
        r == count_bit(louds_bits(*l), index + 1, false),
{
    l.child_to_parent(LoudsIndex(index)).0
}

} // verus!
