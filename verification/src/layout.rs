//! The shape of a complete tree and the walk of a point through it.
//!
//! The nodes of a tree are numbered in pre-order: a node, then its whole left
//! subtree, then its whole right subtree. The number of a node is its slot.
//! A tree is then described by its depth and by the sequence of its splits in
//! slot order, and every walk is a sequence of slots.

use vstd::prelude::*;
use crate::binary64::less;

verus! {

/// An axis-aligned split: a coordinate index and a threshold, the latter a
/// binary64 value given by its bit pattern.
#[derive(Clone, Copy, Debug, PartialEq, Eq, Structural)]
pub struct Split {
    pub dim: usize,
    pub val: u64,
}

/// The leaf that a walk ends in.
#[derive(Clone, Copy, Debug, PartialEq, Eq, Structural)]
pub struct Leaf {
    /// The slot of the leaf.
    pub slot: usize,
    /// The depth of the leaf, the root being at depth zero.
    pub depth: u32,
}

/// The number of nodes of a complete binary tree with `levels` levels below
/// its root.
pub open spec fn tree_size(levels: nat) -> nat
    decreases levels,
{
    if levels == 0 {
        1
    } else {
        2 * tree_size((levels - 1) as nat) + 1
    }
}

/// Whether the point `x` falls on the left of the split: its coordinate is
/// below the threshold.
pub open spec fn goes_left(split: Split, x: Seq<u64>) -> bool {
    less(x[split.dim as int], split.val)
}

/// The slot of the child that `x` moves to from the inner node at slot `at`,
/// a node with `levels` levels below it.
pub open spec fn child(splits: Seq<Split>, x: Seq<u64>, at: int, levels: nat) -> int {
    if goes_left(splits[at], x) {
        at + 1
    } else {
        at + 1 + tree_size((levels - 1) as nat)
    }
}

/// The slots that `x` visits from the node at slot `at` down to a leaf, in
/// the order of the walk.
pub open spec fn route(splits: Seq<Split>, x: Seq<u64>, at: int, levels: nat) -> Seq<int>
    decreases levels,
{
    if levels == 0 {
        seq![at]
    } else {
        seq![at] + route(splits, x, child(splits, x, at, levels), (levels - 1) as nat)
    }
}

/// A taller tree has more nodes.
pub proof fn lemma_tree_size_grows(a: nat, b: nat)
    requires
        a <= b,
    ensures
        1 <= tree_size(a) <= tree_size(b),
        a < b ==> 2 * tree_size(a) + 1 <= tree_size(b),
    decreases b,
{
    if a < b {
        lemma_tree_size_grows(a, (b - 1) as nat);
    }
}

/// A walk visits one node on each level, from the node it starts at down to
/// a leaf. Its slots rise strictly and stay inside the subtree, and each is
/// the child that the point moves to from the slot before.
pub proof fn lemma_route_shape(splits: Seq<Split>, x: Seq<u64>, at: int, levels: nat)
    ensures
        route(splits, x, at, levels).len() == levels + 1,
        route(splits, x, at, levels)[0] == at,
        forall|i: int|
            0 <= i <= levels ==> at + i <= #[trigger] route(splits, x, at, levels)[i] < at
                + tree_size(levels),
        forall|i: int, j: int|
            0 <= i < j <= levels ==> route(splits, x, at, levels)[i] < route(
                splits,
                x,
                at,
                levels,
            )[j],
        forall|i: int|
            0 <= i < levels ==> #[trigger] route(splits, x, at, levels)[i + 1] == child(
                splits,
                x,
                route(splits, x, at, levels)[i],
                (levels - i) as nat,
            ),
    decreases levels,
{
    if levels > 0 {
        let below: nat = (levels - 1) as nat;
        let next: int = child(splits, x, at, levels);
        let rest = route(splits, x, next, below);
        lemma_route_shape(splits, x, next, below);
        let whole = route(splits, x, at, levels);
        assert(whole == seq![at] + rest);
        assert forall|i: int| 0 <= i <= levels implies at + i <= #[trigger] whole[i] < at
            + tree_size(levels) by {
            if i > 0 {
                assert(whole[i] == rest[i - 1]);
            }
        }
        assert forall|i: int, j: int| 0 <= i < j <= levels implies whole[i] < whole[j] by {
            assert(whole[j] == rest[j - 1]);
            if i > 0 {
                assert(whole[i] == rest[i - 1]);
            }
        }
        assert forall|i: int| 0 <= i < levels implies #[trigger] whole[i + 1] == child(
            splits,
            x,
            whole[i],
            (levels - i) as nat,
        ) by {
            assert(whole[i + 1] == rest[i]);
            if i > 0 {
                assert(whole[i] == rest[i - 1]);
                assert(rest[(i - 1) + 1] == child(splits, x, rest[i - 1], (below - (i - 1)) as nat));
            }
        }
    }
}

/// The number of nodes of a complete tree of depth `max_depth`, unless it is
/// beyond what the machine can count.
pub fn node_count(max_depth: u32) -> (r: Option<usize>)
    ensures
        match r {
            Some(n) => n == tree_size(max_depth as nat),
            None => tree_size(max_depth as nat) > usize::MAX,
        },
{
    let mut count: usize = 1;
    let mut level: u32 = 0;
    while level < max_depth
        invariant
            level <= max_depth,
            count == tree_size(level as nat),
        decreases max_depth - level,
    {
        if count > (usize::MAX - 1) / 2 {
            proof {
                lemma_tree_size_grows((level + 1) as nat, max_depth as nat);
            }
            return None;
        }
        count = 2 * count + 1;
        level = level + 1;
    }
    Some(count)
}

} // verus!
