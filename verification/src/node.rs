//! The nodes of a tree: construction from a tape of draws, and the two walks.

use vstd::prelude::*;
use crate::binary64::lt;
use crate::layout::{child, lemma_route_shape, route, tree_size, Leaf, Split};

verus! {

/// A cell of a tree. An inner node owns both of its children; a leaf has
/// none. The split of a leaf is drawn like any other but never read.
#[derive(Debug)]
pub(crate) struct Node {
    split_dim: usize,
    split_val: u64,
    left: Option<Box<Node>>,
    right: Option<Box<Node>>,
    depth: u32,
    slot: usize,
}

impl Node {
    pub(crate) closed spec fn split(self) -> Split {
        Split { dim: self.split_dim, val: self.split_val }
    }

    pub(crate) closed spec fn depth(self) -> u32 {
        self.depth
    }

    pub(crate) closed spec fn slot(self) -> usize {
        self.slot
    }

    /// The splits of the subtree in pre-order.
    pub(crate) closed spec fn splits(self) -> Seq<Split>
        decreases self,
    {
        seq![self.split()] + Node::splits_of(self.left) + Node::splits_of(self.right)
    }

    pub(crate) closed spec fn splits_of(node: Option<Box<Node>>) -> Seq<Split>
        decreases node,
    {
        match node {
            None => Seq::empty(),
            Some(n) => n.splits(),
        }
    }

    /// The subtree is complete down to `max_depth`, every node records its
    /// depth, and the slots are the pre-order numbers counted from the slot
    /// of this node.
    pub(crate) closed spec fn wf(self, max_depth: u32) -> bool
        decreases self,
    {
        &&& self.depth <= max_depth
        &&& if self.depth == max_depth {
            self.left is None && self.right is None
        } else {
            &&& self.left matches Some(l) && l.depth == self.depth + 1 && l.slot == self.slot + 1
                && l.wf(max_depth)
            &&& self.right matches Some(r) && r.depth == self.depth + 1 && r.slot == self.slot + 1
                + tree_size((max_depth - self.depth - 1) as nat) && r.wf(max_depth)
        }
    }

    /// The splits of the subtree are the stretch of `all` that starts at the
    /// slot of this node.
    pub(crate) closed spec fn rooted_in(self, all: Seq<Split>) -> bool {
        &&& self.slot + self.splits().len() <= all.len()
        &&& all.subrange(self.slot as int, self.slot + self.splits().len()) == self.splits()
    }

    pub(crate) proof fn lemma_size(self, max_depth: u32)
        requires
            self.wf(max_depth),
        ensures
            self.splits().len() == tree_size((max_depth - self.depth()) as nat),
        decreases self,
    {
        if self.depth < max_depth {
            self.left->0.lemma_size(max_depth);
            self.right->0.lemma_size(max_depth);
        }
    }

    pub(crate) proof fn lemma_rooted_in_own(self, max_depth: u32)
        requires
            self.wf(max_depth),
            self.slot() == 0,
        ensures
            self.rooted_in(self.splits()),
    {
        assert(self.splits().subrange(0, self.splits().len() as int) =~= self.splits());
    }

    proof fn lemma_children_rooted(self, max_depth: u32, all: Seq<Split>)
        requires
            self.wf(max_depth),
            self.rooted_in(all),
        ensures
            all[self.slot as int] == self.split(),
            self.depth < max_depth ==> self.left->0.rooted_in(all) && self.right->0.rooted_in(all),
    {
        let own = self.splits();
        let at: int = self.slot as int;
        assert(all.subrange(at, at + own.len())[0] == own[0]);
        if self.depth < max_depth {
            let l = self.left->0;
            let r = self.right->0;
            self.lemma_size(max_depth);
            l.lemma_size(max_depth);
            r.lemma_size(max_depth);
            let n: int = l.splits().len() as int;
            assert(own =~= seq![self.split()] + l.splits() + r.splits());
            assert(all.subrange(at + 1, at + 1 + n) =~= l.splits()) by {
                assert forall|i: int| 0 <= i < n implies all.subrange(at + 1, at + 1 + n)[i]
                    == l.splits()[i] by {
                    assert(all.subrange(at, at + own.len())[i + 1] == own[i + 1]);
                }
            }
            assert(all.subrange(at + 1 + n, at + 1 + n + n) =~= r.splits()) by {
                assert forall|i: int| 0 <= i < n implies all.subrange(at + 1 + n, at + 1 + n + n)[i]
                    == r.splits()[i] by {
                    assert(all.subrange(at, at + own.len())[i + 1 + n] == own[i + 1 + n]);
                }
            }
        }
    }

    /// Builds the subtree whose root lies at `depth`, complete down to
    /// `max_depth`. Each node takes the next draw of the tape when it is
    /// made, before its children are: the node, then its left subtree, then
    /// its right subtree.
    pub(crate) fn randomized(depth: u32, max_depth: u32, tape: &[Split], pos: &mut usize) -> (node:
        Node)
        requires
            depth <= max_depth,
            *old(pos) + tree_size((max_depth - depth) as nat) <= tape@.len(),
        ensures
            *final(pos) == *old(pos) + tree_size((max_depth - depth) as nat),
            node.wf(max_depth),
            node.depth() == depth,
            node.slot() == *old(pos),
            node.splits() == tape@.subrange(*old(pos) as int, *final(pos) as int),
        decreases max_depth - depth,
    {
        let slot: usize = *pos;
        let draw: Split = tape[slot];
        *pos = slot + 1;
        if depth == max_depth {
            let leaf = Node {
                split_dim: draw.dim,
                split_val: draw.val,
                left: None,
                right: None,
                depth,
                slot,
            };
            assert(leaf.splits() =~= tape@.subrange(slot as int, slot + 1));
            return leaf;
        }
        let ghost mid: int = *pos + tree_size((max_depth - depth - 1) as nat);
        let left = Box::new(Node::randomized(depth + 1, max_depth, tape, pos));
        let right = Box::new(Node::randomized(depth + 1, max_depth, tape, pos));
        let node = Node {
            split_dim: draw.dim,
            split_val: draw.val,
            left: Some(left),
            right: Some(right),
            depth,
            slot,
        };
        assert(node.splits() =~= tape@.subrange(slot as int, *pos as int)) by {
            assert(node.splits() == seq![draw] + left.splits() + right.splits());
            assert(left.splits() == tape@.subrange(slot + 1, mid));
            assert(right.splits() == tape@.subrange(mid, *pos as int));
        }
        node
    }

    /// Appends to `path` the slots that `x` visits from this node down to a
    /// leaf: this node, then the walk from the left child if the coordinate
    /// of `x` is below the threshold, from the right child otherwise.
    pub(crate) fn insert(
        &self,
        x: &[u64],
        path: &mut Vec<usize>,
        Ghost(max_depth): Ghost<u32>,
        Ghost(all): Ghost<Seq<Split>>,
    )
        requires
            self.wf(max_depth),
            self.rooted_in(all),
            forall|i: int| 0 <= i < all.len() ==> (#[trigger] all[i]).dim < x@.len(),
        ensures
            final(path)@.len() == old(path)@.len() + (max_depth - self.depth()) + 1,
            forall|i: int| 0 <= i < old(path)@.len() ==> final(path)@[i] == old(path)@[i],
            forall|i: int|
                0 <= i <= max_depth - self.depth() ==> #[trigger] final(path)@[old(path)@.len() + i]
                    == route(all, x@, self.slot() as int, (max_depth - self.depth()) as nat)[i],
        decreases self,
    {
        proof {
            self.lemma_children_rooted(max_depth, all);
        }
        path.push(self.slot);
        match (&self.left, &self.right) {
            (Some(l), Some(r)) => {
                let ghost start: int = old(path)@.len() as int;
                let ghost levels: nat = (max_depth - self.depth) as nat;
                let ghost whole = route(all, x@, self.slot as int, levels);
                let ghost next: int = child(all, x@, self.slot as int, levels);
                let ghost rest = route(all, x@, next, (levels - 1) as nat);
                if lt(x[self.split_dim], self.split_val) {
                    assert(next == l.slot);
                    l.insert(x, path, Ghost(max_depth), Ghost(all));
                } else {
                    assert(next == r.slot);
                    r.insert(x, path, Ghost(max_depth), Ghost(all));
                }
                proof {
                    lemma_route_shape(all, x@, next, (levels - 1) as nat);
                    assert(whole == seq![self.slot as int] + rest);
                    assert forall|i: int| 0 <= i <= levels implies #[trigger] path@[start + i]
                        == whole[i] by {
                        if i > 0 {
                            assert(path@[(start + 1) + (i - 1)] == rest[i - 1]);
                        }
                    }
                }
            },
            _ => {},
        }
    }

    /// Walks `x` from this node down to a leaf, by the rule of `insert`, and
    /// reports the leaf.
    pub(crate) fn score(
        &self,
        x: &[u64],
        Ghost(max_depth): Ghost<u32>,
        Ghost(all): Ghost<Seq<Split>>,
    ) -> (leaf: Leaf)
        requires
            self.wf(max_depth),
            self.rooted_in(all),
            forall|i: int| 0 <= i < all.len() ==> (#[trigger] all[i]).dim < x@.len(),
        ensures
            leaf.slot == route(
                all,
                x@,
                self.slot() as int,
                (max_depth - self.depth()) as nat,
            ).last(),
            leaf.depth == max_depth,
    {
        let mut node: &Node = self;
        loop
            invariant
                node.wf(max_depth),
                node.rooted_in(all),
                forall|i: int| 0 <= i < all.len() ==> (#[trigger] all[i]).dim < x@.len(),
                route(all, x@, self.slot as int, (max_depth - self.depth) as nat).last() == route(
                    all,
                    x@,
                    node.slot as int,
                    (max_depth - node.depth) as nat,
                ).last(),
            ensures
                node.depth == max_depth,
                node.slot == route(all, x@, self.slot as int, (max_depth - self.depth) as nat).last(),
            decreases max_depth - node.depth,
        {
            proof {
                node.lemma_children_rooted(max_depth, all);
            }
            match (&node.left, &node.right) {
                (Some(l), Some(r)) => {
                    let ghost here: int = node.slot as int;
                    let ghost levels: nat = (max_depth - node.depth) as nat;
                    proof {
                        let next: int = child(all, x@, here, levels);
                        let rest = route(all, x@, next, (levels - 1) as nat);
                        lemma_route_shape(all, x@, next, (levels - 1) as nat);
                        assert(route(all, x@, here, levels) == seq![here] + rest);
                        assert((seq![here] + rest).last() == rest.last());
                    }
                    node =
                    if lt(x[node.split_dim], node.split_val) {
                        l
                    } else {
                        r
                    };
                },
                _ => break ,
            }
        }
        Leaf { slot: node.slot, depth: node.depth }
    }
}

} // verus!
