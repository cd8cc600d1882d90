//! One half-space tree.

use vstd::prelude::*;
use crate::binary64::{at_most, le, less, lt};
use crate::layout::{child, lemma_route_shape, node_count, route, tree_size, Leaf, Split};
use crate::node::Node;

verus! {

/// Why a tape of draws was turned down.
#[derive(Clone, Copy, Debug, PartialEq, Eq, Structural)]
pub enum DrawError {
    /// The tape does not hold one draw for each node.
    Length,
    /// The draw at this index names no coordinate of the box, or its
    /// threshold lies outside the bounds of the coordinate it names. It is
    /// the first such draw.
    Draw(usize),
}

/// Whether the box has a coordinate and every coordinate has room: its lower
/// bound is below its upper bound.
pub open spec fn proper(bounds: Seq<(u64, u64)>) -> bool {
    &&& bounds.len() > 0
    &&& forall|d: int| 0 <= d < bounds.len() ==> less((#[trigger] bounds[d]).0, bounds[d].1)
}

/// Whether the draw names a coordinate of the box and its threshold lies
/// between the bounds of that coordinate, either bound included: a threshold
/// that is drawn by scaling into the range may be rounded onto its upper
/// bound.
pub open spec fn fits(bounds: Seq<(u64, u64)>, draw: Split) -> bool {
    &&& draw.dim < bounds.len()
    &&& at_most(bounds[draw.dim as int].0, draw.val)
    &&& at_most(draw.val, bounds[draw.dim as int].1)
}

/// Whether each of the first `upto` draws fits the box.
pub open spec fn all_fit(bounds: Seq<(u64, u64)>, draws: Seq<Split>, upto: int) -> bool {
    forall|j: int| 0 <= j < upto ==> fits(bounds, #[trigger] draws[j])
}

/// What a tree is: its depth, the number of coordinates of its points, and
/// its splits in slot order.
pub struct TreeModel {
    pub max_depth: nat,
    pub n_dims: nat,
    pub splits: Seq<Split>,
}

impl TreeModel {
    /// There is one split for each node of a complete tree, and each names a
    /// coordinate.
    pub open spec fn wf(self) -> bool {
        &&& self.n_dims > 0
        &&& self.splits.len() == tree_size(self.max_depth)
        &&& forall|i: int| 0 <= i < self.splits.len() ==> (#[trigger] self.splits[i]).dim < self.n_dims
    }

    /// The walk of `x` from the root to a leaf.
    pub open spec fn walk(self, x: Seq<u64>) -> Seq<int> {
        route(self.splits, x, 0, self.max_depth)
    }

    /// The slots on the walk of `x`: those whose mass an insertion of `x`
    /// raises by one unit.
    pub open spec fn path(self, x: Seq<u64>) -> Seq<usize> {
        self.walk(x).map_values(|slot: int| slot as usize)
    }

    /// The leaf that the walk of `x` ends in: the one whose mass the score
    /// of `x` reads.
    pub open spec fn leaf(self, x: Seq<u64>) -> Leaf {
        Leaf { slot: self.walk(x).last() as usize, depth: self.max_depth as u32 }
    }

    /// An insertion raises the mass of one node on each level and of no
    /// other: the path of a point starts at the root, holds one slot for
    /// each level, each the child that the point moves to from the slot
    /// before, and no slot twice. Every slot lies inside the table of the
    /// tree, and the last one is the leaf that the score reads, at the full
    /// depth of the tree.
    pub proof fn lemma_path(self, x: Seq<u64>)
        requires
            self.wf(),
            self.max_depth <= u32::MAX,
            self.splits.len() <= usize::MAX,
        ensures
            self.path(x).len() == self.max_depth + 1,
            self.path(x)[0] == 0,
            forall|i: int|
                0 <= i <= self.max_depth ==> i <= #[trigger] self.path(x)[i] < self.splits.len(),
            forall|i: int, j: int|
                0 <= i < j <= self.max_depth ==> self.path(x)[i] < self.path(x)[j],
            forall|i: int|
                0 <= i < self.max_depth ==> #[trigger] self.path(x)[i + 1] == child(
                    self.splits,
                    x,
                    self.path(x)[i] as int,
                    (self.max_depth - i) as nat,
                ),
            self.leaf(x).slot == self.path(x).last(),
            self.leaf(x).depth == self.max_depth,
    {
        lemma_route_shape(self.splits, x, 0, self.max_depth);
        let walk = self.walk(x);
        assert forall|i: int| 0 <= i <= self.max_depth implies #[trigger] self.path(x)[i]
            == walk[i] by {}
        assert forall|i: int, j: int| 0 <= i < j <= self.max_depth implies self.path(x)[i]
            < self.path(x)[j] by {
            assert(self.path(x)[i] == walk[i]);
            assert(self.path(x)[j] == walk[j]);
        }
        assert forall|i: int| 0 <= i < self.max_depth implies #[trigger] self.path(x)[i + 1]
            == child(self.splits, x, self.path(x)[i] as int, (self.max_depth - i) as nat) by {
            assert(self.path(x)[i] == walk[i]);
            assert(self.path(x)[i + 1] == walk[i + 1]);
        }
    }
}

/// Tells whether the box is proper.
pub fn is_proper(bounds: &[(u64, u64)]) -> (r: bool)
    ensures
        r == proper(bounds@),
{
    if bounds.len() == 0 {
        return false;
    }
    let mut d: usize = 0;
    while d < bounds.len()
        invariant
            d <= bounds@.len(),
            forall|k: int| 0 <= k < d ==> less((#[trigger] bounds@[k]).0, bounds@[k].1),
        decreases bounds@.len() - d,
    {
        let range: (u64, u64) = bounds[d];
        if !lt(range.0, range.1) {
            return false;
        }
        d = d + 1;
    }
    true
}

/// The index of the first draw that does not fit the box, if there is one.
fn first_misfit(bounds: &[(u64, u64)], draws: &[Split]) -> (r: Option<usize>)
    ensures
        match r {
            None => all_fit(bounds@, draws@, draws@.len() as int),
            Some(i) => i < draws@.len() && !fits(bounds@, draws@[i as int]) && all_fit(
                bounds@,
                draws@,
                i as int,
            ),
        },
{
    let mut i: usize = 0;
    while i < draws.len()
        invariant
            i <= draws@.len(),
            all_fit(bounds@, draws@, i as int),
        decreases draws@.len() - i,
    {
        let draw: Split = draws[i];
        if draw.dim >= bounds.len() {
            return Some(i);
        }
        let range: (u64, u64) = bounds[draw.dim];
        if !(le(range.0, draw.val) && le(draw.val, range.1)) {
            return Some(i);
        }
        i = i + 1;
    }
    None
}

/// A complete binary tree of random axis-aligned splits. Its shape is fixed
/// when it is built.
#[derive(Debug)]
pub struct HalfSpaceTree {
    root: Node,
    max_depth: u32,
    n_dims: usize,
    nodes: usize,
}

impl View for HalfSpaceTree {
    type V = TreeModel;

    closed spec fn view(&self) -> TreeModel {
        TreeModel {
            max_depth: self.max_depth as nat,
            n_dims: self.n_dims as nat,
            splits: self.root.splits(),
        }
    }
}

impl HalfSpaceTree {
    /// The tree is complete down to its depth, its root has slot zero, and
    /// every split names a coordinate.
    pub closed spec fn wf(&self) -> bool {
        &&& self.root.wf(self.max_depth)
        &&& self.root.depth() == 0
        &&& self.root.slot() == 0
        &&& self.nodes == tree_size(self.max_depth as nat)
        &&& self@.wf()
    }

    /// A well-formed tree has a well-formed model, whose numbers fit the
    /// machine's.
    pub proof fn lemma_view_wf(&self)
        requires
            self.wf(),
        ensures
            self@.wf(),
            self@.max_depth <= u32::MAX,
            self@.n_dims <= usize::MAX,
            self@.splits.len() <= usize::MAX,
    {
    }

    /// Builds a tree of depth `max_depth` over the box `bounds` from a tape of
    /// draws. The tape stands for the random source: it holds one draw for
    /// each node, in the order in which the nodes are made, which is slot
    /// order. The tree is built if and only if the tape has that length and
    /// each of its draws fits the box.
    pub fn new(max_depth: u32, bounds: &[(u64, u64)], draws: &[Split]) -> (r: Result<
        HalfSpaceTree,
        DrawError,
    >)
        requires
            proper(bounds@),
        ensures
            match r {
                Ok(tree) => {
                    &&& draws@.len() == tree_size(max_depth as nat)
                    &&& all_fit(bounds@, draws@, draws@.len() as int)
                    &&& tree.wf()
                    &&& tree@ == (TreeModel {
                        max_depth: max_depth as nat,
                        n_dims: bounds@.len(),
                        splits: draws@,
                    })
                },
                Err(DrawError::Length) => draws@.len() != tree_size(max_depth as nat),
                Err(DrawError::Draw(i)) => {
                    &&& draws@.len() == tree_size(max_depth as nat)
                    &&& i < draws@.len()
                    &&& !fits(bounds@, draws@[i as int])
                    &&& all_fit(bounds@, draws@, i as int)
                },
            },
    {
        let given: usize = draws.len();
        let nodes: usize = match node_count(max_depth) {
            Some(n) => n,
            None => {
                return Err(DrawError::Length);
            },
        };
        if given != nodes {
            return Err(DrawError::Length);
        }
        match first_misfit(bounds, draws) {
            Some(i) => {
                return Err(DrawError::Draw(i));
            },
            None => {},
        }
        let mut pos: usize = 0;
        let root = Node::randomized(0, max_depth, draws, &mut pos);
        proof {
            assert(draws@.subrange(0, nodes as int) =~= draws@);
        }
        Ok(HalfSpaceTree { root, max_depth, n_dims: bounds.len(), nodes })
    }

    /// The depth of the leaves.
    pub fn max_depth(&self) -> (r: u32)
        ensures
            r == self@.max_depth,
    {
        self.max_depth
    }

    /// The number of coordinates of a point.
    pub fn n_dims(&self) -> (r: usize)
        ensures
            r == self@.n_dims,
    {
        self.n_dims
    }

    /// The number of nodes, which is the number of slots.
    pub fn node_count(&self) -> (r: usize)
        requires
            self.wf(),
        ensures
            r == tree_size(self@.max_depth),
            r == self@.splits.len(),
    {
        self.nodes
    }

    /// The slots whose mass an insertion of `x` raises by one unit: those of
    /// the nodes on the walk of `x` from the root to a leaf, in that order.
    /// At each inner node the walk goes left if the coordinate of `x` that
    /// the node names is below the threshold, and right otherwise.
    pub fn insert(&self, x: &[u64]) -> (path: Vec<usize>)
        requires
            self.wf(),
            x@.len() == self@.n_dims,
        ensures
            path@ == self@.path(x@),
    {
        let mut path: Vec<usize> = Vec::new();
        proof {
            self.root.lemma_rooted_in_own(self.max_depth);
        }
        self.root.insert(x, &mut path, Ghost(self.max_depth), Ghost(self.root.splits()));
        proof {
            let walk = self@.walk(x@);
            lemma_route_shape(self@.splits, x@, 0, self@.max_depth);
            assert forall|i: int| 0 <= i < path@.len() implies path@[i] == walk[i] as usize by {
                assert(path@[0 + i] == walk[i]);
            }
            assert(path@ =~= self@.path(x@));
        }
        path
    }

    /// The leaf whose mass the score of `x` reads: the one in which the walk
    /// of `x` ends. It lies at the full depth of the tree.
    pub fn score(&self, x: &[u64]) -> (leaf: Leaf)
        requires
            self.wf(),
            x@.len() == self@.n_dims,
        ensures
            leaf == self@.leaf(x@),
    {
        proof {
            self.root.lemma_rooted_in_own(self.max_depth);
        }
        self.root.score(x, Ghost(self.max_depth), Ghost(self.root.splits()))
    }
}

} // verus!
