//! A forest of half-space trees over one box.

use vstd::prelude::*;
use crate::layout::{node_count, tree_size, Leaf, Split};
use crate::tree::{all_fit, fits, proper, DrawError, HalfSpaceTree, TreeModel};

verus! {

/// The stretch of a forest's tape that the tree with the given index is
/// built from.
pub open spec fn share(draws: Seq<Split>, max_depth: nat, index: int) -> Seq<Split> {
    draws.subrange(index * tree_size(max_depth), (index + 1) * tree_size(max_depth))
}

/// The forest that a tape of draws gives: the trees take their draws one
/// after the other from the tape.
pub open spec fn forest_of(n_trees: nat, max_depth: nat, n_dims: nat, draws: Seq<Split>) -> Seq<
    TreeModel,
> {
    Seq::new(
        n_trees,
        |index: int| TreeModel { max_depth, n_dims, splits: share(draws, max_depth, index) },
    )
}

/// For each tree, the slots on the walk of `x`.
pub open spec fn paths_of(trees: Seq<TreeModel>, x: Seq<u64>) -> Seq<Seq<usize>> {
    Seq::new(trees.len(), |index: int| trees[index].path(x))
}

/// For each tree, the leaf in which the walk of `x` ends.
pub open spec fn leaves_of(trees: Seq<TreeModel>, x: Seq<u64>) -> Seq<Leaf> {
    Seq::new(trees.len(), |index: int| trees[index].leaf(x))
}

/// Whether `x` has the number of coordinates that each tree takes.
pub open spec fn suits(trees: Seq<TreeModel>, x: Seq<u64>) -> bool {
    forall|index: int| 0 <= index < trees.len() ==> x.len() == (#[trigger] trees[index]).n_dims
}

/// Building is a function of the tape: forests that the same tape gives are
/// the same forest, and they answer every point alike, whatever was asked of
/// them before.
pub proof fn lemma_same_tape_same_answers(
    a: Seq<TreeModel>,
    b: Seq<TreeModel>,
    n_trees: nat,
    max_depth: nat,
    n_dims: nat,
    draws: Seq<Split>,
    x: Seq<u64>,
)
    requires
        a == forest_of(n_trees, max_depth, n_dims, draws),
        b == forest_of(n_trees, max_depth, n_dims, draws),
    ensures
        a == b,
        paths_of(a, x) == paths_of(b, x),
        leaves_of(a, x) == leaves_of(b, x),
{
}

/// A forest of one tree is the tree that the same tape gives, and it answers
/// as that tree does.
pub proof fn lemma_single_tree(max_depth: nat, n_dims: nat, draws: Seq<Split>, x: Seq<u64>)
    requires
        draws.len() == tree_size(max_depth),
    ensures
        forest_of(1, max_depth, n_dims, draws) == seq![
            TreeModel { max_depth, n_dims, splits: draws },
        ],
        paths_of(forest_of(1, max_depth, n_dims, draws), x) == seq![
            (TreeModel { max_depth, n_dims, splits: draws }).path(x),
        ],
        leaves_of(forest_of(1, max_depth, n_dims, draws), x) == seq![
            (TreeModel { max_depth, n_dims, splits: draws }).leaf(x),
        ],
{
    let forest = forest_of(1, max_depth, n_dims, draws);
    let tree = TreeModel { max_depth, n_dims, splits: draws };
    assert(share(draws, max_depth, 0) =~= draws);
    assert(forest =~= seq![tree]);
    assert(paths_of(forest, x) =~= seq![tree.path(x)]);
    assert(leaves_of(forest, x) =~= seq![tree.leaf(x)]);
}

/// An ordered collection of trees built over the same box, each from its own
/// draws. The number of trees is fixed when the forest is built.
#[derive(Debug)]
pub struct HalfSpaceTrees {
    trees: Vec<HalfSpaceTree>,
}

impl View for HalfSpaceTrees {
    type V = Seq<TreeModel>;

    closed spec fn view(&self) -> Seq<TreeModel> {
        Seq::new(self.trees@.len(), |index: int| self.trees@[index]@)
    }
}

impl HalfSpaceTrees {
    /// Every tree of the forest is well-formed.
    pub closed spec fn wf(&self) -> bool {
        forall|index: int| 0 <= index < self.trees@.len() ==> (#[trigger] self.trees@[index]).wf()
    }

    /// Each tree of a well-formed forest has a well-formed model.
    pub proof fn lemma_view_wf(&self)
        requires
            self.wf(),
        ensures
            forall|index: int| 0 <= index < self@.len() ==> (#[trigger] self@[index]).wf(),
    {
        assert forall|index: int| 0 <= index < self@.len() implies (#[trigger] self@[index]).wf() by {
            self.trees@[index].lemma_view_wf();
        }
    }

    /// Builds a forest of `n_trees` trees of depth `max_depth` over the box
    /// `bounds`. The tape stands for the random source: the trees are built
    /// one after the other, each from the next draws of the tape, one draw
    /// for each of its nodes. The forest is built if and only if the tape
    /// holds exactly the draws of all the trees and each draw fits the box.
    pub fn new(n_trees: usize, max_depth: u32, bounds: &[(u64, u64)], draws: &[Split]) -> (r:
        Result<HalfSpaceTrees, DrawError>)
        requires
            proper(bounds@),
        ensures
            match r {
                Ok(forest) => {
                    &&& draws@.len() == n_trees * tree_size(max_depth as nat)
                    &&& all_fit(bounds@, draws@, draws@.len() as int)
                    &&& forest.wf()
                    &&& forest@ == forest_of(
                        n_trees as nat,
                        max_depth as nat,
                        bounds@.len(),
                        draws@,
                    )
                },
                Err(DrawError::Length) => draws@.len() != n_trees * tree_size(max_depth as nat),
                Err(DrawError::Draw(i)) => {
                    &&& draws@.len() == n_trees * tree_size(max_depth as nat)
                    &&& i < draws@.len()
                    &&& !fits(bounds@, draws@[i as int])
                    &&& all_fit(bounds@, draws@, i as int)
                },
            },
    {
        let given: usize = draws.len();
        let mut trees: Vec<HalfSpaceTree> = Vec::new();
        if n_trees == 0 {
            if given != 0 {
                return Err(DrawError::Length);
            }
            let forest = HalfSpaceTrees { trees };
            assert(forest@ =~= forest_of(0, max_depth as nat, bounds@.len(), draws@));
            return Ok(forest);
        }
        let ghost size: nat = tree_size(max_depth as nat);
        let nodes: usize = match node_count(max_depth) {
            Some(n) => n,
            None => {
                assert(n_trees * size >= size) by (nonlinear_arith)
                    requires
                        n_trees >= 1,
                ;
                return Err(DrawError::Length);
            },
        };
        let total: usize = match n_trees.checked_mul(nodes) {
            Some(t) => t,
            None => {
                return Err(DrawError::Length);
            },
        };
        if given != total {
            return Err(DrawError::Length);
        }
        let mut built: usize = 0;
        let mut start: usize = 0;
        while built < n_trees
            invariant
                proper(bounds@),
                nodes == size,
                size == tree_size(max_depth as nat),
                draws@.len() == n_trees * size,
                n_trees * size <= usize::MAX,
                built <= n_trees,
                start == built * size,
                all_fit(bounds@, draws@, start as int),
                trees@.len() == built,
                forall|index: int|
                    0 <= index < built ==> {
                        &&& (#[trigger] trees@[index]).wf()
                        &&& trees@[index]@ == (TreeModel {
                            max_depth: max_depth as nat,
                            n_dims: bounds@.len(),
                            splits: share(draws@, max_depth as nat, index),
                        })
                    },
            decreases n_trees - built,
        {
            assert((built + 1) * size == built * size + size) by (nonlinear_arith);
            assert((built + 1) * size <= n_trees * size) by (nonlinear_arith)
                requires
                    built + 1 <= n_trees,
            ;
            let end: usize = start + nodes;
            let chunk: &[Split] = &draws[start..end];
            assert forall|j: int| 0 <= j < chunk@.len() implies #[trigger] chunk@[j] == draws@[start
                + j] by {}
            match HalfSpaceTree::new(max_depth, bounds, chunk) {
                Ok(tree) => {
                    assert(all_fit(bounds@, draws@, end as int)) by {
                        assert forall|j: int| 0 <= j < end implies fits(
                            bounds@,
                            #[trigger] draws@[j],
                        ) by {
                            if j >= start {
                                assert(fits(bounds@, chunk@[j - start]));
                            }
                        }
                    }
                    trees.push(tree);
                },
                Err(DrawError::Draw(i)) => {
                    assert(all_fit(bounds@, draws@, start + i)) by {
                        assert forall|j: int| 0 <= j < start + i implies fits(
                            bounds@,
                            #[trigger] draws@[j],
                        ) by {
                            if j >= start {
                                assert(fits(bounds@, chunk@[j - start]));
                            }
                        }
                    }
                    assert(chunk@[i as int] == draws@[start + i]);
                    return Err(DrawError::Draw(start + i));
                },
                Err(DrawError::Length) => {
                    assert(false);
                    return Err(DrawError::Length);
                },
            }
            built = built + 1;
            start = end;
        }
        let forest = HalfSpaceTrees { trees };
        assert(forest@ =~= forest_of(n_trees as nat, max_depth as nat, bounds@.len(), draws@));
        Ok(forest)
    }

    /// The number of trees.
    pub fn n_trees(&self) -> (r: usize)
        ensures
            r == self@.len(),
    {
        self.trees.len()
    }

    /// The tree with the given index.
    pub fn tree(&self, index: usize) -> (tree: &HalfSpaceTree)
        requires
            self.wf(),
            index < self@.len(),
        ensures
            tree.wf(),
            tree@ == self@[index as int],
    {
        &self.trees[index]
    }

    /// For each tree, in order, the slots whose mass an insertion of `x`
    /// raises by one unit: those on the walk of `x` through that tree.
    pub fn insert(&self, x: &[u64]) -> (paths: Vec<Vec<usize>>)
        requires
            self.wf(),
            suits(self@, x@),
        ensures
            paths@.len() == self@.len(),
            forall|index: int|
                0 <= index < self@.len() ==> (#[trigger] paths@[index])@ == self@[index].path(x@),
            paths.deep_view() == paths_of(self@, x@),
    {
        let mut paths: Vec<Vec<usize>> = Vec::new();
        let mut index: usize = 0;
        while index < self.trees.len()
            invariant
                self.wf(),
                suits(self@, x@),
                index <= self.trees@.len(),
                paths@.len() == index,
                forall|k: int| 0 <= k < index ==> (#[trigger] paths@[k])@ == self@[k].path(x@),
            decreases self.trees@.len() - index,
        {
            let tree: &HalfSpaceTree = &self.trees[index];
            assert(tree@ == self@[index as int]);
            let path: Vec<usize> = tree.insert(x);
            paths.push(path);
            index = index + 1;
        }
        assert(paths.deep_view() =~= paths_of(self@, x@)) by {
            assert forall|k: int| 0 <= k < paths@.len() implies #[trigger] paths.deep_view()[k]
                == self@[k].path(x@) by {
                assert(paths@[k].deep_view() =~= paths@[k]@);
            }
        }
        paths
    }

    /// For each tree, in order, the leaf whose mass the score of `x` reads:
    /// the one in which the walk of `x` through that tree ends.
    pub fn score(&self, x: &[u64]) -> (leaves: Vec<Leaf>)
        requires
            self.wf(),
            suits(self@, x@),
        ensures
            leaves@ == leaves_of(self@, x@),
    {
        let mut leaves: Vec<Leaf> = Vec::new();
        let mut index: usize = 0;
        while index < self.trees.len()
            invariant
                self.wf(),
                suits(self@, x@),
                index <= self.trees@.len(),
                leaves@.len() == index,
                forall|k: int| 0 <= k < index ==> #[trigger] leaves@[k] == self@[k].leaf(x@),
            decreases self.trees@.len() - index,
        {
            let tree: &HalfSpaceTree = &self.trees[index];
            assert(tree@ == self@[index as int]);
            let leaf: Leaf = tree.score(x);
            leaves.push(leaf);
            index = index + 1;
        }
        assert(leaves@ =~= leaves_of(self@, x@));
        leaves
    }
}

} // verus!
