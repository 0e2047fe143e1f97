//! Tree builder and predictor: greedy recursive partitioning with stopping
//! rules, and traversal of the resulting binary tree. A node is either a
//! leaf carrying a prediction or an internal node carrying a column index, a
//! threshold value and exactly two children, so no partial node states
//! exist.

use vstd::prelude::*;

use crate::dataset::Dataset;
use crate::dataset::MAX_ROWS;
use crate::dataset::valid_subset;
use crate::dataset::views_of;
use crate::impurity::all_same_class;
use crate::impurity::all_same_spec;
use crate::impurity::majority_class;
use crate::impurity::majority_of;
use crate::split::SplitSpec;
use crate::split::best_split;
use crate::split::find_best_split;
use crate::split::good_cand;
use crate::split::lemma_best_split_props;
use crate::split::lemma_split_within;
use crate::split::split_of;

verus! {

/// A decision-tree node: a leaf with a final prediction, or an internal
/// node testing one feature column for equality against a threshold value,
/// with the "equals" subtree on the left and the "differs" subtree on the
/// right.
#[derive(Debug, PartialEq)]
pub enum Node {
    /// A leaf carrying the predicted class label.
    Leaf { prediction: String },
    /// An internal decision node with its two subtrees.
    Internal { feature_index: usize, threshold: String, left: Box<Node>, right: Box<Node> },
}

/// The sentinel label predicted when there is no data to vote on.
pub open spec fn unknown_label() -> Seq<char> {
    "UNKNOWN"@
}

/// A stopping rule fires: empty subset, unanimous labels, depth exhausted,
/// or no usable split exists.
pub open spec fn stops(d: Dataset, s: Seq<usize>, depth: int, max_depth: int) -> bool {
    s.len() == 0 || all_same_spec(d, s) || depth >= max_depth || best_split(d, s) is None
}

/// The label a leaf grown over `s` carries: the majority label, or the
/// sentinel for an empty subset.
pub open spec fn leaf_label(d: Dataset, s: Seq<usize>) -> Seq<char> {
    if s.len() == 0 {
        unknown_label()
    } else {
        majority_of(d, s)
    }
}

/// `n` is the tree the builder grows over subset `s` at `depth` with the
/// given depth bound: a leaf labelled by `leaf_label` where a stopping rule
/// fires, else an internal node on the best split with both subtrees built
/// over its two sides.
pub open spec fn is_build_of(d: Dataset, s: Seq<usize>, depth: int, max_depth: int, n: Node) -> bool
    decreases n,
{
    match n {
        Node::Leaf { prediction } => stops(d, s, depth, max_depth) && prediction@ == leaf_label(
            d,
            s,
        ),
        Node::Internal { feature_index, threshold, left, right } => {
            &&& !stops(d, s, depth, max_depth)
            &&& (match best_split(d, s) {
                Some(c) => {
                    &&& feature_index as int == c.feature
                    &&& threshold@ == c.value
                    &&& is_build_of(d, c.left, depth + 1, max_depth, *left)
                    &&& is_build_of(d, c.right, depth + 1, max_depth, *right)
                },
                None => false,
            })
        },
    }
}

/// Height of a tree: zero for a leaf.
pub open spec fn height(n: Node) -> int
    decreases n,
{
    match n {
        Node::Leaf { .. } => 0,
        Node::Internal { left, right, .. } => 1 + if height(*left) >= height(*right) {
            height(*left)
        } else {
            height(*right)
        },
    }
}

/// Every internal node of `n` tests a column below `width`.
pub open spec fn fits(n: Node, width: int) -> bool
    decreases n,
{
    match n {
        Node::Leaf { .. } => true,
        Node::Internal { feature_index, left, right, .. } => feature_index < width && fits(
            *left,
            width,
        ) && fits(*right, width),
    }
}

/// The label the tree routes a feature row to: at an internal node the
/// "equals" subtree is taken exactly when the tested column equals the
/// threshold.
pub open spec fn predict_spec(n: Node, row: Seq<Seq<char>>) -> Seq<char>
    decreases n,
{
    match n {
        Node::Leaf { prediction } => prediction@,
        Node::Internal { feature_index, threshold, left, right } => {
            if row[feature_index as int] == threshold@ {
                predict_spec(*left, row)
            } else {
                predict_spec(*right, row)
            }
        },
    }
}

/// Two trees have the same structure, splits and labels.
pub open spec fn same_tree(a: Node, b: Node) -> bool
    decreases a,
{
    match (a, b) {
        (Node::Leaf { prediction: p1 }, Node::Leaf { prediction: p2 }) => p1@ == p2@,
        (
            Node::Internal { feature_index: f1, threshold: t1, left: l1, right: r1 },
            Node::Internal { feature_index: f2, threshold: t2, left: l2, right: r2 },
        ) => f1 == f2 && t1@ == t2@ && same_tree(*l1, *l2) && same_tree(*r1, *r2),
        _ => false,
    }
}

/// Grow the decision tree over the rows selected by `row_indices`.
/// Stopping rules, checked in order: empty subset (sentinel leaf),
/// unanimous labels, `depth >= max_depth`, and no usable split (majority
/// leaves). Otherwise the subset is partitioned by the best split and both
/// sides are grown one level deeper.
pub fn build_tree(dataset: &Dataset, row_indices: &Vec<usize>, depth: usize, max_depth: usize) -> (r:
    Node)
    requires
        dataset.wf(),
        valid_subset(*dataset, row_indices@),
        row_indices@.len() <= MAX_ROWS,
    ensures
        is_build_of(*dataset, row_indices@, depth as int, max_depth as int, r),
    decreases max_depth - depth,
{
    let ghost s = row_indices@;
    if row_indices.len() == 0 {
        let prediction = "UNKNOWN".to_owned();
        return Node::Leaf { prediction };
    }
    if all_same_class(dataset, row_indices) || depth >= max_depth {
        let prediction = majority_class(dataset, row_indices);
        return Node::Leaf { prediction };
    }
    match find_best_split(dataset, row_indices) {
        None => {
            let prediction = majority_class(dataset, row_indices);
            Node::Leaf { prediction }
        },
        Some((feature_index, threshold, left_rows, right_rows)) => {
            let ghost c = SplitSpec {
                feature: feature_index as int,
                value: threshold@,
                left: left_rows@,
                right: right_rows@,
            };
            proof {
                assert(good_cand(*dataset, s, c));
                assert(best_split(*dataset, s) == Some(c));
                lemma_split_within(*dataset, s, c.feature, c.value);
            }
            let left = build_tree(dataset, &left_rows, depth + 1, max_depth);
            let right = build_tree(dataset, &right_rows, depth + 1, max_depth);
            Node::Internal {
                feature_index,
                threshold,
                left: Box::new(left),
                right: Box::new(right),
            }
        },
    }
}

impl Node {
    /// Route a feature row through the tree and return the label of the
    /// leaf it reaches. The row must be wide enough for every column the
    /// tree tests.
    pub fn predict(&self, features: &Vec<String>) -> (r: String)
        requires
            fits(*self, features@.len() as int),
        ensures
            r@ == predict_spec(*self, views_of(features@)),
        decreases *self,
    {
        match self {
            Node::Leaf { prediction } => prediction.clone(),
            Node::Internal { feature_index, threshold, left, right } => {
                let fi = *feature_index;
                proof {
                    assert(views_of(features@)[fi as int] == features@[fi as int]@);
                }
                if features[fi] == *threshold {
                    left.predict(features)
                } else {
                    right.predict(features)
                }
            },
        }
    }

    /// Whether every internal node tests a column below `width`, so that a
    /// row of that width can be routed safely.
    pub fn fits_width(&self, width: usize) -> (b: bool)
        ensures
            b == fits(*self, width as int),
        decreases *self,
    {
        match self {
            Node::Leaf { .. } => true,
            Node::Internal { feature_index, left, right, .. } => {
                *feature_index < width && left.fits_width(width) && right.fits_width(width)
            },
        }
    }
}

/// Leaf totality and depth bound: a built tree never exceeds the remaining
/// depth budget, and once the budget is spent it is a single leaf. Every
/// leaf carries a prediction by construction of `Node`.
pub proof fn lemma_build_height(d: Dataset, s: Seq<usize>, depth: int, max_depth: int, n: Node)
    requires
        is_build_of(d, s, depth, max_depth, n),
    ensures
        0 <= height(n),
        depth < max_depth ==> height(n) <= max_depth - depth,
        depth >= max_depth ==> n is Leaf,
    decreases n,
{
    match n {
        Node::Leaf { .. } => {},
        Node::Internal { left, right, .. } => {
            match best_split(d, s) {
                Some(c) => {
                    lemma_build_height(d, c.left, depth + 1, max_depth, *left);
                    lemma_build_height(d, c.right, depth + 1, max_depth, *right);
                },
                None => {
                    assert(false);
                },
            }
        },
    }
}

/// A built tree only tests columns of its dataset, so any row with
/// `num_features` entries can be routed through it.
pub proof fn lemma_build_fits(d: Dataset, s: Seq<usize>, depth: int, max_depth: int, n: Node)
    requires
        is_build_of(d, s, depth, max_depth, n),
    ensures
        fits(n, d.num_features as int),
    decreases n,
{
    match n {
        Node::Leaf { .. } => {},
        Node::Internal { left, right, .. } => {
            match best_split(d, s) {
                Some(c) => {
                    lemma_best_split_props(d, s);
                    lemma_build_fits(d, c.left, depth + 1, max_depth, *left);
                    lemma_build_fits(d, c.right, depth + 1, max_depth, *right);
                },
                None => {
                    assert(false);
                },
            }
        },
    }
}

/// Build determinism: any two trees built from the same dataset, subset and
/// depth budget are structurally identical, with the same splits and the
/// same leaf labels.
pub proof fn lemma_build_deterministic(
    d: Dataset,
    s: Seq<usize>,
    depth: int,
    max_depth: int,
    a: Node,
    b: Node,
)
    requires
        is_build_of(d, s, depth, max_depth, a),
        is_build_of(d, s, depth, max_depth, b),
    ensures
        same_tree(a, b),
    decreases a,
{
    match (a, b) {
        (Node::Leaf { .. }, Node::Leaf { .. }) => {},
        (
            Node::Internal { left: l1, right: r1, .. },
            Node::Internal { left: l2, right: r2, .. },
        ) => {
            match best_split(d, s) {
                Some(c) => {
                    lemma_build_deterministic(d, c.left, depth + 1, max_depth, *l1, *l2);
                    lemma_build_deterministic(d, c.right, depth + 1, max_depth, *r1, *r2);
                },
                None => {
                    assert(false);
                },
            }
        },
        _ => {
            assert(false);
        },
    }
}

/// Prediction determinism: the label a tree assigns is a function of the
/// tree and the feature row alone, so repeated calls agree.
pub proof fn lemma_predict_deterministic(
    n: Node,
    row: Seq<Seq<char>>,
    r1: Seq<char>,
    r2: Seq<char>,
)
    requires
        r1 == predict_spec(n, row),
        r2 == predict_spec(n, row),
    ensures
        r1 == r2,
{
}

} // verus!
