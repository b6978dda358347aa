//! The spatial index of the placed nodes, kept in an R-tree of the `rstar`
//! crate. The tree holds the bounding box of every placed node.

use vstd::prelude::*;
use vstd::multiset::Multiset;
use rstar::primitives::Rectangle;
use rstar::RTree;

verus! {

/// Largest absolute coordinate of a box that the tree takes. The tree
/// computes with 64-bit numbers: centres, squared distances of centres,
/// areas, and sums of up to seven areas. With every coordinate within this
/// limit none of them leaves the range of `i64`.
pub const TREE_LIMIT: i32 = 0x2000_0000;

/// An `rstar::RTree` of rectangles with whole-number corners. Nothing is
/// known of its inside; what it holds goes by the name `tree_boxes`.
#[verifier::external_body]
pub struct NodeTree {
    tree: RTree<Rectangle<[i64; 2]>>,
}

/// The boxes that a tree holds, each as `(left, top, right, bottom)` and as
/// often as it was inserted and not removed.
pub uninterp spec fn tree_boxes(tree: NodeTree) -> Multiset<(i32, i32, i32, i32)>;

/// All four coordinates of the box lie within `TREE_LIMIT` of zero.
pub open spec fn box_in_range(b: (i32, i32, i32, i32)) -> bool {
    &&& -TREE_LIMIT <= b.0 <= TREE_LIMIT
    &&& -TREE_LIMIT <= b.1 <= TREE_LIMIT
    &&& -TREE_LIMIT <= b.2 <= TREE_LIMIT
    &&& -TREE_LIMIT <= b.3 <= TREE_LIMIT
}

/// Every box that the tree holds lies within `TREE_LIMIT`.
pub open spec fn boxes_in_range(boxes: Multiset<(i32, i32, i32, i32)>) -> bool {
    forall|b: (i32, i32, i32, i32)| boxes.count(b) > 0 ==> box_in_range(b)
}

/// Calls `RTree::new`: a tree that holds nothing.
#[verifier::external_body]
pub(crate) fn tree_new() -> (tree: NodeTree)
    ensures
        tree_boxes(tree) == Multiset::<(i32, i32, i32, i32)>::empty(),
{
    NodeTree { tree: RTree::new() }
}

/// Calls `RTree::insert` with the rectangle between the two corners: the
/// tree then holds the box once more than before. The insertion computes
/// with the coordinates of the new box and of the boxes held; they are
/// asked to lie within `TREE_LIMIT`, where that arithmetic cannot overflow.
#[verifier::external_body]
pub(crate) fn tree_insert(tree: &mut NodeTree, left: i32, top: i32, right: i32, bottom: i32)
    requires
        left <= right,
        top <= bottom,
        box_in_range((left, top, right, bottom)),
        boxes_in_range(tree_boxes(*old(tree))),
    ensures
        tree_boxes(*final(tree)) == tree_boxes(*old(tree)).insert((left, top, right, bottom)),
{
    let lower = [left as i64, top as i64];
    let upper = [right as i64, bottom as i64];
    tree.tree.insert(Rectangle::from_corners(lower, upper));
}

/// Calls `RTree::remove` with the rectangle between the two corners. One
/// rectangle equal to it leaves the tree, if the tree holds one; the result
/// says whether it did.
#[verifier::external_body]
pub(crate) fn tree_remove(tree: &mut NodeTree, left: i32, top: i32, right: i32, bottom: i32) -> (removed:
    bool)
    requires
        left <= right,
        top <= bottom,
    ensures
        removed == (tree_boxes(*old(tree)).count((left, top, right, bottom)) > 0),
        tree_boxes(*final(tree)) == tree_boxes(*old(tree)).remove((left, top, right, bottom)),
{
    let lower = [left as i64, top as i64];
    let upper = [right as i64, bottom as i64];
    tree.tree.remove(&Rectangle::from_corners(lower, upper)).is_some()
}

/// Calls `RTree::size`: the number of boxes that the tree holds.
#[verifier::external_body]
pub(crate) fn tree_size(tree: &NodeTree) -> (n: usize)
    ensures
        n == tree_boxes(*tree).len(),
{
    tree.tree.size()
}

} // verus!
