//! The layout of a complete binary tree in a sequence: the root is at index 0, and every level
//! stands, from left to right, behind the level above it.
use vstd::prelude::*;

verus! {

/// The index of the parent of the node at `index`.
pub open spec fn parent_of(index: int) -> int {
    (index - 1) / 2
}

/// The index of the other child of the parent of the node at `index`.
pub open spec fn sibling_of(index: int) -> int {
    if index % 2 == 1 {
        index + 1
    } else {
        index - 1
    }
}

/// Returns the index of the left child, given an index.
pub fn left_child(index: usize) -> (child: usize)
    requires
        2 * index + 1 <= usize::MAX,
    ensures
        child == 2 * index + 1,
{
    2 * index + 1
}

/// Returns the index of the right child, given an index.
pub fn right_child(index: usize) -> (child: usize)
    requires
        2 * index + 2 <= usize::MAX,
    ensures
        child == 2 * index + 2,
{
    2 * index + 2
}

/// Returns `true` iff the index represents the root.
pub fn is_root(index: usize) -> (root: bool)
    ensures
        root == (index == 0),
{
    index == 0
}

/// Returns `true` iff the given index represents a left child.
pub fn is_left_child(index: usize) -> (left: bool)
    ensures
        left == (index % 2 == 1),
{
    index % 2 == 1
}

/// Returns the index of the sibling, given an index.
pub fn sibling(index: usize) -> (result: Option<usize>)
    requires
        index % 2 == 1 ==> index < usize::MAX,
    ensures
        match result {
            Some(other) => index != 0 && other == sibling_of(index as int),
            None => index == 0,
        },
{
    if is_root(index) {
        None
    } else if is_left_child(index) {
        Some(index + 1)
    } else {
        Some(index - 1)
    }
}

/// Returns the index of the parent, given the index of a child.
pub fn parent(index: usize) -> (result: Option<usize>)
    ensures
        match result {
            Some(above) => index != 0 && above == parent_of(index as int),
            None => index == 0,
        },
{
    if index > 0 {
        let before: usize = index - 1;
        assert(before >> 1 == before / 2) by (bit_vector);
        Some(before >> 1)
    } else {
        None
    }
}

/// The two children of a node are siblings of each other, the left one before the right one, and
/// the node is the parent of both.
pub proof fn law_children_are_siblings(index: int)
    requires
        index >= 0,
    ensures
        parent_of(2 * index + 1) == index,
        parent_of(2 * index + 2) == index,
        sibling_of(2 * index + 1) == 2 * index + 2,
        sibling_of(2 * index + 2) == 2 * index + 1,
{
}

/// Every node but the root is a child of its parent, and so is its sibling; taking the sibling
/// twice leads back.
pub proof fn law_sibling_shares_parent(index: int)
    requires
        index > 0,
    ensures
        index == 2 * parent_of(index) + 1 || index == 2 * parent_of(index) + 2,
        sibling_of(index) != index,
        parent_of(sibling_of(index)) == parent_of(index),
        sibling_of(sibling_of(index)) == index,
{
}

} // verus!
