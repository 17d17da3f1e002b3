//! What the nodes, the root and the paths of a Merkle tree are, as functions of its leaf hashes.
//!
//! A row of `w` leaf hashes, where `w` is a power of two, carries a tree of `2 * w - 1` nodes, which
//! are numbered from the root on, level by level. The leaf hash `j` is the node `w - 1 + j`.
use crate::hash::{Outcome, PathFunction};
use crate::index::{parent_of, sibling_of};
use crate::parallel::PARALLEL_THRESHOLD;
use crate::size::{height, lemma_half_of_power, width};
use vstd::arithmetic::power2::{is_pow2, lemma2_to64, lemma_pow2_pos, lemma_pow2_unfold, pow2};
use vstd::prelude::*;

verus! {

/// The hash of two children, where both are there and their hash is.
pub open spec fn hash_pair<H>(function: PathFunction<H>, left: Option<H>, right: Option<H>) -> Option<
    H,
> {
    match (left, right) {
        (Some(l), Some(r)) => match function(l, r) {
            Ok(hash) => Some(hash),
            Err(_) => None,
        },
        _ => None,
    }
}

/// The node at `index` of the tree over a row of leaf hashes, or `None` where the hashes that it
/// is made of cannot be computed.
pub open spec fn node<H>(function: PathFunction<H>, row: Seq<H>, index: int) -> Option<H>
    decreases 2 * row.len() - index,
{
    if index < 0 {
        None
    } else if index >= row.len() - 1 {
        Some(row[index - (row.len() - 1)])
    } else {
        hash_pair(
            function,
            node(function, row, 2 * index + 1),
            node(function, row, 2 * index + 2),
        )
    }
}

/// The leaf hashes, followed by as many empty hashes as make a power of two.
pub open spec fn leaf_row<H>(hashes: Seq<H>, empty: H) -> Seq<H> {
    Seq::new(
        width(hashes.len()),
        |j: int|
            if j < hashes.len() {
                hashes[j]
            } else {
                empty
            },
    )
}

/// A hash, combined with the empty hash at its right once for each of a number of levels.
pub open spec fn lift<H>(function: PathFunction<H>, empty: H, hash: Option<H>, levels: nat) -> Option<
    H,
>
    decreases levels,
{
    if levels == 0 {
        hash
    } else {
        hash_pair(function, lift(function, empty, hash, (levels - 1) as nat), Some(empty))
    }
}

/// The number of levels between the top of the tree over `leaves` leaf hashes and the root of a
/// tree of the given depth.
pub open spec fn padding_depth(leaves: nat, depth: nat) -> nat {
    (depth - height(leaves)) as nat
}

/// The root of a Merkle tree of the given depth, or `None` where a hash that it is made of cannot
/// be computed.
pub open spec fn merkle_root<H>(
    function: PathFunction<H>,
    empty: H,
    hashes: Seq<H>,
    depth: nat,
) -> Option<H> {
    lift(
        function,
        empty,
        node(function, leaf_row(hashes, empty), 0),
        padding_depth(hashes.len(), depth),
    )
}

/// The index of the first node of the level that is `height` levels above the leaf level of a tree
/// over `width` leaf hashes.
pub open spec fn level_start(width: nat, height: nat) -> int
    decreases height,
{
    if height == 0 {
        width - 1
    } else {
        parent_of(level_start(width, (height - 1) as nat))
    }
}

/// The hash of the inner node at `index`, whose children are `height` levels above the leaf level,
/// fails for the given reason, where every node on their level and below it can be computed.
pub open spec fn node_fails<H>(
    function: PathFunction<H>,
    row: Seq<H>,
    height: nat,
    index: int,
    message: Seq<char>,
) -> bool {
    let below = level_start(row.len(), height);
    &&& 0 <= level_start(row.len(), height + 1) <= index < below
    &&& forall|k: int|
        below <= k < 2 * row.len() - 1 ==> (#[trigger] node(function, row, k)) is Some
    &&& function(node(function, row, 2 * index + 1)->0, node(function, row, 2 * index + 2)->0)
        == Err::<H, Seq<char>>(message)
}

/// The hash of an inner node of the tree over a row fails for the given reason, on the lowest level
/// on which one does.
pub open spec fn some_node_fails<H>(
    function: PathFunction<H>,
    row: Seq<H>,
    message: Seq<char>,
) -> bool {
    exists|height: nat, index: int| node_fails(function, row, height, index, message)
}

/// The hash on one of the levels above the tree over the leaf hashes fails for the given reason.
pub open spec fn some_lift_fails<H>(
    function: PathFunction<H>,
    empty: H,
    hash: Option<H>,
    levels: nat,
    message: Seq<char>,
) -> bool {
    exists|level: nat|
        {
            &&& level < levels
            &&& #[trigger] lift(function, empty, hash, level) is Some
            &&& function(lift(function, empty, hash, level)->0, empty) == Err::<H, Seq<char>>(
                message,
            )
        }
}

/// A hash that the root of a Merkle tree is made of cannot be computed, for the given reason.
pub open spec fn some_hash_fails<H>(
    function: PathFunction<H>,
    empty: H,
    hashes: Seq<H>,
    depth: nat,
    message: Seq<char>,
) -> bool {
    let row = leaf_row(hashes, empty);
    ||| some_node_fails(function, row, message)
    ||| some_lift_fails(
        function,
        empty,
        node(function, row, 0),
        padding_depth(hashes.len(), depth),
        message,
    )
}

/// What a change of the leaves of a tree leaves as it was: the first `left` leaves, and, where the
/// size of the tree stays the same too, everything from the leaf `right` on.
pub struct Unchanged {
    pub left: nat,
    pub right: Option<int>,
}

impl Unchanged {
    /// The number of nodes on the left of a level that have only unchanged leaves below them.
    pub open spec fn left_nodes(&self, height: nat) -> nat
        decreases height,
    {
        if height == 0 {
            self.left
        } else {
            self.left_nodes((height - 1) as nat) / 2
        }
    }

    /// The number of nodes on a level before those on the right that have only unchanged leaves
    /// below them.
    pub open spec fn before_right(&self, width: nat, height: nat) -> int
        decreases height,
    {
        match self.right {
            None => level_start(width, height) + 1,
            Some(right) => if height == 0 {
                right
            } else {
                (self.before_right(width, (height - 1) as nat) + 1) / 2
            },
        }
    }

    /// The number of nodes on a level that have to be computed.
    pub open spec fn computed(&self, width: nat, height: nat) -> int {
        self.before_right(width, height) - self.left_nodes(height)
    }
}

/// The hash of the inner node at `index`, whose children are `height` levels above the leaf level,
/// fails for the given reason, where every node on their level and below it can be computed; and
/// where few nodes have to be computed on its level, it is the first one that fails.
pub open spec fn update_fails<H>(
    function: PathFunction<H>,
    row: Seq<H>,
    unchanged: Unchanged,
    height: nat,
    index: int,
    message: Seq<char>,
) -> bool {
    &&& node_fails(function, row, height, index, message)
    &&& unchanged.computed(row.len(), height + 1) < PARALLEL_THRESHOLD ==> forall|k: int|
        level_start(row.len(), height + 1) <= k < index ==> (#[trigger] node(
            function,
            row,
            k,
        )) is Some
}

/// The hash of an inner node of the tree over a row fails for the given reason, on the lowest level
/// on which one does; and where few nodes have to be computed on this level, it is the first one
/// that fails.
pub open spec fn some_update_fails<H>(
    function: PathFunction<H>,
    row: Seq<H>,
    unchanged: Unchanged,
    message: Seq<char>,
) -> bool {
    exists|height: nat, index: int|
        update_fails(function, row, unchanged, height, index, message)
}

/// A hash that the root of a Merkle tree is made of cannot be computed, for the given reason, where
/// only the nodes over changed leaves are computed.
pub open spec fn some_updated_hash_fails<H>(
    function: PathFunction<H>,
    empty: H,
    hashes: Seq<H>,
    depth: nat,
    unchanged: Unchanged,
    message: Seq<char>,
) -> bool {
    let row = leaf_row(hashes, empty);
    ||| some_update_fails(function, row, unchanged, message)
    ||| some_lift_fails(
        function,
        empty,
        node(function, row, 0),
        padding_depth(hashes.len(), depth),
        message,
    )
}

/// The siblings of the nodes on the way from the node at `index` to the top of the tree.
pub open spec fn siblings_above<H>(nodes: Seq<H>, index: int) -> Seq<H>
    decreases index,
{
    if index <= 0 {
        Seq::empty()
    } else {
        seq![nodes[sibling_of(index)]] + siblings_above(nodes, parent_of(index))
    }
}

/// A number of empty hashes.
pub open spec fn empties<H>(empty: H, count: nat) -> Seq<H> {
    Seq::new(count, |i: int| empty)
}

/// The siblings that lead from the leaf hash at `leaf_index` to the root of a Merkle tree of the
/// given depth.
pub open spec fn merkle_path<H>(
    nodes: Seq<H>,
    empty: H,
    leaves: nat,
    depth: nat,
    leaf_index: nat,
) -> Seq<H> {
    siblings_above(nodes, width(leaves) - 1 + leaf_index) + empties(
        empty,
        padding_depth(leaves, depth),
    )
}

/// The root to which a hash at the given index of its level leads along a list of siblings, or
/// `None` where a hash on the way cannot be computed.
pub open spec fn path_root<H>(
    function: PathFunction<H>,
    hash: H,
    index: nat,
    siblings: Seq<H>,
) -> Option<H>
    decreases siblings.len(),
{
    if siblings.len() == 0 {
        Some(hash)
    } else {
        let above = if index % 2 == 0 {
            function(hash, siblings[0])
        } else {
            function(siblings[0], hash)
        };
        match above {
            Ok(parent) => path_root(function, parent, index / 2, siblings.drop_first()),
            Err(_) => None,
        }
    }
}

/// The hash of the children of the node at `index`.
pub open spec fn children_hash<H>(
    function: PathFunction<H>,
    nodes: Seq<H>,
    index: int,
) -> Outcome<H> {
    function(nodes[2 * index + 1], nodes[2 * index + 2])
}

/// The node at `index` holds the hash of its children.
pub open spec fn hashed_at<H>(function: PathFunction<H>, nodes: Seq<H>, index: int) -> bool {
    children_hash(function, nodes, index) == Ok::<H, Seq<char>>(nodes[index])
}

/// The inner nodes from `first` on hold the hashes of their children.
pub open spec fn hashed_from<H>(
    function: PathFunction<H>,
    nodes: Seq<H>,
    inner: int,
    first: int,
) -> bool {
    forall|i: int| first <= i < inner ==> #[trigger] hashed_at(function, nodes, i)
}

/// The `count` nodes from `start` on are those from `other_start` on of another tree.
pub open spec fn same_nodes<H>(
    nodes: Seq<H>,
    start: int,
    others: Seq<H>,
    other_start: int,
    count: int,
) -> bool {
    forall|i: int|
        start <= i < start + count ==> #[trigger] nodes[i] == others[other_start + (i - start)]
}

/// Nodes that hold the hashes of their children are those of the tree over their last level.
pub proof fn lemma_hashed_nodes<H>(
    function: PathFunction<H>,
    nodes: Seq<H>,
    row: Seq<H>,
    first: int,
    index: int,
)
    requires
        row.len() >= 1,
        nodes.len() == 2 * row.len() - 1,
        row == nodes.skip(row.len() - 1),
        0 <= first <= index < nodes.len(),
        hashed_from(function, nodes, row.len() - 1, first),
    ensures
        node(function, row, index) == Some(nodes[index]),
    decreases nodes.len() - index,
{
    if index < row.len() - 1 {
        lemma_hashed_nodes(function, nodes, row, first, 2 * index + 1);
        lemma_hashed_nodes(function, nodes, row, first, 2 * index + 2);
        assert(hashed_at(function, nodes, index));
    } else {
        assert(row[index - (row.len() - 1)] == nodes[index]);
    }
}

/// Where a node cannot be computed, the top of the tree cannot.
pub proof fn lemma_missing_node<H>(function: PathFunction<H>, row: Seq<H>, index: int)
    requires
        row.len() >= 1,
        0 <= index < 2 * row.len() - 1,
        node(function, row, index) is None,
    ensures
        node(function, row, 0) is None,
    decreases index,
{
    if index > 0 {
        let above = parent_of(index);
        assert(index == 2 * above + 1 || index == 2 * above + 2);
        assert(node(function, row, above) is None);
        lemma_missing_node(function, row, above);
    }
}

/// There is nothing above a missing hash.
pub proof fn lemma_lift_missing<H>(
    function: PathFunction<H>,
    empty: H,
    hash: Option<H>,
    level: nat,
    levels: nat,
)
    requires
        level <= levels,
        lift(function, empty, hash, level) is None,
    ensures
        lift(function, empty, hash, levels) is None,
    decreases levels - level,
{
    if level < levels {
        lemma_lift_missing(function, empty, hash, level + 1, levels);
    }
}

/// From a node that is `levels` levels below the top, as many siblings lead to the top.
pub proof fn lemma_siblings_count<H>(nodes: Seq<H>, index: int, levels: nat)
    requires
        pow2(levels) - 1 <= index <= 2 * (pow2(levels) - 1),
    ensures
        siblings_above(nodes, index).len() == levels,
    decreases levels,
{
    lemma2_to64();
    if levels > 0 {
        lemma_pow2_unfold(levels);
        lemma_pow2_pos((levels - 1) as nat);
        lemma_siblings_count(nodes, parent_of(index), (levels - 1) as nat);
    }
}

/// The levels of a tree over a power of two of leaf hashes: each begins one before a power of two,
/// and has twice as many nodes as the one above it.
pub proof fn lemma_level_start(width: nat, height: nat)
    requires
        is_pow2(width as int),
        level_start(width, height) >= 0,
    ensures
        is_pow2(level_start(width, height) + 1),
        level_start(width, height) <= width - 1,
        level_start(width, height) > 0 ==> level_start(width, height) == 2 * level_start(
            width,
            height + 1,
        ) + 1,
        level_start(width, height) == 0 ==> level_start(width, height + 1) == -1,
    decreases height,
{
    if height > 0 {
        lemma_level_start(width, (height - 1) as nat);
        lemma_half_of_power(level_start(width, (height - 1) as nat) + 1);
    }
    if level_start(width, height) > 0 {
        lemma_half_of_power(level_start(width, height) + 1);
    }
}

/// A higher level begins earlier.
pub proof fn lemma_levels_ordered(width: nat, low: nat, high: nat)
    requires
        is_pow2(width as int),
        low <= high,
        level_start(width, high) >= 0,
    ensures
        level_start(width, low) >= level_start(width, high),
        low < high ==> level_start(width, low) > level_start(width, high),
    decreases high,
{
    if low < high {
        lemma_levels_ordered(width, low, (high - 1) as nat);
    }
}

/// Every node from the first one of a level on is on this level or on one below it.
pub proof fn lemma_level_of_index(width: nat, height: nat, index: int) -> (level: nat)
    requires
        is_pow2(width as int),
        0 <= level_start(width, height) <= index < 2 * width - 1,
    ensures
        level <= height,
        level_start(width, level) <= index <= 2 * level_start(width, level),
    decreases height,
{
    if index <= 2 * level_start(width, height) {
        height
    } else {
        let below = (height - 1) as nat;
        lemma_levels_ordered(width, below, height);
        lemma_level_start(width, below);
        lemma_level_of_index(width, below, index)
    }
}

/// Where nothing is unchanged on the right, every node that is not on the left is computed.
pub proof fn lemma_all_changed(unchanged: Unchanged, width: nat, height: nat)
    requires
        is_pow2(width as int),
        unchanged.right == Some(width as int),
        level_start(width, height) >= 0,
    ensures
        unchanged.before_right(width, height) == level_start(width, height) + 1,
    decreases height,
{
    if height > 0 {
        lemma_level_start(width, (height - 1) as nat);
        lemma_all_changed(unchanged, width, (height - 1) as nat);
    }
}

/// Where a level has no unchanged nodes on its right, as many nodes are computed as without any.
pub proof fn lemma_all_changed_fails<H>(
    function: PathFunction<H>,
    row: Seq<H>,
    unchanged: Unchanged,
    other: Unchanged,
    message: Seq<char>,
)
    requires
        is_pow2(row.len() as int),
        unchanged.right is None,
        other.right == Some(row.len() as int),
        other.left == unchanged.left,
        some_update_fails(function, row, unchanged, message),
    ensures
        some_update_fails(function, row, other, message),
{
    let (height, index) = choose|height: nat, index: int|
        update_fails(function, row, unchanged, height, index, message);
    lemma_level_start(row.len(), height);
    lemma_all_changed(other, row.len(), height + 1);
    lemma_left_nodes(unchanged, other, height + 1);
    assert(update_fails(function, row, other, height, index, message));
}

/// The number of unchanged nodes on the left does not depend on what is unchanged on the right.
proof fn lemma_left_nodes(unchanged: Unchanged, other: Unchanged, height: nat)
    requires
        unchanged.left == other.left,
    ensures
        unchanged.left_nodes(height) == other.left_nodes(height),
    decreases height,
{
    if height > 0 {
        lemma_left_nodes(unchanged, other, (height - 1) as nat);
    }
}

} // verus!
