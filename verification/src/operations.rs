//! What the operations do, told by their arguments and results alone: which leaves a tree has, how
//! its nodes are made of them, and on which arguments each operation succeeds.
//!
//! The laws speak of whatever a call of an operation returns, by `call_ensures`.
use crate::error::{decimal, Error, HashError};
use crate::hash::{
    all_leaves_hash, hashes_of, outcome, LeafFunction, LeafHash, Outcome, PathFunction, PathHash,
};
use crate::index::{is_left_child, is_root, left_child, parent, right_child, sibling};
use crate::laws::{
    law_capacity, law_proof_verifies, law_total_function_has_root, lemma_fits_power,
    lemma_path_length, lemma_sibling_at, neighbour,
};
use crate::model::{
    hashed_at, leaf_row, lemma_hashed_nodes, lemma_level_start, lemma_levels_ordered,
    lemma_lift_missing, lemma_missing_node, level_start, lift, merkle_root, node, node_fails,
    padding_depth, path_root, siblings_above, some_hash_fails, some_lift_fails, some_node_fails,
    some_update_fails, some_updated_hash_fails, update_fails, Unchanged,
};
use crate::path::{path_leads_to, MerklePath};
use crate::size::{
    depth_error, floor_log2, height, lemma_height_monotone, lemma_size_bounds,
    lemma_width_is_least, size_error, tree_depth, width,
};
use crate::tree::MerkleTree;
use vstd::arithmetic::div_mod::{lemma_div_denominator, lemma_div_pos_is_pos};
use vstd::arithmetic::power2::{
    is_pow2, lemma2_to64, lemma2_to64_rest, lemma_pow2_pos, lemma_pow2_strictly_increases,
    lemma_pow2_unfold, pow2,
};
use vstd::prelude::*;

verus! {

/// The node at an index holds the hash of the two nodes below it.
pub open spec fn holds_hash<H>(function: PathFunction<H>, nodes: Seq<H>, index: int) -> bool {
    function(nodes[2 * index + 1], nodes[2 * index + 2]) == Ok::<H, Seq<char>>(nodes[index])
}

/// The nodes are those of `levels` levels and a last one below them, which holds the hashes and then
/// empty hashes. There are no more levels than are needed.
pub open spec fn ends_with<H>(empty: H, hashes: Seq<H>, levels: nat, nodes: Seq<H>) -> bool {
    &&& hashes.len() <= pow2(levels)
    &&& levels > 0 ==> hashes.len() > pow2((levels - 1) as nat)
    &&& nodes.len() == 2 * pow2(levels) - 1
    &&& forall|j: int|
        0 <= j < hashes.len() ==> nodes[pow2(levels) - 1 + j] == #[trigger] hashes[j]
    &&& forall|i: int|
        pow2(levels) - 1 + hashes.len() <= i < nodes.len() ==> #[trigger] nodes[i] == empty
}

/// A step of a list is the hash of the step before it and of the empty hash.
pub open spec fn lifts<H>(function: PathFunction<H>, empty: H, steps: Seq<H>, step: int) -> bool {
    function(steps[step], empty) == Ok::<H, Seq<char>>(steps[step + 1])
}

/// The nodes are those of a tree of `levels` levels over the hashes, and the steps lead from its top
/// to the root of a tree of the given depth.
pub open spec fn is_merkle_tree<H>(
    function: PathFunction<H>,
    empty: H,
    hashes: Seq<H>,
    depth: int,
    levels: nat,
    nodes: Seq<H>,
    steps: Seq<H>,
) -> bool {
    &&& levels <= depth
    &&& ends_with(empty, hashes, levels, nodes)
    &&& forall|i: int| 0 <= i < pow2(levels) - 1 ==> #[trigger] holds_hash(function, nodes, i)
    &&& steps.len() == depth - levels + 1
    &&& steps[0] == nodes[0]
    &&& forall|step: int|
        0 <= step < depth - levels ==> #[trigger] lifts(function, empty, steps, step)
}

/// There is a tree of the given depth over the hashes.
pub open spec fn has_merkle_tree<H>(
    function: PathFunction<H>,
    empty: H,
    hashes: Seq<H>,
    depth: int,
) -> bool {
    exists|levels: nat, nodes: Seq<H>, steps: Seq<H>|
        is_merkle_tree(function, empty, hashes, depth, levels, nodes, steps)
}

/// In a tree over the hashes that is filled in up to the level that begins at `2^above - 1`, the hash
/// of a node on the next level fails for the given reason.
pub open spec fn node_hash_fails<H>(
    function: PathFunction<H>,
    empty: H,
    hashes: Seq<H>,
    levels: nat,
    nodes: Seq<H>,
    above: nat,
    index: int,
    message: Seq<char>,
) -> bool {
    &&& ends_with(empty, hashes, levels, nodes)
    &&& 0 < above <= levels
    &&& forall|i: int|
        pow2(above) - 1 <= i < pow2(levels) - 1 ==> #[trigger] holds_hash(function, nodes, i)
    &&& pow2((above - 1) as nat) - 1 <= index < pow2(above) - 1
    &&& function(nodes[2 * index + 1], nodes[2 * index + 2]) == Err::<H, Seq<char>>(message)
}

/// In a tree of some smaller depth over the hashes, the hash of the root and of the empty hash fails
/// for the given reason.
pub open spec fn root_hash_fails<H>(
    function: PathFunction<H>,
    empty: H,
    hashes: Seq<H>,
    depth: int,
    message: Seq<char>,
) -> bool {
    exists|smaller: int, levels: nat, nodes: Seq<H>, steps: Seq<H>|
        {
            &&& #[trigger] is_merkle_tree(function, empty, hashes, smaller, levels, nodes, steps)
            &&& smaller < depth
            &&& function(steps.last(), empty) == Err::<H, Seq<char>>(message)
        }
}

/// Making the tree over the hashes fails for the given reason.
pub open spec fn merkle_tree_fails<H>(
    function: PathFunction<H>,
    empty: H,
    hashes: Seq<H>,
    depth: int,
    message: Seq<char>,
) -> bool {
    ||| root_hash_fails(function, empty, hashes, depth, message)
    ||| exists|levels: nat, nodes: Seq<H>, above: nat, index: int|
        node_hash_fails(function, empty, hashes, levels, nodes, above, index, message)
}

/// Making the tree over the hashes fails for the given reason, and the node whose hash fails is the
/// first one on its level.
pub open spec fn merkle_tree_fails_first<H>(
    function: PathFunction<H>,
    empty: H,
    hashes: Seq<H>,
    depth: int,
    message: Seq<char>,
) -> bool {
    ||| root_hash_fails(function, empty, hashes, depth, message)
    ||| exists|levels: nat, nodes: Seq<H>, above: nat, index: int|
        {
            &&& #[trigger] node_hash_fails(
                function,
                empty,
                hashes,
                levels,
                nodes,
                above,
                index,
                message,
            )
            &&& forall|i: int|
                pow2((above - 1) as nat) - 1 <= i < index ==> (#[trigger] pair_hash(
                    function,
                    nodes,
                    i,
                )) is Ok
        }
}

/// The hash of the two nodes below the node at an index.
pub open spec fn pair_hash<H>(function: PathFunction<H>, nodes: Seq<H>, index: int) -> Outcome<H> {
    function(nodes[2 * index + 1], nodes[2 * index + 2])
}

/// The number of leaves is too large for a tree of the given depth, or for any tree.
pub open spec fn count_refused(leaves: nat, depth: u8) -> bool {
    ||| leaves > pow2(depth as nat)
    ||| leaves > pow2(51)
    ||| leaves > pow2((usize::BITS - 1) as nat)
}

/// The result says what is wrong with the number of leaves.
pub open spec fn refuses_count<T>(leaves: nat, depth: u8, result: Result<T, Error>) -> bool {
    if leaves > pow2((usize::BITS - 1) as nat) {
        result == Err::<T, Error>(Error::LeafCountOverflow)
    } else if leaves > pow2(51) {
        result == Err::<T, Error>(Error::TreeTooLarge)
    } else {
        &&& result matches Err(Error::DepthExceeded { depth: needed, maximum })
        &&& maximum == depth
        &&& 0 < needed
        &&& pow2((needed - 1) as nat) < leaves <= pow2(needed as nat)
    }
}

/// The result is the failure of a hash function, for the given reason.
pub open spec fn fails_with<T>(result: Result<T, Error>, message: Seq<char>) -> bool {
    result matches Err(Error::Hash(error)) && error@ == message
}

/// The result is a tree over the given hashes and, after them, those of the given leaves; or the
/// failure of the hash of one of these leaves; or, where all of them have a hash, the failure of the
/// hash of a node.
pub open spec fn grown<LH: LeafHash<Hash = PH::Hash>, PH: PathHash, const DEPTH: u8>(
    leaf_function: LeafFunction<LH::Leaf, PH::Hash>,
    path_function: PathFunction<PH::Hash>,
    empty: PH::Hash,
    hashes: Seq<PH::Hash>,
    leaves: Seq<LH::Leaf>,
    result: Result<MerkleTree<LH, PH, DEPTH>, Error>,
) -> bool {
    &&& (exists|i: int|
        0 <= i < leaves.len() && leaf_function(#[trigger] leaves[i]) is Err) ==> exists|i: int|
        0 <= i < leaves.len() && leaf_function(#[trigger] leaves[i]) is Err && fails_with(
            result,
            leaf_function(leaves[i])->Err_0,
        )
    &&& forall|new_hashes: Seq<PH::Hash>| #[trigger]
        hashed_one_by_one(leaf_function, leaves, new_hashes) ==> {
            &&& result is Ok <==> has_merkle_tree(
                path_function,
                empty,
                hashes + new_hashes,
                DEPTH as int,
            )
            &&& result matches Ok(tree) ==> {
                &&& tree.wf()
                &&& tree@ == hashes + new_hashes
                &&& tree.empty() == empty
            }
            &&& result is Err ==> result->Err_0 is Hash && merkle_tree_fails(
                path_function,
                empty,
                hashes + new_hashes,
                DEPTH as int,
                result->Err_0->Hash_0@,
            )
        }
}

/// The first nodes of the levels of a tree over a power of two of leaf hashes.
pub(crate) proof fn lemma_level_start_of_power(levels: nat, level: nat)
    requires
        level <= levels,
    ensures
        level_start(pow2(levels), level) == pow2((levels - level) as nat) - 1,
    decreases level,
{
    if level > 0 {
        lemma_level_start_of_power(levels, (level - 1) as nat);
        lemma_pow2_unfold((levels - level + 1) as nat);
    }
}

/// As many levels as are needed are the height of the tree.
proof fn lemma_needed_levels(leaves: nat, levels: nat)
    requires
        leaves <= pow2(levels),
        levels > 0 ==> leaves > pow2((levels - 1) as nat),
    ensures
        levels == height(leaves),
{
    lemma_fits_power(leaves, levels);
    if levels > 0 {
        lemma_fits_power(leaves, (levels - 1) as nat);
    }
}

/// The height of a tree is as many levels as are needed.
proof fn lemma_height_is_needed(leaves: nat)
    ensures
        leaves <= width(leaves),
        height(leaves) > 0 ==> leaves > pow2((height(leaves) - 1) as nat),
{
    lemma_fits_power(leaves, height(leaves));
    if height(leaves) > 0 {
        lemma_fits_power(leaves, (height(leaves) - 1) as nat);
    }
}

/// Where there is a tree over the hashes, its nodes and its root are computable.
proof fn lemma_tree_is_computable<H>(
    function: PathFunction<H>,
    empty: H,
    hashes: Seq<H>,
    depth: nat,
    levels: nat,
    nodes: Seq<H>,
    steps: Seq<H>,
)
    requires
        is_merkle_tree(function, empty, hashes, depth as int, levels, nodes, steps),
    ensures
        levels == height(hashes.len()),
        merkle_root(function, empty, hashes, depth) == Some(steps.last()),
{
    let row = leaf_row(hashes, empty);
    lemma_needed_levels(hashes.len(), levels);
    lemma_pow2_pos(levels);
    assert(row =~= nodes.skip(row.len() - 1)) by {
        assert forall|j: int| 0 <= j < row.len() implies #[trigger] row[j] == nodes.skip(
            row.len() - 1,
        )[j] by {
            assert(nodes.skip(row.len() - 1)[j] == nodes[pow2(levels) - 1 + j]);
            if j < hashes.len() {
                assert(nodes[pow2(levels) - 1 + j] == hashes[j]);
            }
        }
    }
    assert forall|i: int| 0 <= i < row.len() - 1 implies #[trigger] hashed_at(
        function,
        nodes,
        i,
    ) by {
        assert(holds_hash(function, nodes, i));
    }
    lemma_hashed_nodes(function, nodes, row, 0, 0);
    lemma_steps_lift(function, empty, steps, (depth - levels) as nat);
}

/// The steps are the liftings of the first one.
proof fn lemma_steps_lift<H>(function: PathFunction<H>, empty: H, steps: Seq<H>, step: nat)
    requires
        step < steps.len(),
        forall|k: int| 0 <= k < steps.len() - 1 ==> #[trigger] lifts(function, empty, steps, k),
    ensures
        lift(function, empty, Some(steps[0]), step) == Some(steps[step as int]),
    decreases step,
{
    if step > 0 {
        lemma_steps_lift(function, empty, steps, (step - 1) as nat);
        assert(lifts(function, empty, steps, step - 1));
    }
}

/// The liftings of a hash.
spec fn liftings<H>(function: PathFunction<H>, empty: H, hash: H, levels: nat) -> Seq<H> {
    Seq::new(levels + 1, |step: int| lift(function, empty, Some(hash), step as nat)->0)
}

/// Where a hash can be lifted, its liftings lead there.
proof fn lemma_liftings<H>(function: PathFunction<H>, empty: H, hash: H, levels: nat)
    requires
        lift(function, empty, Some(hash), levels) is Some,
    ensures
        forall|step: int|
            0 <= step < levels ==> #[trigger] lifts(
                function,
                empty,
                liftings(function, empty, hash, levels),
                step,
            ),
        liftings(function, empty, hash, levels)[0] == hash,
        Some(liftings(function, empty, hash, levels).last()) == lift(
            function,
            empty,
            Some(hash),
            levels,
        ),
{
    let steps = liftings(function, empty, hash, levels);
    assert forall|step: int| 0 <= step < levels implies #[trigger] lifts(
        function,
        empty,
        steps,
        step,
    ) by {
        if lift(function, empty, Some(hash), (step + 1) as nat) is None {
            lemma_lift_missing(function, empty, Some(hash), (step + 1) as nat, levels);
        }
        if lift(function, empty, Some(hash), step as nat) is None {
            lemma_lift_missing(function, empty, Some(hash), step as nat, levels);
        }
    }
    assert(lift(function, empty, Some(hash), 0) == Some(hash));
}

/// The nodes over some hashes, as far as they can be computed.
spec fn nodes_over<H>(function: PathFunction<H>, empty: H, hashes: Seq<H>) -> Seq<H> {
    let row = leaf_row(hashes, empty);
    Seq::new((2 * row.len() - 1) as nat, |i: int| node(function, row, i)->0)
}

/// The nodes over some hashes end with them, and hold the hashes of their children from where on all
/// of them can be computed.
proof fn lemma_nodes_over<H>(function: PathFunction<H>, empty: H, hashes: Seq<H>, first: int)
    requires
        0 <= first,
        forall|i: int|
            first <= i < 2 * width(hashes.len()) - 1 ==> (#[trigger] node(
                function,
                leaf_row(hashes, empty),
                i,
            )) is Some,
    ensures
        ends_with(
            empty,
            hashes,
            height(hashes.len()),
            nodes_over(function, empty, hashes),
        ),
        forall|i: int|
            first <= i < width(hashes.len()) - 1 ==> #[trigger] holds_hash(
                function,
                nodes_over(function, empty, hashes),
                i,
            ),
{
    let row = leaf_row(hashes, empty);
    let nodes = nodes_over(function, empty, hashes);
    lemma_height_is_needed(hashes.len());
    lemma_width_is_least(hashes.len());
    assert forall|j: int| 0 <= j < hashes.len() implies nodes[width(hashes.len()) - 1 + j]
        == #[trigger] hashes[j] by {
        assert(row[j] == hashes[j]);
    }
    assert forall|i: int| first <= i < width(hashes.len()) - 1 implies #[trigger] holds_hash(
        function,
        nodes,
        i,
    ) by {
        assert(node(function, row, i) is Some);
        assert(node(function, row, 2 * i + 1) is Some);
        assert(node(function, row, 2 * i + 2) is Some);
    }
}

/// Where the top of a tree can be computed, so can every node.
proof fn lemma_top_needs_all<H>(function: PathFunction<H>, row: Seq<H>)
    requires
        row.len() >= 1,
        node(function, row, 0) is Some,
    ensures
        forall|i: int|
            0 <= i < 2 * row.len() - 1 ==> (#[trigger] node(function, row, i)) is Some,
{
    assert forall|i: int| 0 <= i < 2 * row.len() - 1 implies (#[trigger] node(
        function,
        row,
        i,
    )) is Some by {
        if node(function, row, i) is None {
            lemma_missing_node(function, row, i);
        }
    }
}

/// Where the root is computable, there is a tree.
proof fn lemma_computable_is_tree<H>(
    function: PathFunction<H>,
    empty: H,
    hashes: Seq<H>,
    depth: nat,
)
    requires
        height(hashes.len()) <= depth,
        merkle_root(function, empty, hashes, depth) is Some,
    ensures
        ({
            let nodes = nodes_over(function, empty, hashes);
            let steps = liftings(
                function,
                empty,
                nodes[0],
                padding_depth(hashes.len(), depth),
            );
            &&& is_merkle_tree(
                function,
                empty,
                hashes,
                depth as int,
                height(hashes.len()),
                nodes,
                steps,
            )
            &&& merkle_root(function, empty, hashes, depth) == Some(steps.last())
        }),
{
    let row = leaf_row(hashes, empty);
    lemma_width_is_least(hashes.len());
    if node(function, row, 0) is None {
        lemma_lift_missing(
            function,
            empty,
            node(function, row, 0),
            0,
            padding_depth(hashes.len(), depth),
        );
    }
    lemma_top_needs_all(function, row);
    lemma_nodes_over(function, empty, hashes, 0);
    lemma_liftings(
        function,
        empty,
        nodes_over(function, empty, hashes)[0],
        padding_depth(hashes.len(), depth),
    );
}

/// The root is computable exactly where there is a tree.
proof fn lemma_computable<H>(
    function: PathFunction<H>,
    empty: H,
    hashes: Seq<H>,
    depth: nat,
)
    requires
        height(hashes.len()) <= depth,
    ensures
        merkle_root(function, empty, hashes, depth) is Some <==> has_merkle_tree(
            function,
            empty,
            hashes,
            depth as int,
        ),
{
    if merkle_root(function, empty, hashes, depth) is Some {
        lemma_computable_is_tree(function, empty, hashes, depth);
    }
    if has_merkle_tree(function, empty, hashes, depth as int) {
        let (levels, nodes, steps) = choose|levels: nat, nodes: Seq<H>, steps: Seq<H>|
            is_merkle_tree(function, empty, hashes, depth as int, levels, nodes, steps);
        lemma_tree_is_computable(function, empty, hashes, depth, levels, nodes, steps);
    }
}

/// Where the hash of a node fails in the model, it fails in a tree that is filled in so far.
proof fn lemma_node_hash_fails<H>(
    function: PathFunction<H>,
    empty: H,
    hashes: Seq<H>,
    level: nat,
    index: int,
    message: Seq<char>,
)
    requires
        node_fails(function, leaf_row(hashes, empty), level, index, message),
    ensures
        level < height(hashes.len()),
        node_hash_fails(
            function,
            empty,
            hashes,
            height(hashes.len()),
            nodes_over(function, empty, hashes),
            (height(hashes.len()) - level) as nat,
            index,
            message,
        ),
{
    let levels = height(hashes.len());
    let row = leaf_row(hashes, empty);
    lemma2_to64();
    lemma_width_is_least(hashes.len());
    lemma_level_start_of_power(levels, levels);
    if level >= levels {
        lemma_levels_ordered(row.len(), levels, level);
    }
    lemma_level_start_of_power(levels, level);
    lemma_level_start_of_power(levels, level + 1);
    lemma_pow2_unfold((levels - level) as nat);
    lemma_nodes_over(function, empty, hashes, level_start(row.len(), level));
    if level > 0 {
        lemma_pow2_strictly_increases((levels - level) as nat, levels);
    }
}

/// Where the root cannot be computed, a tree that is filled in so far shows why.
proof fn lemma_merkle_tree_fails<H>(
    function: PathFunction<H>,
    empty: H,
    hashes: Seq<H>,
    depth: nat,
    message: Seq<char>,
)
    requires
        height(hashes.len()) <= depth,
        some_hash_fails(function, empty, hashes, depth, message),
    ensures
        merkle_tree_fails(function, empty, hashes, depth as int, message),
{
    let row = leaf_row(hashes, empty);
    if some_node_fails(function, row, message) {
        let (level, index) = choose|level: nat, index: int|
            node_fails(function, row, level, index, message);
        lemma_node_hash_fails(function, empty, hashes, level, index, message);
    } else {
        lemma_root_hash_fails(function, empty, hashes, depth, message);
    }
}

/// Where a hash above the top cannot be computed, a tree of a smaller depth shows why.
proof fn lemma_root_hash_fails<H>(
    function: PathFunction<H>,
    empty: H,
    hashes: Seq<H>,
    depth: nat,
    message: Seq<char>,
)
    requires
        height(hashes.len()) <= depth,
        some_lift_fails(
            function,
            empty,
            node(function, leaf_row(hashes, empty), 0),
            padding_depth(hashes.len(), depth),
            message,
        ),
    ensures
        root_hash_fails(function, empty, hashes, depth as int, message),
{
    let top = node(function, leaf_row(hashes, empty), 0);
    let level = choose|level: nat|
        {
            &&& level < padding_depth(hashes.len(), depth)
            &&& #[trigger] lift(function, empty, top, level) is Some
            &&& function(lift(function, empty, top, level)->0, empty) == Err::<H, Seq<char>>(
                message,
            )
        };
    lemma_computable_is_tree(function, empty, hashes, height(hashes.len()) + level);
}

/// The depth of a tree is refused exactly where it is 0 or above 64, and each of the two has its own
/// error.
pub proof fn law_depths(depth: u8)
    ensures
        depth_error(depth) is None <==> 1 <= depth <= 64,
        depth == 0 ==> depth_error(depth) == Some(Error::ZeroDepth),
        depth > 64 ==> depth_error(depth) == Some(Error::DepthTooLarge),
{
}

/// Which number of leaves is refused for a tree of a given depth, and with which error: more than
/// half of what a `usize` can count, more than `2^51`, and more than `2^depth`, in this order. An
/// exceeded depth tells how many levels would be needed.
pub proof fn law_leaf_counts(leaves: nat, depth: u8)
    ensures
        size_error(leaves, depth) is None <==> {
            &&& leaves <= pow2(depth as nat)
            &&& leaves <= pow2(51)
            &&& leaves <= pow2((usize::BITS - 1) as nat)
        },
        leaves > pow2((usize::BITS - 1) as nat) ==> size_error(leaves, depth) == Some(
            Error::LeafCountOverflow,
        ),
        pow2(51) < leaves <= pow2((usize::BITS - 1) as nat) ==> size_error(leaves, depth) == Some(
            Error::TreeTooLarge,
        ),
        pow2(depth as nat) < leaves && leaves <= pow2(51) && leaves <= pow2(
            (usize::BITS - 1) as nat,
        ) ==> {
            &&& size_error(leaves, depth) matches Some(Error::DepthExceeded { depth: d, maximum })
            &&& maximum == depth
            &&& 0 < d
            &&& pow2((d - 1) as nat) < leaves <= pow2(d as nat)
        },
{
    let bits = usize::BITS as nat;
    vstd::layout::unsigned_int_max_values();
    lemma2_to64();
    lemma2_to64_rest();
    law_capacity(leaves, depth);
    lemma_size_bounds(leaves, depth);
    lemma_fits_power(leaves, depth as nat);
    lemma_fits_power(leaves, 51);
    lemma_fits_power(leaves, (bits - 1) as nat);
    lemma_fits_power(leaves, bits);
    lemma_pow2_unfold(bits);
    lemma_height_is_needed(leaves);
    if height(leaves) > bits {
        lemma_pow2_strictly_increases(bits, height(leaves));
    }
}

/// A tree is made of its leaf hashes: the last of its levels holds them and then empty hashes, every
/// node above holds the hash of the two nodes below it, and its top, combined with the empty hash
/// once for each level that is missing to its depth, is the root. Its depth is from 1 to 64.
pub proof fn law_tree_is_made_of_its_leaves<
    LH: LeafHash<Hash = PH::Hash>,
    PH: PathHash,
    const DEPTH: u8,
>(tree: MerkleTree<LH, PH, DEPTH>) -> (parts: (nat, Seq<PH::Hash>))
    requires
        tree.wf(),
    ensures
        1 <= DEPTH <= 64,
        tree.leaf_count() == tree@.len(),
        tree@.len() <= pow2(DEPTH as nat),
        tree@.len() <= pow2(51),
        tree@.len() <= pow2((usize::BITS - 1) as nat),
        tree.path_empty() == Ok::<PH::Hash, Seq<char>>(tree.empty()),
        is_merkle_tree(
            tree.path_function(),
            tree.empty(),
            tree@,
            DEPTH as int,
            parts.0,
            tree.nodes(),
            parts.1,
        ),
        parts.1.last() == tree.root_hash(),
        parts.0 == height(tree@.len()),
{
    let function = tree.path_function();
    law_leaf_counts(tree@.len(), DEPTH);
    lemma_size_bounds(tree@.len(), DEPTH);
    lemma_computable_is_tree(function, tree.empty(), tree@, DEPTH as nat);
    let nodes = nodes_over(function, tree.empty(), tree@);
    assert(nodes =~= tree.nodes()) by {
        assert forall|i: int| 0 <= i < nodes.len() implies nodes[i] == #[trigger] tree.nodes()[i] by {
            assert(node(function, tree.row(), i) == Some(tree.nodes()[i]));
        }
    }
    let steps = liftings(
        function,
        tree.empty(),
        nodes[0],
        padding_depth(tree@.len(), DEPTH as nat),
    );
    (height(tree@.len()), steps)
}

/// Each hash is the one of the leaf at its place.
pub open spec fn hashed_one_by_one<L, H>(
    function: LeafFunction<L, H>,
    leaves: Seq<L>,
    hashes: Seq<H>,
) -> bool {
    &&& hashes.len() == leaves.len()
    &&& forall|i: int|
        0 <= i < leaves.len() ==> function(#[trigger] leaves[i]) == Ok::<H, Seq<char>>(hashes[i])
}

/// Hashes of all leaves are hashed one by one, and there are no others.
proof fn lemma_hashed_one_by_one<L, H>(function: LeafFunction<L, H>, leaves: Seq<L>)
    ensures
        all_leaves_hash(function, leaves) <==> hashed_one_by_one(
            function,
            leaves,
            hashes_of(function, leaves),
        ),
        forall|hashes: Seq<H>| #[trigger]
            hashed_one_by_one(function, leaves, hashes) ==> hashes == hashes_of(function, leaves)
                && all_leaves_hash(function, leaves),
        !all_leaves_hash(function, leaves) <==> exists|i: int|
            0 <= i < leaves.len() && function(#[trigger] leaves[i]) is Err,
{
    assert forall|hashes: Seq<H>| #[trigger]
        hashed_one_by_one(function, leaves, hashes) implies hashes == hashes_of(function, leaves)
        && all_leaves_hash(function, leaves) by {
        assert forall|i: int| 0 <= i < leaves.len() implies #[trigger] hashes[i] == hashes_of(
            function,
            leaves,
        )[i] by {
            assert(function(leaves[i]) == Ok::<H, Seq<char>>(hashes[i]));
        }
        assert(hashes =~= hashes_of(function, leaves));
    }
}

/// Whatever `new` returns.
///
/// - It refuses a depth that is not from 1 to 64, and then a number of leaves that is too large.
/// - Otherwise it fails where the empty hash does, then where the hash of a leaf does, and then where
///   the hash of a node in the tree over the leaf hashes does, each time with the reason of such a
///   failure.
/// - Otherwise it gives a tree over the hashes of exactly the leaves, in their order, with the hash
///   functions that it was given.
pub proof fn law_new<LH: LeafHash<Hash = PH::Hash>, PH: PathHash, const DEPTH: u8>(
    leaf_hasher: LH,
    path_hasher: PH,
    leaves: &[LH::Leaf],
    result: Result<MerkleTree<LH, PH, DEPTH>, Error>,
)
    requires
        call_ensures(
            MerkleTree::<LH, PH, DEPTH>::new,
            (&leaf_hasher, &path_hasher, leaves),
            result,
        ),
    ensures
        DEPTH == 0 ==> result == Err::<MerkleTree<LH, PH, DEPTH>, Error>(Error::ZeroDepth),
        DEPTH > 64 ==> result == Err::<MerkleTree<LH, PH, DEPTH>, Error>(Error::DepthTooLarge),
        1 <= DEPTH <= 64 ==> {
            &&& count_refused(leaves@.len(), DEPTH) ==> refuses_count(
                leaves@.len(),
                DEPTH,
                result,
            )
            &&& !count_refused(leaves@.len(), DEPTH) ==> {
                &&& path_hasher.empty() is Err ==> fails_with(result, path_hasher.empty()->Err_0)
                &&& path_hasher.empty() is Ok ==> grown(
                    leaf_hasher.function(),
                    path_hasher.function(),
                    path_hasher.empty()->Ok_0,
                    Seq::empty(),
                    leaves@,
                    result,
                )
            }
        },
        result matches Ok(tree) ==> {
            &&& tree.leaf_function() == leaf_hasher.function()
            &&& tree.path_function() == path_hasher.function()
            &&& tree.path_empty() == path_hasher.empty()
            &&& hashed_one_by_one(leaf_hasher.function(), leaves@, tree@)
        },
{
    let leaf_function = leaf_hasher.function();
    law_depths(DEPTH);
    law_leaf_counts(leaves@.len(), DEPTH);
    lemma_hashed_one_by_one(leaf_function, leaves@);
    lemma_size_bounds(leaves@.len(), DEPTH);
    if path_hasher.empty() is Ok && 1 <= DEPTH <= 64 && !count_refused(leaves@.len(), DEPTH) {
        let empty = path_hasher.empty()->Ok_0;
        let hashes = hashes_of(leaf_function, leaves@);
        assert(Seq::<PH::Hash>::empty() + hashes =~= hashes);
        lemma_computable(path_hasher.function(), empty, hashes, DEPTH as nat);
        if let Err(Error::Hash(error)) = result {
            if all_leaves_hash(leaf_function, leaves@) {
                lemma_merkle_tree_fails(
                    path_hasher.function(),
                    empty,
                    hashes,
                    DEPTH as nat,
                    error@,
                );
            }
        }
    }
}

/// Where a tree is updated, a failure is one of making the tree anew.
proof fn lemma_updated_tree_fails<H>(
    function: PathFunction<H>,
    empty: H,
    hashes: Seq<H>,
    depth: nat,
    unchanged: Unchanged,
    message: Seq<char>,
)
    requires
        height(hashes.len()) <= depth,
        some_updated_hash_fails(function, empty, hashes, depth, unchanged, message),
        unchanged.right matches Some(right) ==> right <= width(hashes.len()),
    ensures
        merkle_tree_fails(function, empty, hashes, depth as int, message),
        hashes.len() <= 128 ==> merkle_tree_fails_first(
            function,
            empty,
            hashes,
            depth as int,
            message,
        ),
{
    let row = leaf_row(hashes, empty);
    let levels = height(hashes.len());
    if some_update_fails(function, row, unchanged, message) {
        let (level, index) = choose|level: nat, index: int|
            update_fails(function, row, unchanged, level, index, message);
        lemma_node_hash_fails(function, empty, hashes, level, index, message);
        if hashes.len() <= 128 {
            let nodes = nodes_over(function, empty, hashes);
            let above = (levels - level) as nat;
            lemma2_to64();
            lemma_width_is_least(hashes.len());
            lemma_fits_power(hashes.len(), 7);
            lemma_level_start_of_power(levels, level);
            lemma_level_start_of_power(levels, level + 1);
            lemma_pow2_unfold(above);
            if above < 7 {
                lemma_pow2_strictly_increases(above, 7);
            }
            lemma_before_right(unchanged, row.len(), level + 1);
            assert forall|i: int| pow2((above - 1) as nat) - 1 <= i < index implies (
            #[trigger] pair_hash(function, nodes, i)) is Ok by {
                assert(node(function, row, i) is Some);
                assert(node(function, row, 2 * i + 1) is Some);
                assert(node(function, row, 2 * i + 2) is Some);
                if level > 0 {
                    lemma_pow2_strictly_increases(above, levels);
                }
            }
        }
    } else {
        lemma_root_hash_fails(function, empty, hashes, depth, message);
    }
}

/// No more nodes of a level are before those on the right than it has.
pub(crate) proof fn lemma_before_right(unchanged: Unchanged, size: nat, level: nat)
    requires
        is_pow2(size as int),
        level_start(size, level) >= 0,
        unchanged.right matches Some(right) ==> right <= size,
    ensures
        unchanged.before_right(size, level) <= level_start(size, level) + 1,
    decreases level,
{
    if level > 0 {
        let below = (level - 1) as nat;
        lemma_levels_ordered(size, below, level);
        lemma_level_start(size, below);
        lemma_before_right(unchanged, size, below);
    }
}

/// What a tree with leaves appended to it is, over the leaves.
pub open spec fn appended<LH: LeafHash<Hash = PH::Hash>, PH: PathHash, const DEPTH: u8>(
    tree: MerkleTree<LH, PH, DEPTH>,
    new_leaves: Seq<LH::Leaf>,
    result: Result<MerkleTree<LH, PH, DEPTH>, Error>,
) -> bool {
    let leaves = tree@.len() + new_leaves.len();
    &&& count_refused(leaves, DEPTH) ==> refuses_count(leaves, DEPTH, result)
    &&& !count_refused(leaves, DEPTH) ==> {
        &&& grown(
            tree.leaf_function(),
            tree.path_function(),
            tree.empty(),
            tree@,
            new_leaves,
            result,
        )
        &&& leaves <= 128 ==> forall|new_hashes: Seq<PH::Hash>| #[trigger]
            hashed_one_by_one(tree.leaf_function(), new_leaves, new_hashes) && result is Err
                ==> merkle_tree_fails_first(
                tree.path_function(),
                tree.empty(),
                tree@ + new_hashes,
                DEPTH as int,
                result->Err_0->Hash_0@,
            )
    }
    &&& result matches Ok(changed) ==> {
        &&& changed.leaf_function() == tree.leaf_function()
        &&& changed.path_function() == tree.path_function()
        &&& changed.path_empty() == tree.path_empty()
        &&& changed@.len() == leaves
        &&& changed@.take(tree@.len() as int) == tree@
        &&& hashed_one_by_one(
            tree.leaf_function(),
            new_leaves,
            changed@.skip(tree@.len() as int),
        )
    }
}

/// What a tree with its last leaves removed is, over the leaves: at least one leaf and at most all of
/// them can be removed, and the others stay.
pub open spec fn removed<LH: LeafHash<Hash = PH::Hash>, PH: PathHash, const DEPTH: u8>(
    tree: MerkleTree<LH, PH, DEPTH>,
    n: usize,
    result: Result<MerkleTree<LH, PH, DEPTH>, Error>,
) -> bool {
    &&& n == 0 ==> result == Err::<MerkleTree<LH, PH, DEPTH>, Error>(Error::NoLeavesToRemove)
    &&& n > tree@.len() ==> {
        &&& result matches Err(Error::NotEnoughLeaves { requested, available })
        &&& requested == n
        &&& available == tree@.len()
    }
    &&& result matches Ok(changed) ==> {
        &&& 1 <= n <= tree@.len()
        &&& changed@.len() + n == tree@.len()
        &&& forall|i: int| 0 <= i < changed@.len() ==> #[trigger] changed@[i] == tree@[i]
        &&& changed.wf()
        &&& changed.leaf_function() == tree.leaf_function()
        &&& changed.path_function() == tree.path_function()
        &&& changed.path_empty() == tree.path_empty()
        &&& changed.empty() == tree.empty()
    }
    &&& 1 <= n <= tree@.len() ==> {
        let hashes = tree@.take(tree@.len() - n);
        &&& result is Ok <==> has_merkle_tree(
            tree.path_function(),
            tree.empty(),
            hashes,
            DEPTH as int,
        )
        &&& result is Err ==> {
            &&& result->Err_0 is Hash
            &&& merkle_tree_fails(
                tree.path_function(),
                tree.empty(),
                hashes,
                DEPTH as int,
                result->Err_0->Hash_0@,
            )
            &&& tree@.len() <= 128 ==> merkle_tree_fails_first(
                tree.path_function(),
                tree.empty(),
                hashes,
                DEPTH as int,
                result->Err_0->Hash_0@,
            )
        }
    }
}

/// Appending, as the model has it, over the leaves.
proof fn lemma_appended<LH: LeafHash<Hash = PH::Hash>, PH: PathHash, const DEPTH: u8>(
    tree: MerkleTree<LH, PH, DEPTH>,
    new_leaves: Seq<LH::Leaf>,
    result: Result<MerkleTree<LH, PH, DEPTH>, Error>,
)
    requires
        tree.wf(),
        tree.append_outcome(new_leaves, result),
    ensures
        appended(tree, new_leaves, result),
{
    let leaves = tree@.len() + new_leaves.len();
    let new_hashes = hashes_of(tree.leaf_function(), new_leaves);
    let hashes = tree@ + new_hashes;
    law_depths(DEPTH);
    law_leaf_counts(leaves, DEPTH);
    lemma_hashed_one_by_one(tree.leaf_function(), new_leaves);
    lemma_size_bounds(leaves, DEPTH);
    lemma_width_is_least(leaves);
    if !count_refused(leaves, DEPTH) {
        lemma_computable(tree.path_function(), tree.empty(), hashes, DEPTH as nat);
        if let Err(Error::Hash(error)) = result {
            if all_leaves_hash(tree.leaf_function(), new_leaves) {
                lemma_updated_tree_fails(
                    tree.path_function(),
                    tree.empty(),
                    hashes,
                    DEPTH as nat,
                    tree.unchanged(tree@.len(), hashes.len(), hashes.len()),
                    error@,
                );
            }
        }
    }
    if let Ok(changed) = result {
        assert(changed@.take(tree@.len() as int) =~= tree@);
        assert(changed@.skip(tree@.len() as int) =~= new_hashes);
    }
}

/// Removing, as the model has it, over the leaves.
proof fn lemma_removed<LH: LeafHash<Hash = PH::Hash>, PH: PathHash, const DEPTH: u8>(
    tree: MerkleTree<LH, PH, DEPTH>,
    n: usize,
    result: Result<MerkleTree<LH, PH, DEPTH>, Error>,
)
    requires
        tree.wf(),
        tree.removal_outcome(n, result),
    ensures
        removed(tree, n, result),
{
    law_leaf_counts(tree@.len(), DEPTH);
    lemma_needed_for_usize(tree@.len());
    if 1 <= n <= tree@.len() {
        let hashes = tree@.take(tree@.len() - n);
        lemma_size_bounds(tree@.len(), DEPTH);
        lemma_height_monotone(hashes.len(), tree@.len());
        lemma_width_is_least(tree@.len());
        lemma_computable(tree.path_function(), tree.empty(), hashes, DEPTH as nat);
        if let Err(Error::Hash(error)) = result {
            lemma_updated_tree_fails(
                tree.path_function(),
                tree.empty(),
                hashes,
                DEPTH as nat,
                tree.unchanged(hashes.len(), hashes.len(), tree@.len()),
                error@,
            );
        }
    }
}

/// A number of leaves that can be counted is a `usize`.
proof fn lemma_needed_for_usize(leaves: nat)
    requires
        leaves <= pow2((usize::BITS - 1) as nat),
    ensures
        leaves <= usize::MAX,
{
    vstd::layout::unsigned_int_max_values();
    lemma_pow2_unfold(usize::BITS as nat);
    lemma_pow2_pos((usize::BITS - 1) as nat);
}

/// Whatever `prepare_append` returns.
///
/// - It refuses a number of leaves that would be too large.
/// - Otherwise it fails where the hash of a new leaf does, and then where the hash of a node in the
///   tree over all leaf hashes does, each time with the reason of such a failure; up to 128 leaves,
///   it is that of the first node on its level.
/// - Otherwise it gives a tree over the leaf hashes that were there, followed by those of the new
///   leaves, with the same hash functions.
pub proof fn law_prepare_append<LH: LeafHash<Hash = PH::Hash>, PH: PathHash, const DEPTH: u8>(
    tree: MerkleTree<LH, PH, DEPTH>,
    new_leaves: &[LH::Leaf],
    result: Result<MerkleTree<LH, PH, DEPTH>, Error>,
)
    requires
        tree.wf(),
        call_ensures(MerkleTree::<LH, PH, DEPTH>::prepare_append, (&tree, new_leaves), result),
    ensures
        appended(tree, new_leaves@, result),
{
    lemma_appended(tree, new_leaves@, result);
}

/// Whatever `append` returns: it makes the tree what `prepare_append` gives, or leaves it as it was
/// and fails where `prepare_append` fails.
pub proof fn law_append<LH: LeafHash<Hash = PH::Hash>, PH: PathHash, const DEPTH: u8>(
    tree: &mut MerkleTree<LH, PH, DEPTH>,
    new_leaves: &[LH::Leaf],
    result: Result<(), Error>,
)
    requires
        tree.wf(),
        call_ensures(MerkleTree::<LH, PH, DEPTH>::append, (tree, new_leaves), result),
    ensures
        match result {
            Ok(_) => appended(*old(tree), new_leaves@, Ok(*final(tree))),
            Err(error) => appended(*old(tree), new_leaves@, Err(error)) && *final(tree) == *old(
                tree,
            ),
        },
{
    match result {
        Ok(_) => {
            lemma_appended(*old(tree), new_leaves@, Ok(*final(tree)));
        },
        Err(error) => {
            lemma_appended(*old(tree), new_leaves@, Err(error));
        },
    }
}

/// Whatever `prepare_remove_last_n` returns.
///
/// - It succeeds only where at least one leaf and at most all of them are removed; the leaf hashes
///   that it leaves are the first ones, and there are `n` fewer of them.
/// - It refuses to remove none, and more than there are; the error tells how many were asked for, and
///   how many there are.
/// - Otherwise it fails exactly where the hash of a node in the tree over the remaining leaf hashes
///   does.
pub proof fn law_prepare_remove_last_n<
    LH: LeafHash<Hash = PH::Hash>,
    PH: PathHash,
    const DEPTH: u8,
>(
    tree: MerkleTree<LH, PH, DEPTH>,
    n: usize,
    result: Result<MerkleTree<LH, PH, DEPTH>, Error>,
)
    requires
        tree.wf(),
        call_ensures(MerkleTree::<LH, PH, DEPTH>::prepare_remove_last_n, (&tree, n), result),
    ensures
        removed(tree, n, result),
        result matches Ok(changed) ==> {
            &&& 1 <= n <= tree@.len()
            &&& changed@.len() + n == tree@.len()
            &&& forall|i: int| 0 <= i < changed@.len() ==> #[trigger] changed@[i] == tree@[i]
        },
        n == 0 ==> result == Err::<MerkleTree<LH, PH, DEPTH>, Error>(Error::NoLeavesToRemove),
        n > tree@.len() ==> {
            &&& result matches Err(Error::NotEnoughLeaves { requested, available })
            &&& requested == n
            &&& available == tree@.len()
        },
        1 <= n <= tree@.len() && (forall|left: PH::Hash, right: PH::Hash| #[trigger]
            tree.path_function()(left, right) is Ok) ==> result is Ok,
{
    if forall|left: PH::Hash, right: PH::Hash| #[trigger] tree.path_function()(left, right) is Ok {
        law_total_function_has_root(
            tree.path_function(),
            tree.empty(),
            tree@.take(tree@.len() - n),
            DEPTH as nat,
        );
    }
    lemma_removed(tree, n, result);
}

/// Whatever `remove_last_n` returns: it makes the tree what `prepare_remove_last_n` gives, or leaves
/// it as it was and fails where `prepare_remove_last_n` fails.
pub proof fn law_remove_last_n<LH: LeafHash<Hash = PH::Hash>, PH: PathHash, const DEPTH: u8>(
    tree: &mut MerkleTree<LH, PH, DEPTH>,
    n: usize,
    result: Result<(), Error>,
)
    requires
        tree.wf(),
        call_ensures(MerkleTree::<LH, PH, DEPTH>::remove_last_n, (tree, n), result),
    ensures
        match result {
            Ok(_) => {
                &&& removed(*old(tree), n, Ok(*final(tree)))
                &&& 1 <= n <= old(tree)@.len()
                &&& final(tree)@.len() + n == old(tree)@.len()
                &&& forall|i: int|
                    0 <= i < final(tree)@.len() ==> #[trigger] final(tree)@[i] == old(tree)@[i]
            },
            Err(error) => removed(*old(tree), n, Err(error)) && *final(tree) == *old(tree),
        },
        n == 0 ==> result == Err::<(), Error>(Error::NoLeavesToRemove),
        n > old(tree)@.len() ==> {
            &&& result matches Err(Error::NotEnoughLeaves { requested, available })
            &&& requested == n
            &&& available == old(tree)@.len()
        },
        1 <= n <= old(tree)@.len() && (forall|left: PH::Hash, right: PH::Hash| #[trigger]
            old(tree).path_function()(left, right) is Ok) ==> result is Ok,
{
    if forall|left: PH::Hash, right: PH::Hash| #[trigger]
        old(tree).path_function()(left, right) is Ok {
        law_total_function_has_root(
            old(tree).path_function(),
            old(tree).empty(),
            old(tree)@.take(old(tree)@.len() - n),
            DEPTH as nat,
        );
    }
    match result {
        Ok(_) => {
            lemma_removed(*old(tree), n, Ok(*final(tree)));
        },
        Err(error) => {
            lemma_removed(*old(tree), n, Err(error));
        },
    }
}

/// With hash functions that never fail, `new` succeeds exactly for every depth from 1 to 64 and every
/// number of leaves that is at most `2^DEPTH`, at most `2^51`, and at most half of what a `usize` can
/// count.
pub proof fn law_new_succeeds<LH: LeafHash<Hash = PH::Hash>, PH: PathHash, const DEPTH: u8>(
    leaf_hasher: LH,
    path_hasher: PH,
    leaves: &[LH::Leaf],
    result: Result<MerkleTree<LH, PH, DEPTH>, Error>,
)
    requires
        forall|leaf: LH::Leaf| #[trigger] leaf_hasher.function()(leaf) is Ok,
        forall|left: PH::Hash, right: PH::Hash| #[trigger]
            path_hasher.function()(left, right) is Ok,
        path_hasher.empty() is Ok,
        call_ensures(
            MerkleTree::<LH, PH, DEPTH>::new,
            (&leaf_hasher, &path_hasher, leaves),
            result,
        ),
    ensures
        result is Ok <==> {
            &&& 1 <= DEPTH <= 64
            &&& leaves@.len() <= pow2(DEPTH as nat)
            &&& leaves@.len() <= pow2(51)
            &&& leaves@.len() <= pow2((usize::BITS - 1) as nat)
        },
        result matches Ok(tree) ==> {
            &&& tree.wf()
            &&& tree@.len() == leaves@.len()
            &&& forall|i: int|
                0 <= i < leaves@.len() ==> leaf_hasher.function()(#[trigger] leaves@[i]) == Ok::<
                    PH::Hash,
                    Seq<char>,
                >(tree@[i])
        },
{
    law_depths(DEPTH);
    law_leaf_counts(leaves@.len(), DEPTH);
    lemma_hashed_one_by_one(leaf_hasher.function(), leaves@);
    law_total_function_has_root(
        path_hasher.function(),
        path_hasher.empty()->Ok_0,
        hashes_of(leaf_hasher.function(), leaves@),
        DEPTH as nat,
    );
}

/// With hash functions that never fail, `append` succeeds exactly where the number of leaves is then at
/// most `2^DEPTH`, at most `2^51`, and at most half of what a `usize` can count. The leaf hashes that
/// were there stay, and those of the new leaves follow.
pub proof fn law_append_succeeds<LH: LeafHash<Hash = PH::Hash>, PH: PathHash, const DEPTH: u8>(
    tree: &mut MerkleTree<LH, PH, DEPTH>,
    new_leaves: &[LH::Leaf],
    result: Result<(), Error>,
)
    requires
        tree.wf(),
        forall|leaf: LH::Leaf| #[trigger] tree.leaf_function()(leaf) is Ok,
        forall|left: PH::Hash, right: PH::Hash| #[trigger]
            tree.path_function()(left, right) is Ok,
        call_ensures(MerkleTree::<LH, PH, DEPTH>::append, (tree, new_leaves), result),
    ensures
        result is Ok <==> {
            &&& old(tree)@.len() + new_leaves@.len() <= pow2(DEPTH as nat)
            &&& old(tree)@.len() + new_leaves@.len() <= pow2(51)
            &&& old(tree)@.len() + new_leaves@.len() <= pow2((usize::BITS - 1) as nat)
        },
        result is Ok ==> {
            &&& final(tree).wf()
            &&& final(tree)@.len() == old(tree)@.len() + new_leaves@.len()
            &&& forall|i: int|
                0 <= i < old(tree)@.len() ==> #[trigger] final(tree)@[i] == old(tree)@[i]
            &&& forall|i: int|
                0 <= i < new_leaves@.len() ==> old(tree).leaf_function()(#[trigger] new_leaves@[i])
                    == Ok::<PH::Hash, Seq<char>>(final(tree)@[old(tree)@.len() + i])
        },
        result is Err ==> *final(tree) == *old(tree),
{
    let hashes = old(tree)@ + hashes_of(old(tree).leaf_function(), new_leaves@);
    law_leaf_counts(old(tree)@.len() + new_leaves@.len(), DEPTH);
    lemma_hashed_one_by_one(old(tree).leaf_function(), new_leaves@);
    law_total_function_has_root(
        old(tree).path_function(),
        old(tree).empty(),
        hashes,
        DEPTH as nat,
    );
}

/// A step of a list is the hash of the step before it and of a sibling, which is the right one or the
/// left one of the two as the index, divided by two as often as there were steps, is even or odd.
pub open spec fn climbs<H>(
    function: PathFunction<H>,
    index: nat,
    siblings: Seq<H>,
    steps: Seq<H>,
    step: int,
) -> bool {
    let above = if (index / pow2(step as nat)) % 2 == 0 {
        function(steps[step], siblings[step])
    } else {
        function(siblings[step], steps[step])
    };
    above == Ok::<H, Seq<char>>(steps[step + 1])
}

/// The steps lead from a hash at an index along the siblings to a root.
pub open spec fn leads_to<H>(
    function: PathFunction<H>,
    hash: H,
    index: nat,
    siblings: Seq<H>,
    root: H,
    steps: Seq<H>,
) -> bool {
    &&& steps.len() == siblings.len() + 1
    &&& steps[0] == hash
    &&& steps.last() == root
    &&& forall|step: int|
        0 <= step < siblings.len() ==> #[trigger] climbs(function, index, siblings, steps, step)
}

/// Dividing by two, and then by a power of two, is dividing by the next power of two.
proof fn lemma_half_first(index: nat, power: nat)
    ensures
        (index / 2) / pow2(power) == index / pow2(power + 1),
{
    lemma_pow2_unfold(power + 1);
    lemma_pow2_pos(power);
    lemma_div_denominator(index as int, 2, pow2(power) as int);
}

/// The first step up leaves a shorter way.
proof fn lemma_climb_first<H>(
    function: PathFunction<H>,
    index: nat,
    siblings: Seq<H>,
    steps: Seq<H>,
    step: int,
)
    requires
        0 <= step,
        step + 1 < siblings.len(),
        steps.len() == siblings.len() + 1,
    ensures
        climbs(function, index, siblings, steps, step + 1) == climbs(
            function,
            index / 2,
            siblings.drop_first(),
            steps.drop_first(),
            step,
        ),
{
    lemma_half_first(index, step as nat);
}

/// The root of a path is where its steps lead.
proof fn lemma_steps_to_root<H>(
    function: PathFunction<H>,
    hash: H,
    index: nat,
    siblings: Seq<H>,
    root: H,
    steps: Seq<H>,
)
    requires
        leads_to(function, hash, index, siblings, root, steps),
    ensures
        path_root(function, hash, index, siblings) == Some(root),
    decreases siblings.len(),
{
    if siblings.len() > 0 {
        lemma2_to64();
        assert(climbs(function, index, siblings, steps, 0));
        lemma_undivided(index);
        let rest = siblings.drop_first();
        let higher = steps.drop_first();
        assert forall|step: int| 0 <= step < rest.len() implies #[trigger] climbs(
            function,
            index / 2,
            rest,
            higher,
            step,
        ) by {
            lemma_climb_first(function, index, siblings, steps, step);
            assert(climbs(function, index, siblings, steps, step + 1));
        }
        lemma_steps_to_root(function, steps[1], index / 2, rest, root, higher);
    }
}

/// A number that is not divided is the same.
proof fn lemma_undivided(index: nat)
    ensures
        index / pow2(0) == index,
{
    lemma2_to64();
    let one = pow2(0);
    assert(index / one == index) by (nonlinear_arith)
        requires
            one == 1,
    ;
}

/// Where a path has a root, steps lead there.
proof fn lemma_root_has_steps<H>(
    function: PathFunction<H>,
    hash: H,
    index: nat,
    siblings: Seq<H>,
) -> (steps: Seq<H>)
    requires
        path_root(function, hash, index, siblings) is Some,
    ensures
        leads_to(
            function,
            hash,
            index,
            siblings,
            path_root(function, hash, index, siblings)->0,
            steps,
        ),
    decreases siblings.len(),
{
    if siblings.len() == 0 {
        seq![hash]
    } else {
        lemma_undivided(index);
        let above = if index % 2 == 0 {
            function(hash, siblings[0])
        } else {
            function(siblings[0], hash)
        };
        let rest = siblings.drop_first();
        let higher = lemma_root_has_steps(function, above->Ok_0, index / 2, rest);
        let steps = seq![hash] + higher;
        assert(steps.drop_first() =~= higher);
        assert forall|step: int| 0 <= step < siblings.len() implies #[trigger] climbs(
            function,
            index,
            siblings,
            steps,
            step,
        ) by {
            if step > 0 {
                lemma_climb_first(function, index, siblings, steps, step - 1);
                assert(climbs(function, index / 2, rest, higher, step - 1));
            }
        }
        assert(steps.last() == higher.last());
        steps
    }
}

/// A path of a tree of the given depth leads from a leaf to a root: the depth is from 1 to 64, the
/// index is less than `2^depth`, there are as many siblings as levels, the leaf has a hash, and steps
/// lead from this hash to the root.
pub open spec fn accepts<L, H>(
    leaf_function: LeafFunction<L, H>,
    path_function: PathFunction<H>,
    depth: u8,
    index: nat,
    siblings: Seq<H>,
    root: H,
    leaf: L,
) -> bool {
    &&& 1 <= depth <= 64
    &&& index < pow2(depth as nat)
    &&& siblings.len() == depth
    &&& leaf_function(leaf) is Ok
    &&& exists|steps: Seq<H>|
        #[trigger] leads_to(
            path_function,
            leaf_function(leaf)->Ok_0,
            index,
            siblings,
            root,
            steps,
        )
}

/// A path leads to a root, as the model has it, exactly where steps do.
proof fn lemma_accepts<L, H>(
    leaf_function: LeafFunction<L, H>,
    path_function: PathFunction<H>,
    depth: u8,
    index: nat,
    siblings: Seq<H>,
    root: H,
    leaf: L,
)
    ensures
        path_leads_to(leaf_function, path_function, depth, index, siblings, root, leaf) <==> accepts(
            leaf_function,
            path_function,
            depth,
            index,
            siblings,
            root,
            leaf,
        ),
{
    let hash = leaf_function(leaf)->Ok_0;
    law_depths(depth);
    if path_root(path_function, hash, index, siblings) is Some {
        let steps = lemma_root_has_steps(path_function, hash, index, siblings);
    }
    if accepts(leaf_function, path_function, depth, index, siblings, root, leaf) {
        let steps = choose|steps: Seq<H>|
            leads_to(path_function, hash, index, siblings, root, steps);
        lemma_steps_to_root(path_function, hash, index, siblings, root, steps);
    }
}

/// Whatever `verify` of a path returns: it is true exactly where the path leads from the leaf to the
/// root.
pub proof fn law_path_verify<LH: LeafHash<Hash = PH::Hash>, PH: PathHash, const DEPTH: u8>(
    path: MerklePath<PH::Hash, DEPTH>,
    leaf_hasher: LH,
    path_hasher: PH,
    root: PH::Hash,
    leaf: LH::Leaf,
    valid: bool,
)
    requires
        call_ensures(
            MerklePath::<PH::Hash, DEPTH>::verify::<LH, PH>,
            (&path, &leaf_hasher, &path_hasher, &root, &leaf),
            valid,
        ),
    ensures
        valid <==> accepts(
            leaf_hasher.function(),
            path_hasher.function(),
            DEPTH,
            path.index(),
            path.hashes(),
            root,
            leaf,
        ),
{
    lemma_accepts(
        leaf_hasher.function(),
        path_hasher.function(),
        DEPTH,
        path.index(),
        path.hashes(),
        root,
        leaf,
    );
}

/// Whatever `verify` of a tree returns: it is true exactly where the path leads from the leaf to the
/// root by the hash functions of the tree, whichever leaves the tree has.
pub proof fn law_verify<LH: LeafHash<Hash = PH::Hash>, PH: PathHash, const DEPTH: u8>(
    tree: MerkleTree<LH, PH, DEPTH>,
    path: MerklePath<PH::Hash, DEPTH>,
    root: PH::Hash,
    leaf: LH::Leaf,
    valid: bool,
)
    requires
        call_ensures(
            MerkleTree::<LH, PH, DEPTH>::verify,
            (&tree, &path, &root, &leaf),
            valid,
        ),
    ensures
        valid <==> accepts(
            tree.leaf_function(),
            tree.path_function(),
            DEPTH,
            path.index(),
            path.hashes(),
            root,
            leaf,
        ),
{
    lemma_accepts(
        tree.leaf_function(),
        tree.path_function(),
        DEPTH,
        path.index(),
        path.hashes(),
        root,
        leaf,
    );
}

/// The position of the other node below the same node.
pub open spec fn beside(position: int) -> int {
    if position % 2 == 0 {
        position + 1
    } else {
        position - 1
    }
}

/// The siblings are those of the leaf at an index: on each level of the tree, the other of the two
/// nodes below the next one on the way up; and then empty hashes.
pub open spec fn siblings_of_leaf<H>(
    empty: H,
    depth: int,
    levels: nat,
    nodes: Seq<H>,
    leaf_index: nat,
    siblings: Seq<H>,
) -> bool {
    &&& siblings.len() == depth
    &&& forall|level: int|
        0 <= level < levels ==> #[trigger] siblings[level] == nodes[pow2(
            (levels - level) as nat,
        ) - 1 + beside((leaf_index / pow2(level as nat)) as int)]
    &&& forall|level: int| levels <= level < depth ==> #[trigger] siblings[level] == empty
}

/// Whatever `prove` returns.
///
/// - It succeeds exactly where the tree has the hash of the leaf at the index.
/// - The path is at the index that was asked for, its siblings are those of this leaf, and `verify`
///   accepts it for the root of the tree and the leaf.
/// - Otherwise it says that there is no leaf at the index, or why the leaf has no hash, or that it is
///   another leaf.
pub proof fn law_prove<LH: LeafHash<Hash = PH::Hash>, PH: PathHash, const DEPTH: u8>(
    tree: MerkleTree<LH, PH, DEPTH>,
    leaf_index: usize,
    leaf: LH::Leaf,
    result: Result<MerklePath<PH::Hash, DEPTH>, Error>,
)
    requires
        tree.wf(),
        call_ensures(
            MerkleTree::<LH, PH, DEPTH>::prove,
            (&tree, leaf_index, &leaf),
            result,
        ),
    ensures
        result is Ok <==> {
            &&& leaf_index < tree@.len()
            &&& tree.leaf_function()(leaf) == Ok::<PH::Hash, Seq<char>>(tree@[leaf_index as int])
        },
        result matches Ok(path) ==> {
            &&& path.index() == leaf_index
            &&& accepts(
                tree.leaf_function(),
                tree.path_function(),
                DEPTH,
                leaf_index as nat,
                path.hashes(),
                tree.root_hash(),
                leaf,
            )
            &&& exists|levels: nat|
                {
                    &&& tree@.len() <= #[trigger] pow2(levels)
                    &&& levels > 0 ==> tree@.len() > pow2((levels - 1) as nat)
                    &&& siblings_of_leaf(
                        tree.empty(),
                        DEPTH as int,
                        levels,
                        tree.nodes(),
                        leaf_index as nat,
                        path.hashes(),
                    )
                }
        },
        leaf_index >= tree@.len() ==> result == Err::<MerklePath<PH::Hash, DEPTH>, Error>(
            Error::LeafIndexOutOfBounds,
        ),
        leaf_index < tree@.len() && tree.leaf_function()(leaf) is Err ==> fails_with(
            result,
            tree.leaf_function()(leaf)->Err_0,
        ),
        leaf_index < tree@.len() && tree.leaf_function()(leaf) is Ok && tree.leaf_function()(
            leaf,
        )->Ok_0 != tree@[leaf_index as int] ==> result == Err::<
            MerklePath<PH::Hash, DEPTH>,
            Error,
        >(Error::LeafMismatch),
{
    if let Ok(path) = result {
        let leaves = tree@.len();
        let levels = height(leaves);
        law_proof_verifies(tree, leaf_index as nat, leaf, path);
        lemma_accepts(
            tree.leaf_function(),
            tree.path_function(),
            DEPTH,
            path.index(),
            path.hashes(),
            tree.root_hash(),
            leaf,
        );
        lemma_path_length(tree, leaf_index as nat);
        lemma_height_is_needed(leaves);
        assert forall|level: int| 0 <= level < levels implies #[trigger] path.hashes()[level]
            == tree.nodes()[pow2((levels - level) as nat) - 1 + beside(
            (leaf_index as nat / pow2(level as nat)) as int,
        )] by {
            let position = leaf_index as nat / pow2(level as nat);
            lemma_sibling_at(tree.nodes(), levels, leaf_index as nat, level as nat);
            lemma_pow2_pos(level as nat);
            lemma_div_pos_is_pos(leaf_index as int, pow2(level as nat) as int);
            assert(neighbour(position) == beside(position as int));
            assert(path.hashes()[level] == siblings_above(
                tree.nodes(),
                width(leaves) - 1 + leaf_index as nat,
            )[level]);
        }
        assert(siblings_of_leaf(
            tree.empty(),
            DEPTH as int,
            levels,
            tree.nodes(),
            leaf_index as nat,
            path.hashes(),
        ));
    }
}

/// Whatever the parts of a path give: a path of the depth from 1 to 64, with an index below `2^DEPTH`
/// and as many siblings as levels; and it gives these parts back.
pub proof fn law_path_parts<H: Copy + PartialEq, const DEPTH: u8>(
    parts: (u64, Vec<H>),
    result: Result<MerklePath<H, DEPTH>, Error>,
    leaf_index: u64,
    siblings: &[H],
)
    requires
        call_ensures(MerklePath::<H, DEPTH>::try_from, (parts,), result),
        result is Ok ==> call_ensures(
            MerklePath::<H, DEPTH>::leaf_index,
            (&result->Ok_0,),
            leaf_index,
        ),
        result is Ok ==> call_ensures(
            MerklePath::<H, DEPTH>::siblings,
            (&result->Ok_0,),
            siblings,
        ),
    ensures
        result is Ok <==> {
            &&& 1 <= DEPTH <= 64
            &&& parts.0 < pow2(DEPTH as nat)
            &&& parts.1@.len() == DEPTH
        },
        result matches Ok(path) ==> {
            &&& path.index() == parts.0
            &&& path.hashes() == parts.1@
            &&& leaf_index == parts.0
            &&& siblings@ == parts.1@
        },
        DEPTH == 0 ==> result == Err::<MerklePath<H, DEPTH>, Error>(Error::ZeroDepth),
        DEPTH > 64 ==> result == Err::<MerklePath<H, DEPTH>, Error>(Error::DepthTooLarge),
        1 <= DEPTH <= 64 && parts.0 >= pow2(DEPTH as nat) ==> result == Err::<
            MerklePath<H, DEPTH>,
            Error,
        >(Error::LeafIndexOutOfBounds),
        1 <= DEPTH <= 64 && parts.0 < pow2(DEPTH as nat) && parts.1@.len() != DEPTH ==> result
            == Err::<MerklePath<H, DEPTH>, Error>(Error::PathLengthMismatch),
{
    law_depths(DEPTH);
}

/// What the parts of a path are, given by its own functions.
pub proof fn law_path_is_read<H: Copy + PartialEq, const DEPTH: u8>(
    path: MerklePath<H, DEPTH>,
    leaf_index: u64,
    siblings: &[H],
)
    requires
        call_ensures(MerklePath::<H, DEPTH>::leaf_index, (&path,), leaf_index),
        call_ensures(MerklePath::<H, DEPTH>::siblings, (&path,), siblings),
    ensures
        leaf_index == path.index(),
        siblings@ == path.hashes(),
{
}

/// What is read from a tree: its leaf hashes and their number, the nodes above them, the empty hash,
/// and the root, which together are those of a Merkle tree.
pub proof fn law_tree_is_read<LH: LeafHash<Hash = PH::Hash>, PH: PathHash, const DEPTH: u8>(
    tree: MerkleTree<LH, PH, DEPTH>,
    leaf_hashes: Result<&[PH::Hash], Error>,
    number_of_leaves: usize,
    nodes: &[PH::Hash],
    empty_hash: &PH::Hash,
    root: &PH::Hash,
)
    requires
        tree.wf(),
        call_ensures(MerkleTree::<LH, PH, DEPTH>::leaf_hashes, (&tree,), leaf_hashes),
        call_ensures(MerkleTree::<LH, PH, DEPTH>::number_of_leaves, (&tree,), number_of_leaves),
        call_ensures(MerkleTree::<LH, PH, DEPTH>::tree, (&tree,), nodes),
        call_ensures(MerkleTree::<LH, PH, DEPTH>::empty_hash, (&tree,), empty_hash),
        call_ensures(MerkleTree::<LH, PH, DEPTH>::root, (&tree,), root),
    ensures
        leaf_hashes matches Ok(hashes) && hashes@ == tree@,
        number_of_leaves == tree@.len(),
        *empty_hash == tree.empty(),
        *root == tree.root_hash(),
        2 * nodes@.len() + 1 == tree.nodes().len(),
        nodes@ == tree.nodes().take(nodes@.len() as int),
        exists|levels: nat, steps: Seq<PH::Hash>|
            {
                &&& #[trigger] is_merkle_tree(
                    tree.path_function(),
                    *empty_hash,
                    tree@,
                    DEPTH as int,
                    levels,
                    tree.nodes(),
                    steps,
                )
                &&& steps.last() == *root
                &&& nodes@.len() == pow2(levels) - 1
            },
{
    let parts = law_tree_is_made_of_its_leaves(tree);
    lemma_width_is_least(tree@.len());
}

/// A clone is the same tree.
pub proof fn law_clone<LH: LeafHash<Hash = PH::Hash>, PH: PathHash, const DEPTH: u8>(
    tree: MerkleTree<LH, PH, DEPTH>,
    copy: MerkleTree<LH, PH, DEPTH>,
)
    requires
        call_ensures(MerkleTree::<LH, PH, DEPTH>::clone, (&tree,), copy),
    ensures
        copy@ == tree@,
        copy.nodes() == tree.nodes(),
        copy.root_hash() == tree.root_hash(),
        copy.empty() == tree.empty(),
        copy.leaf_count() == tree.leaf_count(),
        copy.leaf_function() == tree.leaf_function(),
        copy.path_function() == tree.path_function(),
        copy.path_empty() == tree.path_empty(),
        tree.wf() ==> copy.wf(),
{
}

/// What the logarithm is: the exponent of the largest power of two that is not above the number.
proof fn lemma_floor_log2(n: nat)
    requires
        n >= 1,
    ensures
        pow2(floor_log2(n)) <= n < pow2(floor_log2(n) + 1),
    decreases n,
{
    lemma2_to64();
    if n >= 2 {
        lemma_floor_log2(n / 2);
        lemma_pow2_unfold(floor_log2(n));
        lemma_pow2_unfold(floor_log2(n) + 1);
    }
}

/// Whatever `tree_depth` returns: the exponent of the largest power of two that is not above the
/// number of nodes, where this is at most the depth, and 0 where there are none. `2^52` nodes and more
/// are refused first.
pub proof fn law_tree_depth<const DEPTH: u8>(tree_size: usize, result: Result<u8, Error>)
    requires
        call_ensures(tree_depth::<DEPTH>, (tree_size,), result),
    ensures
        tree_size >= pow2(52) <==> result == Err::<u8, Error>(Error::TreeTooLarge),
        tree_size == 0 ==> result == Ok::<u8, Error>(0),
        1 <= tree_size < pow2(52) ==> match result {
            Ok(depth) => depth <= DEPTH && pow2(depth as nat) <= tree_size < pow2(
                (depth + 1) as nat,
            ),
            Err(Error::DepthExceeded { depth, maximum }) => {
                &&& maximum == DEPTH
                &&& depth > DEPTH
                &&& pow2(depth as nat) <= tree_size < pow2((depth + 1) as nat)
            },
            Err(_) => false,
        },
{
    lemma2_to64_rest();
    if 1 <= tree_size < pow2(52) {
        lemma_floor_log2(tree_size as nat);
        if floor_log2(tree_size as nat) >= 52 {
            if floor_log2(tree_size as nat) > 52 {
                lemma_pow2_strictly_increases(52, floor_log2(tree_size as nat));
            }
        }
    }
}

/// Whatever the functions on indices return: the nodes below the one at `index` are at `2 * index + 1`
/// and `2 * index + 2`, and the functions that lead back from there agree with this.
pub proof fn law_indices(
    index: usize,
    left: usize,
    right: usize,
    root: bool,
    left_one: bool,
    other: Option<usize>,
    above: Option<usize>,
)
    requires
        call_ensures(left_child, (index,), left),
        call_ensures(right_child, (index,), right),
        call_ensures(is_root, (index,), root),
        call_ensures(is_left_child, (index,), left_one),
        call_ensures(sibling, (index,), other),
        call_ensures(parent, (index,), above),
    ensures
        left == 2 * index + 1,
        right == 2 * index + 2,
        root <==> index == 0,
        left_one <==> index % 2 == 1,
        other is None <==> index == 0,
        above is None <==> index == 0,
        index % 2 == 1 ==> other == Some((index + 1) as usize) && index == 2 * above->0 + 1,
        index % 2 == 0 && index > 0 ==> other == Some((index - 1) as usize) && index == 2
            * above->0 + 2,
{
}

/// The number that decimal digits make.
pub open spec fn number_of(digits: Seq<char>) -> int
    decreases digits.len(),
{
    if digits.len() == 0 {
        0
    } else {
        10 * number_of(digits.drop_last()) + (digits.last() as int - '0' as int)
    }
}

/// The digits are those of a number, without a zero before them.
pub open spec fn is_decimal(digits: Seq<char>, number: nat) -> bool {
    &&& digits.len() > 0
    &&& forall|i: int|
        0 <= i < digits.len() ==> '0' as int <= (#[trigger] digits[i]) as int <= '9' as int
    &&& digits.len() > 1 ==> digits[0] != '0'
    &&& number_of(digits) == number
}

/// The decimal digits of a number are its digits.
proof fn lemma_decimal(number: nat)
    ensures
        is_decimal(decimal(number), number),
        number > 0 ==> decimal(number)[0] != '0',
    decreases number,
{
    let digits = decimal(number);
    if number < 10 {
        assert(digits.drop_last() =~= Seq::<char>::empty());
        assert(number_of(digits.drop_last()) == 0);
    } else {
        lemma_decimal(number / 10);
        lemma_decimal(number % 10);
        assert(digits.drop_last() =~= decimal(number / 10));
        assert(digits[0] == decimal(number / 10)[0]);
        assert(decimal(number % 10).drop_last() =~= Seq::<char>::empty());
        assert(number_of(decimal(number % 10).drop_last()) == 0);
        assert(digits.last() == decimal(number % 10).last());
    }
}

/// What the errors say, word by word; the numbers in them are written with decimal digits.
pub proof fn law_messages(error: Error, message: String)
    requires
        call_ensures(Error::message, (&error,), message),
    ensures
        match error {
            Error::ZeroDepth => message@ == "Merkle tree depth must be greater than 0"@,
            Error::DepthTooLarge => message@
                == "Merkle tree depth must be less than or equal to 64"@,
            Error::LeafCountOverflow => message@
                == "Integer overflow when computing the maximum number of leaves in the Merkle tree"@,
            Error::TreeTooLarge => message@ == "Tree size must be less than 2^52"@,
            Error::DepthExceeded { depth, maximum } => exists|first: Seq<char>, second: Seq<char>|
                {
                    &&& #[trigger] is_decimal(first, maximum as nat)
                    &&& #[trigger] is_decimal(second, depth as nat)
                    &&& message@ == "Merkle tree cannot exceed depth "@ + first
                        + ": attempted to reach depth "@ + second
                },
            Error::NoLeavesToRemove => message@
                == "Cannot remove zero leaves from the Merkle tree"@,
            Error::NotEnoughLeaves { requested, available } => exists|
                first: Seq<char>,
                second: Seq<char>,
            |
                {
                    &&& #[trigger] is_decimal(first, requested as nat)
                    &&& #[trigger] is_decimal(second, available as nat)
                    &&& message@ == "Failed to remove '"@ + first
                        + "' leaves from the Merkle tree, as it only contains "@ + second
                },
            Error::LeafIndexOutOfBounds => message@
                == "The given Merkle leaf index is out of bounds"@,
            Error::LeafMismatch => message@
                == "The given Merkle leaf does not match the one in the Merkle tree"@,
            Error::PathLengthMismatch => message@ == "Incorrect Merkle path length"@,
            Error::LeftPrecomputed => message@
                == "Failed to process all left precomputed indices in the Merkle tree"@,
            Error::RightPrecomputed => message@
                == "Failed to process all right precomputed indices in the Merkle tree"@,
            Error::Hash(failure) => message@ == failure.message@,
        },
{
    match error {
        Error::DepthExceeded { depth, maximum } => {
            lemma_decimal(depth as nat);
            lemma_decimal(maximum as nat);
        },
        Error::NotEnoughLeaves { requested, available } => {
            lemma_decimal(requested as nat);
            lemma_decimal(available as nat);
        },
        _ => {},
    }
}

/// What the failure of a hash function amounts to is what it says, and nothing else.
pub proof fn law_outcomes<H>(result: Result<H, HashError>)
    ensures
        result matches Ok(hash) ==> outcome(result) == Ok::<H, Seq<char>>(hash),
        result matches Err(error) ==> {
            &&& error@ == error.message@
            &&& outcome(result) == Err::<H, Seq<char>>(error.message@)
        },
{
}

/// Whatever `hash_leaves` returns: the hashes of the leaves one by one, where all of them have one,
/// and otherwise the failure of one of them.
pub proof fn law_hash_leaves<LH: LeafHash>(
    leaf_hasher: LH,
    leaves: &[LH::Leaf],
    result: Result<Vec<LH::Hash>, HashError>,
)
    requires
        call_ensures(LH::hash_leaves, (&leaf_hasher, leaves), result),
    ensures
        result is Ok <==> forall|i: int|
            0 <= i < leaves@.len() ==> leaf_hasher.function()(#[trigger] leaves@[i]) is Ok,
        result matches Ok(hashes) ==> hashed_one_by_one(
            leaf_hasher.function(),
            leaves@,
            hashes@,
        ),
        result matches Err(error) ==> exists|i: int|
            0 <= i < leaves@.len() && leaf_hasher.function()(#[trigger] leaves@[i]) == Err::<
                LH::Hash,
                Seq<char>,
            >(error.message@),
{
    lemma_hashed_one_by_one(leaf_hasher.function(), leaves@);
}

/// Whatever `hash_all_children` returns: the hashes of the pairs one by one, where all of them have
/// one, and otherwise the failure of one of them.
pub proof fn law_hash_all_children<PH: PathHash>(
    path_hasher: PH,
    pairs: &[(PH::Hash, PH::Hash)],
    result: Result<Vec<PH::Hash>, HashError>,
)
    requires
        call_ensures(PH::hash_all_children, (&path_hasher, pairs), result),
    ensures
        result is Ok <==> forall|i: int|
            0 <= i < pairs@.len() ==> path_hasher.function()(
                (#[trigger] pairs@[i]).0,
                pairs@[i].1,
            ) is Ok,
        result matches Ok(hashes) ==> {
            &&& hashes@.len() == pairs@.len()
            &&& forall|i: int|
                0 <= i < pairs@.len() ==> path_hasher.function()(
                    (#[trigger] pairs@[i]).0,
                    pairs@[i].1,
                ) == Ok::<PH::Hash, Seq<char>>(hashes@[i])
        },
        result matches Err(error) ==> exists|i: int|
            0 <= i < pairs@.len() && path_hasher.function()(
                (#[trigger] pairs@[i]).0,
                pairs@[i].1,
            ) == Err::<PH::Hash, Seq<char>>(error.message@),
{
    if let Ok(hashes) = result {
        assert forall|i: int| 0 <= i < pairs@.len() implies path_hasher.function()(
            (#[trigger] pairs@[i]).0,
            pairs@[i].1,
        ) == Ok::<PH::Hash, Seq<char>>(hashes@[i]) by {
            let hash = hashes@[i];
        }
    }
}

/// A tree can be read, proved from, changed and copied whatever the arguments are; appending asks only
/// that the number of leaves is a `usize`. A tree and a path can be made of any arguments.
pub proof fn law_calls_are_admitted<
    LH: LeafHash<Hash = PH::Hash>,
    PH: PathHash,
    const DEPTH: u8,
>(
    leaf_hasher: LH,
    path_hasher: PH,
    tree: MerkleTree<LH, PH, DEPTH>,
    path: MerklePath<PH::Hash, DEPTH>,
    parts: (u64, Vec<PH::Hash>),
    root: PH::Hash,
    leaf: LH::Leaf,
    leaves: &[LH::Leaf],
    number: usize,
)
    requires
        tree.wf(),
    ensures
        call_requires(
            MerkleTree::<LH, PH, DEPTH>::new,
            (&leaf_hasher, &path_hasher, leaves),
        ),
        tree@.len() + leaves@.len() <= usize::MAX ==> call_requires(
            MerkleTree::<LH, PH, DEPTH>::prepare_append,
            (&tree, leaves),
        ),
        call_requires(MerkleTree::<LH, PH, DEPTH>::prepare_remove_last_n, (&tree, number)),
        call_requires(MerkleTree::<LH, PH, DEPTH>::prove, (&tree, number, &leaf)),
        call_requires(MerkleTree::<LH, PH, DEPTH>::verify, (&tree, &path, &root, &leaf)),
        call_requires(MerkleTree::<LH, PH, DEPTH>::leaf_hashes, (&tree,)),
        call_requires(MerkleTree::<LH, PH, DEPTH>::number_of_leaves, (&tree,)),
        call_requires(MerkleTree::<LH, PH, DEPTH>::tree, (&tree,)),
        call_requires(MerkleTree::<LH, PH, DEPTH>::empty_hash, (&tree,)),
        call_requires(MerkleTree::<LH, PH, DEPTH>::root, (&tree,)),
        call_requires(MerkleTree::<LH, PH, DEPTH>::clone, (&tree,)),
        call_requires(MerklePath::<PH::Hash, DEPTH>::try_from, (parts,)),
        call_requires(MerklePath::<PH::Hash, DEPTH>::leaf_index, (&path,)),
        call_requires(MerklePath::<PH::Hash, DEPTH>::siblings, (&path,)),
        call_requires(
            MerklePath::<PH::Hash, DEPTH>::verify::<LH, PH>,
            (&path, &leaf_hasher, &path_hasher, &root, &leaf),
        ),
        call_requires(tree_depth::<DEPTH>, (number,)),
        call_requires(parent, (number,)),
        number < usize::MAX ==> call_requires(sibling, (number,)),
        2 * number + 2 <= usize::MAX ==> call_requires(left_child, (number,)) && call_requires(
            right_child,
            (number,),
        ),
{
}

/// A tree can be changed in place whatever the arguments are; appending asks only that the number of
/// leaves is a `usize`.
pub proof fn law_changes_are_admitted<
    LH: LeafHash<Hash = PH::Hash>,
    PH: PathHash,
    const DEPTH: u8,
>(tree: &mut MerkleTree<LH, PH, DEPTH>, leaves: &[LH::Leaf], number: usize)
    requires
        tree.wf(),
    ensures
        old(tree)@.len() + leaves@.len() <= usize::MAX ==> call_requires(
            MerkleTree::<LH, PH, DEPTH>::append,
            (tree, leaves),
        ),
        call_requires(MerkleTree::<LH, PH, DEPTH>::remove_last_n, (tree, number)),
{
}

} // verus!
