//! What holds of Merkle trees as a whole.
use crate::error::Error;
use crate::hash::{
    all_leaves_hash, hashes_of, LeafFunction, LeafHash, Outcome, PathFunction, PathHash,
};
use crate::index::{parent_of, sibling_of};
use crate::model::{
    empties, hash_pair, hashed_at, hashed_from, leaf_row, lemma_lift_missing,
    lemma_siblings_count, lift, merkle_path, merkle_root, node, padding_depth, path_root,
    siblings_above,
};
use crate::path::{path_leads_to, MerklePath};
use crate::size::{
    height, lemma_pow2_is_pow2, lemma_size_bounds, lemma_width_is_least, size_error,
    width,
};
use crate::tree::MerkleTree;
use vstd::arithmetic::div_mod::{lemma_basic_div, lemma_div_denominator};
use vstd::arithmetic::power2::{
    lemma2_to64, lemma2_to64_rest, lemma_pow2_adds, lemma_pow2_pos, lemma_pow2_strictly_increases,
    lemma_pow2_unfold, pow2,
};
use vstd::prelude::*;

verus! {

/// Combining a hash with the empty hash once, and then a number of times, is combining it once
/// more.
proof fn lemma_lift_first<H>(function: PathFunction<H>, empty: H, hash: H, levels: nat)
    ensures
        lift(function, empty, Some(hash), levels + 1) == lift(
            function,
            empty,
            hash_pair(function, Some(hash), Some(empty)),
            levels,
        ),
    decreases levels,
{
    if levels > 0 {
        lemma_lift_first(function, empty, hash, (levels - 1) as nat);
    } else {
        assert(lift(function, empty, Some(hash), 0) == Some(hash));
    }
}

/// A hash at the left edge leads along empty siblings to the hash, lifted by as many levels.
proof fn lemma_empty_siblings_lift<H>(function: PathFunction<H>, empty: H, hash: H, levels: nat)
    ensures
        path_root(function, hash, 0, empties(empty, levels)) == lift(
            function,
            empty,
            Some(hash),
            levels,
        ),
    decreases levels,
{
    if levels > 0 {
        let fewer = (levels - 1) as nat;
        assert(empties(empty, levels).drop_first() =~= empties(empty, fewer));
        lemma_lift_first(function, empty, hash, fewer);
        match function(hash, empty) {
            Ok(parent) => {
                lemma_empty_siblings_lift(function, empty, parent, fewer);
            },
            Err(_) => {
                lemma_lift_missing(function, empty, None, 0, fewer);
            },
        }
    }
}

/// Where every inner node holds the hash of its children, a node leads along its siblings, and
/// then along further ones, to where the top of the tree leads along those.
proof fn lemma_siblings_lead_to_top<H>(
    function: PathFunction<H>,
    nodes: Seq<H>,
    inner: int,
    levels: nat,
    offset: nat,
    further: Seq<H>,
)
    requires
        nodes.len() == 2 * inner + 1,
        hashed_from(function, nodes, inner, 0),
        offset < pow2(levels),
        pow2(levels) - 1 <= inner,
    ensures
        path_root(
            function,
            nodes[pow2(levels) - 1 + offset],
            offset,
            siblings_above(nodes, pow2(levels) - 1 + offset) + further,
        ) == path_root(function, nodes[0], 0, further),
    decreases levels,
{
    lemma2_to64();
    let index = pow2(levels) - 1 + offset;
    if levels == 0 {
        assert(siblings_above(nodes, index) + further =~= further);
    } else {
        let above = (levels - 1) as nat;
        lemma_pow2_unfold(levels);
        lemma_pow2_pos(above);
        assert(parent_of(index) == pow2(above) - 1 + offset / 2);
        let siblings = siblings_above(nodes, index) + further;
        assert(siblings[0] == nodes[sibling_of(index)]);
        assert(siblings.drop_first() =~= siblings_above(nodes, parent_of(index)) + further);
        assert(hashed_at(function, nodes, parent_of(index)));
        lemma_siblings_lead_to_top(function, nodes, inner, above, offset / 2, further);
    }
}

/// Every inner node of a tree, however the tree came about, holds the hash of its two children.
pub proof fn law_inner_nodes_hash_children<
    LH: LeafHash<Hash = PH::Hash>,
    PH: PathHash,
    const DEPTH: u8,
>(tree: MerkleTree<LH, PH, DEPTH>)
    requires
        tree.wf(),
    ensures
        hashed_from(tree.path_function(), tree.nodes(), width(tree@.len()) - 1, 0),
{
    let function = tree.path_function();
    let row = tree.row();
    let nodes = tree.nodes();
    assert forall|i: int| 0 <= i < width(tree@.len()) - 1 implies #[trigger] hashed_at(
        function,
        nodes,
        i,
    ) by {
        assert(node(function, row, i) == Some(nodes[i]));
        assert(node(function, row, 2 * i + 1) == Some(nodes[2 * i + 1]));
        assert(node(function, row, 2 * i + 2) == Some(nodes[2 * i + 2]));
    }
}

/// The path of every leaf hash of a tree leads to its root.
pub proof fn law_paths_lead_to_root<
    LH: LeafHash<Hash = PH::Hash>,
    PH: PathHash,
    const DEPTH: u8,
>(tree: MerkleTree<LH, PH, DEPTH>, leaf_index: nat)
    requires
        tree.wf(),
        leaf_index < tree@.len(),
    ensures
        path_root(
            tree.path_function(),
            tree@[leaf_index as int],
            leaf_index,
            merkle_path(tree.nodes(), tree.empty(), tree@.len(), DEPTH as nat, leaf_index),
        ) == Some(tree.root_hash()),
{
    let function = tree.path_function();
    let leaves = tree@.len();
    let row = tree.row();
    let inner = width(leaves) - 1;
    let nodes = tree.nodes();
    lemma_width_is_least(leaves);
    law_inner_nodes_hash_children(tree);
    assert(node(function, row, inner + leaf_index) == Some(nodes[inner + leaf_index]));
    assert(node(function, row, 0) == Some(nodes[0]));
    let levels = padding_depth(leaves, DEPTH as nat);
    lemma_siblings_lead_to_top(
        function,
        nodes,
        inner,
        height(leaves),
        leaf_index,
        empties(tree.empty(), levels),
    );
    lemma_empty_siblings_lift(function, tree.empty(), nodes[0], levels);
}

/// Whatever `prove` returns for a leaf, `verify` accepts for the root of the tree and this leaf.
pub proof fn law_proof_verifies<
    LH: LeafHash<Hash = PH::Hash>,
    PH: PathHash,
    const DEPTH: u8,
>(
    tree: MerkleTree<LH, PH, DEPTH>,
    leaf_index: nat,
    leaf: LH::Leaf,
    path: MerklePath<PH::Hash, DEPTH>,
)
    requires
        tree.wf(),
        tree.proof_outcome(leaf_index, leaf, Ok(path)),
    ensures
        path_leads_to(
            tree.leaf_function(),
            tree.path_function(),
            DEPTH,
            path.index(),
            path.hashes(),
            tree.root_hash(),
            leaf,
        ),
{
    law_paths_lead_to_root(tree, leaf_index);
}

/// For a leaf whose hash the tree has at an index, `prove` returns a path at this index, and `verify`
/// accepts it for the root of the tree and this leaf.
pub proof fn law_leaf_in_tree_is_provable<
    LH: LeafHash<Hash = PH::Hash>,
    PH: PathHash,
    const DEPTH: u8,
>(
    tree: MerkleTree<LH, PH, DEPTH>,
    leaf_index: nat,
    leaf: LH::Leaf,
    result: Result<MerklePath<PH::Hash, DEPTH>, Error>,
)
    requires
        tree.wf(),
        leaf_index < tree@.len(),
        tree.leaf_function()(leaf) == Ok::<PH::Hash, Seq<char>>(tree@[leaf_index as int]),
        tree.proof_outcome(leaf_index, leaf, result),
    ensures
        result is Ok,
        result->Ok_0.index() == leaf_index,
        path_leads_to(
            tree.leaf_function(),
            tree.path_function(),
            DEPTH,
            leaf_index,
            result->Ok_0.hashes(),
            tree.root_hash(),
            leaf,
        ),
{
    law_proof_verifies(tree, leaf_index, leaf, result->Ok_0);
}

/// A leaf level, every node above it and the root are determined by the hash functions and the
/// leaf hashes: however two trees came about, they are the same where these are.
pub proof fn law_leaf_hashes_determine_tree<
    LH: LeafHash<Hash = PH::Hash>,
    PH: PathHash,
    const DEPTH: u8,
>(a: MerkleTree<LH, PH, DEPTH>, b: MerkleTree<LH, PH, DEPTH>)
    requires
        a.wf(),
        b.wf(),
        a.hashes_like(&b),
        a@ == b@,
    ensures
        a.leaf_count() == b.leaf_count(),
        a.empty() == b.empty(),
        a.nodes() == b.nodes(),
        a.root_hash() == b.root_hash(),
{
    assert forall|i: int| 0 <= i < a.nodes().len() implies a.nodes()[i] == b.nodes()[i] by {
        assert(node(a.path_function(), a.row(), i) == Some(a.nodes()[i]));
        assert(node(b.path_function(), b.row(), i) == Some(b.nodes()[i]));
    }
    assert(a.nodes() =~= b.nodes());
}

/// Hashing two lists of leaves one after the other is hashing their concatenation.
proof fn lemma_hashes_of_concatenation<L, H>(
    function: LeafFunction<L, H>,
    first: Seq<L>,
    second: Seq<L>,
)
    ensures
        hashes_of(function, first + second) == hashes_of(function, first) + hashes_of(
            function,
            second,
        ),
        all_leaves_hash(function, first + second) <==> all_leaves_hash(function, first)
            && all_leaves_hash(function, second),
{
    let both = first + second;
    assert(hashes_of(function, both) =~= hashes_of(function, first) + hashes_of(function, second));
    if all_leaves_hash(function, both) {
        assert forall|i: int| 0 <= i < first.len() implies function(#[trigger] first[i]) is Ok by {
            assert(both[i] == first[i]);
        }
        assert forall|i: int| 0 <= i < second.len() implies function(
            #[trigger] second[i],
        ) is Ok by {
            assert(both[first.len() + i] == second[i]);
        }
    }
}

/// Appending leaves to the tree of a list of leaves does what making a tree of the longer list
/// does: it succeeds on the same leaves, and gives the same tree.
pub proof fn law_append_agrees_with_new<
    LH: LeafHash<Hash = PH::Hash>,
    PH: PathHash,
    const DEPTH: u8,
>(
    tree: MerkleTree<LH, PH, DEPTH>,
    leaves: Seq<LH::Leaf>,
    new_leaves: Seq<LH::Leaf>,
    appended: Result<MerkleTree<LH, PH, DEPTH>, Error>,
    built: Result<MerkleTree<LH, PH, DEPTH>, Error>,
)
    requires
        MerkleTree::<LH, PH, DEPTH>::build_outcome(
            tree.leaf_function(),
            tree.path_function(),
            tree.path_empty(),
            leaves,
            Ok(tree),
        ),
        tree.append_outcome(new_leaves, appended),
        MerkleTree::<LH, PH, DEPTH>::build_outcome(
            tree.leaf_function(),
            tree.path_function(),
            tree.path_empty(),
            leaves + new_leaves,
            built,
        ),
    ensures
        appended is Ok <==> built is Ok,
        match (appended, built) {
            (Ok(a), Ok(b)) => {
                &&& a.hashes_like(&b)
                &&& a@ == b@
                &&& a.leaf_count() == b.leaf_count()
                &&& a.empty() == b.empty()
                &&& a.nodes() == b.nodes()
                &&& a.root_hash() == b.root_hash()
            },
            (Err(a), Err(b)) => a is Hash && b is Hash || a == b,
            _ => false,
        },
{
    lemma_hashes_of_concatenation(tree.leaf_function(), leaves, new_leaves);
    if let (Ok(a), Ok(b)) = (appended, built) {
        law_leaf_hashes_determine_tree(a, b);
    }
}

/// Appending one list of leaves and then another does what appending both at once does.
pub proof fn law_appends_compose<
    LH: LeafHash<Hash = PH::Hash>,
    PH: PathHash,
    const DEPTH: u8,
>(
    tree: MerkleTree<LH, PH, DEPTH>,
    first: Seq<LH::Leaf>,
    second: Seq<LH::Leaf>,
    halfway: MerkleTree<LH, PH, DEPTH>,
    stepwise: Result<MerkleTree<LH, PH, DEPTH>, Error>,
    at_once: Result<MerkleTree<LH, PH, DEPTH>, Error>,
)
    requires
        tree.wf(),
        tree.append_outcome(first, Ok(halfway)),
        halfway.append_outcome(second, stepwise),
        tree.append_outcome(first + second, at_once),
    ensures
        stepwise is Ok <==> at_once is Ok,
        match (stepwise, at_once) {
            (Ok(a), Ok(b)) => {
                &&& a.hashes_like(&b)
                &&& a@ == b@
                &&& a.leaf_count() == b.leaf_count()
                &&& a.empty() == b.empty()
                &&& a.nodes() == b.nodes()
                &&& a.root_hash() == b.root_hash()
            },
            (Err(a), Err(b)) => a is Hash && b is Hash || a == b,
            _ => false,
        },
{
    let function = tree.leaf_function();
    lemma_hashes_of_concatenation(function, first, second);
    assert(tree@ + hashes_of(function, first) + hashes_of(function, second) =~= tree@ + hashes_of(
        function,
        first + second,
    ));
    if let (Ok(a), Ok(b)) = (stepwise, at_once) {
        law_leaf_hashes_determine_tree(a, b);
    }
}

/// Appending no leaves succeeds and gives the same tree.
pub proof fn law_append_nothing<
    LH: LeafHash<Hash = PH::Hash>,
    PH: PathHash,
    const DEPTH: u8,
>(tree: MerkleTree<LH, PH, DEPTH>, result: Result<MerkleTree<LH, PH, DEPTH>, Error>)
    requires
        tree.wf(),
        tree.append_outcome(Seq::empty(), result),
    ensures
        result is Ok,
        result->Ok_0.wf(),
        result->Ok_0.hashes_like(&tree),
        result->Ok_0@ == tree@,
        result->Ok_0.nodes() == tree.nodes(),
        result->Ok_0.root_hash() == tree.root_hash(),
{
    assert(tree@ + hashes_of(tree.leaf_function(), Seq::<LH::Leaf>::empty()) =~= tree@);
    law_leaf_hashes_determine_tree(result->Ok_0, tree);
}

/// Removing as many leaves as were just appended succeeds and gives the tree back.
pub proof fn law_remove_undoes_append<
    LH: LeafHash<Hash = PH::Hash>,
    PH: PathHash,
    const DEPTH: u8,
>(
    tree: MerkleTree<LH, PH, DEPTH>,
    new_leaves: Seq<LH::Leaf>,
    appended: MerkleTree<LH, PH, DEPTH>,
    n: usize,
    result: Result<MerkleTree<LH, PH, DEPTH>, Error>,
)
    requires
        tree.wf(),
        tree.append_outcome(new_leaves, Ok(appended)),
        n == new_leaves.len(),
        n > 0,
        appended.removal_outcome(n, result),
    ensures
        result is Ok,
        result->Ok_0.wf(),
        result->Ok_0.hashes_like(&tree),
        result->Ok_0@ == tree@,
        result->Ok_0.nodes() == tree.nodes(),
        result->Ok_0.root_hash() == tree.root_hash(),
{
    assert(appended@.take(appended@.len() - n) =~= tree@);
    law_leaf_hashes_determine_tree(result->Ok_0, tree);
}

/// Removing some leaves and then others does what removing all of them at once does.
pub proof fn law_removals_compose<
    LH: LeafHash<Hash = PH::Hash>,
    PH: PathHash,
    const DEPTH: u8,
>(
    tree: MerkleTree<LH, PH, DEPTH>,
    first: usize,
    second: usize,
    total: usize,
    halfway: MerkleTree<LH, PH, DEPTH>,
    stepwise: Result<MerkleTree<LH, PH, DEPTH>, Error>,
    at_once: Result<MerkleTree<LH, PH, DEPTH>, Error>,
)
    requires
        tree.wf(),
        second > 0,
        total == first + second,
        tree.removal_outcome(first, Ok(halfway)),
        halfway.removal_outcome(second, stepwise),
        tree.removal_outcome(total, at_once),
    ensures
        stepwise is Ok <==> at_once is Ok,
        match (stepwise, at_once) {
            (Ok(a), Ok(b)) => {
                &&& a.hashes_like(&b)
                &&& a@ == b@
                &&& a.nodes() == b.nodes()
                &&& a.root_hash() == b.root_hash()
            },
            (Err(a), Err(b)) => a is Hash <==> b is Hash,
            _ => false,
        },
{
    if total <= tree@.len() {
        assert(halfway@.take(halfway@.len() - second) =~= tree@.take(tree@.len() - total));
    }
    if let (Ok(a), Ok(b)) = (stepwise, at_once) {
        law_leaf_hashes_determine_tree(a, b);
    }
}

/// The number of leaves, padded to a power of two, is at most a power of two where the number of
/// leaves is.
pub(crate) proof fn lemma_fits_power(leaves: nat, levels: nat)
    ensures
        leaves <= pow2(levels) <==> height(leaves) <= levels,
        width(leaves) <= pow2(levels) <==> height(leaves) <= levels,
{
    lemma_width_is_least(leaves);
    lemma_pow2_is_pow2(levels);
    if height(leaves) < levels {
        lemma_pow2_strictly_increases(height(leaves), levels);
    } else if levels < height(leaves) {
        lemma_pow2_strictly_increases(levels, height(leaves));
    }
}

/// A tree over this many leaves has less than `2^52` nodes, and their number is a `usize`.
pub open spec fn countable(leaves: nat) -> bool {
    &&& leaves <= pow2(51)
    &&& leaves <= pow2((usize::BITS - 1) as nat)
}

/// Leaves fit a tree of a given depth exactly where there are at most `2^depth` of them, and the
/// nodes over them can be counted.
pub proof fn law_capacity(leaves: nat, depth: u8)
    ensures
        size_error(leaves, depth) is None <==> leaves <= pow2(depth as nat) && countable(leaves),
{
    let bits = usize::BITS as nat;
    vstd::layout::unsigned_int_max_values();
    lemma2_to64_rest();
    lemma_size_bounds(leaves, depth);
    lemma_fits_power(leaves, depth as nat);
    lemma_fits_power(leaves, 51);
    lemma_fits_power(leaves, (bits - 1) as nat);
    lemma_pow2_unfold(bits);
    if height(leaves) >= bits {
        lemma_fits_power(leaves, bits);
        if height(leaves) > bits {
            lemma_pow2_strictly_increases(bits, height(leaves));
        }
    }
}

/// With hash functions that never fail, making a tree succeeds exactly where there are at most
/// `2^DEPTH` leaves. Numbers of leaves that the depth admits, but whose nodes cannot be counted, are
/// left out.
pub proof fn law_new_succeeds_up_to_capacity<
    LH: LeafHash<Hash = PH::Hash>,
    PH: PathHash,
    const DEPTH: u8,
>(
    leaf_function: LeafFunction<LH::Leaf, PH::Hash>,
    path_function: PathFunction<PH::Hash>,
    path_empty: Outcome<PH::Hash>,
    leaves: Seq<LH::Leaf>,
    result: Result<MerkleTree<LH, PH, DEPTH>, Error>,
)
    requires
        1 <= DEPTH <= 64,
        forall|leaf: LH::Leaf| #[trigger] leaf_function(leaf) is Ok,
        forall|left: PH::Hash, right: PH::Hash| #[trigger] path_function(left, right) is Ok,
        path_empty is Ok,
        leaves.len() <= pow2(DEPTH as nat) ==> countable(leaves.len()),
        MerkleTree::<LH, PH, DEPTH>::build_outcome(
            leaf_function,
            path_function,
            path_empty,
            leaves,
            result,
        ),
    ensures
        result is Ok <==> leaves.len() <= pow2(DEPTH as nat),
{
    law_capacity(leaves.len(), DEPTH);
    law_total_function_has_root(
        path_function,
        path_empty->Ok_0,
        hashes_of(leaf_function, leaves),
        DEPTH as nat,
    );
}

/// With hash functions that never fail, appending leaves succeeds exactly where the tree has at
/// most `2^DEPTH` leaves then. Numbers of leaves that the depth admits, but whose nodes cannot be
/// counted, are left out.
pub proof fn law_append_succeeds_up_to_capacity<
    LH: LeafHash<Hash = PH::Hash>,
    PH: PathHash,
    const DEPTH: u8,
>(
    tree: MerkleTree<LH, PH, DEPTH>,
    new_leaves: Seq<LH::Leaf>,
    result: Result<MerkleTree<LH, PH, DEPTH>, Error>,
)
    requires
        tree.wf(),
        forall|leaf: LH::Leaf| #[trigger] tree.leaf_function()(leaf) is Ok,
        forall|left: PH::Hash, right: PH::Hash| #[trigger]
            tree.path_function()(left, right) is Ok,
        tree@.len() + new_leaves.len() <= pow2(DEPTH as nat) ==> countable(
            tree@.len() + new_leaves.len(),
        ),
        tree.append_outcome(new_leaves, result),
    ensures
        result is Ok <==> tree@.len() + new_leaves.len() <= pow2(DEPTH as nat),
{
    law_capacity(tree@.len() + new_leaves.len(), DEPTH);
    law_total_function_has_root(
        tree.path_function(),
        tree.empty(),
        tree@ + hashes_of(tree.leaf_function(), new_leaves),
        DEPTH as nat,
    );
}

/// With hash functions that never fail, appending leaves to the tree of a list of leaves gives the
/// tree of the longer list, up to `2^DEPTH` leaves, and an error beyond. Numbers of leaves that the
/// depth admits, but whose nodes cannot be counted, are left out.
pub proof fn law_append_builds_up_to_capacity<
    LH: LeafHash<Hash = PH::Hash>,
    PH: PathHash,
    const DEPTH: u8,
>(
    tree: MerkleTree<LH, PH, DEPTH>,
    leaves: Seq<LH::Leaf>,
    new_leaves: Seq<LH::Leaf>,
    appended: Result<MerkleTree<LH, PH, DEPTH>, Error>,
    built: Result<MerkleTree<LH, PH, DEPTH>, Error>,
)
    requires
        forall|leaf: LH::Leaf| #[trigger] tree.leaf_function()(leaf) is Ok,
        forall|left: PH::Hash, right: PH::Hash| #[trigger]
            tree.path_function()(left, right) is Ok,
        leaves.len() + new_leaves.len() <= pow2(DEPTH as nat) ==> countable(
            leaves.len() + new_leaves.len(),
        ),
        MerkleTree::<LH, PH, DEPTH>::build_outcome(
            tree.leaf_function(),
            tree.path_function(),
            tree.path_empty(),
            leaves,
            Ok(tree),
        ),
        tree.append_outcome(new_leaves, appended),
        MerkleTree::<LH, PH, DEPTH>::build_outcome(
            tree.leaf_function(),
            tree.path_function(),
            tree.path_empty(),
            leaves + new_leaves,
            built,
        ),
    ensures
        if leaves.len() + new_leaves.len() <= pow2(DEPTH as nat) {
            &&& appended is Ok
            &&& built is Ok
            &&& appended->Ok_0@ == built->Ok_0@
            &&& appended->Ok_0.nodes() == built->Ok_0.nodes()
            &&& appended->Ok_0.root_hash() == built->Ok_0.root_hash()
        } else {
            &&& appended is Err
            &&& built is Err
            &&& appended->Err_0 == built->Err_0
        },
{
    law_append_succeeds_up_to_capacity(tree, new_leaves, appended);
    law_append_agrees_with_new(tree, leaves, new_leaves, appended, built);
    law_capacity(leaves.len() + new_leaves.len(), DEPTH);
}

/// A tree of depth `DEPTH` has at most `2^DEPTH` leaves.
pub proof fn law_leaves_fit_depth<
    LH: LeafHash<Hash = PH::Hash>,
    PH: PathHash,
    const DEPTH: u8,
>(tree: MerkleTree<LH, PH, DEPTH>)
    requires
        tree.wf(),
    ensures
        tree@.len() <= pow2(DEPTH as nat),
{
    law_capacity(tree@.len(), DEPTH);
}

/// With a path function that never fails, there is a root over any leaf hashes.
pub proof fn law_total_function_has_root<H>(
    function: PathFunction<H>,
    empty: H,
    hashes: Seq<H>,
    depth: nat,
)
    requires
        forall|left: H, right: H| #[trigger] function(left, right) is Ok,
    ensures
        merkle_root(function, empty, hashes, depth) is Some,
{
    let row = leaf_row(hashes, empty);
    lemma_width_is_least(hashes.len());
    lemma_total_node(function, row, 0);
    lemma_total_lift(function, empty, node(function, row, 0), padding_depth(hashes.len(), depth));
}

proof fn lemma_total_node<H>(function: PathFunction<H>, row: Seq<H>, index: int)
    requires
        forall|left: H, right: H| #[trigger] function(left, right) is Ok,
        row.len() >= 1,
        0 <= index < 2 * row.len() - 1,
    ensures
        node(function, row, index) is Some,
    decreases 2 * row.len() - index,
{
    if index < row.len() - 1 {
        lemma_total_node(function, row, 2 * index + 1);
        lemma_total_node(function, row, 2 * index + 2);
    }
}

proof fn lemma_total_lift<H>(function: PathFunction<H>, empty: H, hash: Option<H>, levels: nat)
    requires
        forall|left: H, right: H| #[trigger] function(left, right) is Ok,
        hash is Some,
    ensures
        lift(function, empty, hash, levels) is Some,
    decreases levels,
{
    if levels > 0 {
        lemma_total_lift(function, empty, hash, (levels - 1) as nat);
    }
}

/// Two different pairs of children have the same hash.
pub open spec fn has_collision<H>(function: PathFunction<H>) -> bool {
    exists|left: H, right: H, other_left: H, other_right: H|
        {
            &&& (left, right) != (other_left, other_right)
            &&& #[trigger] function(left, right) is Ok
            &&& function(left, right) == #[trigger] function(other_left, other_right)
        }
}

/// A root binds the hash at an index and the siblings that lead from there: where two hashes lead
/// along two lists of siblings to one root, both are the same, unless the path function has a
/// collision.
pub proof fn law_path_binds_hash<H>(
    function: PathFunction<H>,
    index: nat,
    hash: H,
    siblings: Seq<H>,
    other_hash: H,
    other_siblings: Seq<H>,
)
    requires
        siblings.len() == other_siblings.len(),
        path_root(function, hash, index, siblings) is Some,
        path_root(function, hash, index, siblings) == path_root(
            function,
            other_hash,
            index,
            other_siblings,
        ),
    ensures
        hash == other_hash || has_collision(function),
        siblings == other_siblings || has_collision(function),
    decreases siblings.len(),
{
    if siblings.len() > 0 {
        let (left, right) = if index % 2 == 0 {
            (hash, siblings[0])
        } else {
            (siblings[0], hash)
        };
        let (other_left, other_right) = if index % 2 == 0 {
            (other_hash, other_siblings[0])
        } else {
            (other_siblings[0], other_hash)
        };
        let above = function(left, right)->Ok_0;
        let other_above = function(other_left, other_right)->Ok_0;
        law_path_binds_hash(
            function,
            index / 2,
            above,
            siblings.drop_first(),
            other_above,
            other_siblings.drop_first(),
        );
        if !has_collision(function) {
            assert(function(left, right) == function(other_left, other_right));
            assert((left, right) == (other_left, other_right));
            assert(siblings =~= seq![siblings[0]] + siblings.drop_first());
            assert(other_siblings =~= seq![other_siblings[0]] + other_siblings.drop_first());
        }
    } else {
        assert(siblings =~= other_siblings);
    }
}

/// The path of a leaf hash of a tree has as many siblings as the tree is deep.
pub(crate) proof fn lemma_path_length<
    LH: LeafHash<Hash = PH::Hash>,
    PH: PathHash,
    const DEPTH: u8,
>(tree: MerkleTree<LH, PH, DEPTH>, leaf_index: nat)
    requires
        tree.wf(),
        leaf_index < tree@.len(),
    ensures
        height(tree@.len()) <= DEPTH,
        tree@.len() <= width(tree@.len()),
        siblings_above(tree.nodes(), width(tree@.len()) - 1 + leaf_index).len() == height(
            tree@.len(),
        ),
        merkle_path(
            tree.nodes(),
            tree.empty(),
            tree@.len(),
            DEPTH as nat,
            leaf_index,
        ).len() == DEPTH,
{
    lemma_size_bounds(tree@.len(), DEPTH);
    lemma_width_is_least(tree@.len());
    lemma_siblings_count(
        tree.nodes(),
        width(tree@.len()) - 1 + leaf_index,
        height(tree@.len()),
    );
}

/// A path that `verify` accepts for the root of a tree, at the index of one of its leaves, is the
/// path that the tree has at this index, and that of a leaf with the hash that the tree has there,
/// unless the path function has a collision.
pub proof fn law_verified_leaf_is_in_tree<
    LH: LeafHash<Hash = PH::Hash>,
    PH: PathHash,
    const DEPTH: u8,
>(tree: MerkleTree<LH, PH, DEPTH>, path: MerklePath<PH::Hash, DEPTH>, leaf: LH::Leaf)
    requires
        tree.wf(),
        path.index() < tree@.len(),
        path_leads_to(
            tree.leaf_function(),
            tree.path_function(),
            DEPTH,
            path.index(),
            path.hashes(),
            tree.root_hash(),
            leaf,
        ),
    ensures
        tree.leaf_function()(leaf) == Ok::<PH::Hash, Seq<char>>(tree@[path.index() as int])
            || has_collision(tree.path_function()),
        path.hashes() == merkle_path(
            tree.nodes(),
            tree.empty(),
            tree@.len(),
            DEPTH as nat,
            path.index(),
        ) || has_collision(tree.path_function()),
{
    law_paths_lead_to_root(tree, path.index());
    lemma_path_length(tree, path.index());
    law_path_binds_hash(
        tree.path_function(),
        path.index(),
        tree.leaf_function()(leaf)->Ok_0,
        path.hashes(),
        tree@[path.index() as int],
        merkle_path(tree.nodes(), tree.empty(), tree@.len(), DEPTH as nat, path.index()),
    );
}

/// A root binds every leaf hash: two trees with one root have the same leaf hash wherever both have
/// one, and the same list of leaf hashes where they have as many, unless the path function has a
/// collision.
pub proof fn law_root_binds_leaf_hashes<
    LH: LeafHash<Hash = PH::Hash>,
    PH: PathHash,
    const DEPTH: u8,
>(a: MerkleTree<LH, PH, DEPTH>, b: MerkleTree<LH, PH, DEPTH>)
    requires
        a.wf(),
        b.wf(),
        a.path_function() == b.path_function(),
        a.root_hash() == b.root_hash(),
    ensures
        has_collision(a.path_function()) || forall|i: int|
            0 <= i < a@.len() && i < b@.len() ==> #[trigger] a@[i] == b@[i],
        a@.len() == b@.len() ==> a@ == b@ || has_collision(a.path_function()),
{
    assert forall|i: int|
        !has_collision(a.path_function()) && 0 <= i < a@.len() && i
            < b@.len() implies #[trigger] a@[i] == b@[i] by {
        let index = i as nat;
        law_paths_lead_to_root(a, index);
        law_paths_lead_to_root(b, index);
        lemma_path_length(a, index);
        lemma_path_length(b, index);
        law_path_binds_hash(
            a.path_function(),
            index,
            a@[i],
            merkle_path(a.nodes(), a.empty(), a@.len(), DEPTH as nat, index),
            b@[i],
            merkle_path(b.nodes(), b.empty(), b@.len(), DEPTH as nat, index),
        );
    }
    if a@.len() == b@.len() && !has_collision(a.path_function()) {
        assert(a@ =~= b@);
    }
}

/// The position of the other child of the parent, of the node at the given position of a level.
pub open spec fn neighbour(offset: nat) -> nat {
    if offset % 2 == 0 {
        offset + 1
    } else {
        (offset - 1) as nat
    }
}

/// The node at position `offset`, `height` levels above the leaf level, depends only on the leaf
/// hashes below it.
proof fn lemma_node_of_its_leaves<H>(
    function: PathFunction<H>,
    row: Seq<H>,
    levels: nat,
    other_row: Seq<H>,
    other_levels: nat,
    height: nat,
    offset: nat,
)
    requires
        row.len() == pow2(levels),
        other_row.len() == pow2(other_levels),
        height <= levels,
        height <= other_levels,
        (offset + 1) * pow2(height) <= row.len(),
        (offset + 1) * pow2(height) <= other_row.len(),
        forall|j: int|
            offset * pow2(height) <= j < (offset + 1) * pow2(height) ==> #[trigger] row[j]
                == other_row[j],
    ensures
        offset < pow2((levels - height) as nat) <= row.len(),
        offset < pow2((other_levels - height) as nat) <= other_row.len(),
        node(function, row, pow2((levels - height) as nat) - 1 + offset) == node(
            function,
            other_row,
            pow2((other_levels - height) as nat) - 1 + offset,
        ),
    decreases height,
{
    lemma2_to64();
    let size = pow2(height) as int;
    let count = pow2((levels - height) as nat) as int;
    let other_count = pow2((other_levels - height) as nat) as int;
    lemma_pow2_pos(height);
    lemma_pow2_pos((levels - height) as nat);
    lemma_pow2_pos((other_levels - height) as nat);
    lemma_pow2_adds((levels - height) as nat, height);
    lemma_pow2_adds((other_levels - height) as nat, height);
    assert(offset + 1 <= count && count <= row.len()) by (nonlinear_arith)
        requires
            (offset + 1) * size <= row.len(),
            row.len() == count * size,
            size >= 1,
            count >= 1,
    ;
    assert(offset + 1 <= other_count && other_count <= other_row.len()) by (nonlinear_arith)
        requires
            (offset + 1) * size <= other_row.len(),
            other_row.len() == other_count * size,
            size >= 1,
            other_count >= 1,
    ;
    if height == 0 {
        assert(offset * size == offset && (offset + 1) * size == offset + 1) by (nonlinear_arith)
            requires
                size == 1,
        ;
        assert(row[offset as int] == other_row[offset as int]);
    } else {
        let below = (height - 1) as nat;
        let half = pow2(below) as int;
        lemma_pow2_pos(below);
        lemma_pow2_unfold(height);
        lemma_pow2_unfold((levels - below) as nat);
        lemma_pow2_unfold((other_levels - below) as nat);
        assert(2 * offset * half == offset * size && (2 * offset + 1) * half == offset * size + half
            && (2 * offset + 2) * half == (offset + 1) * size && offset * size + size == (offset
            + 1) * size) by (nonlinear_arith)
            requires
                size == 2 * half,
        ;
        assert(count * size >= 2 * count) by (nonlinear_arith)
            requires
                size >= 2,
                count >= 1,
        ;
        assert(other_count * size >= 2 * other_count) by (nonlinear_arith)
            requires
                size >= 2,
                other_count >= 1,
        ;
        lemma_node_of_its_leaves(
            function,
            row,
            levels,
            other_row,
            other_levels,
            below,
            2 * offset,
        );
        lemma_node_of_its_leaves(
            function,
            row,
            levels,
            other_row,
            other_levels,
            below,
            2 * offset + 1,
        );
        let index = count - 1 + offset;
        let other_index = other_count - 1 + offset;
        assert(2 * index + 1 == pow2((levels - below) as nat) - 1 + 2 * offset);
        assert(2 * index + 2 == pow2((levels - below) as nat) - 1 + (2 * offset + 1));
        assert(2 * other_index + 1 == pow2((other_levels - below) as nat) - 1 + 2 * offset);
        assert(2 * other_index + 2 == pow2((other_levels - below) as nat) - 1 + (2 * offset + 1));
    }
}

/// Which node a sibling on the way to the top is.
pub(crate) proof fn lemma_sibling_at<H>(nodes: Seq<H>, levels: nat, offset: nat, height: nat)
    requires
        offset < pow2(levels),
        height < levels,
    ensures
        siblings_above(nodes, pow2(levels) - 1 + offset).len() == levels,
        siblings_above(nodes, pow2(levels) - 1 + offset)[height as int] == nodes[pow2(
            (levels - height) as nat,
        ) - 1 + neighbour(offset / pow2(height))],
    decreases height,
{
    lemma2_to64();
    let index = pow2(levels) - 1 + offset;
    let above = (levels - 1) as nat;
    lemma_siblings_count(nodes, index, levels);
    lemma_pow2_unfold(levels);
    if height > 0 {
        let below = (height - 1) as nat;
        lemma_pow2_unfold(height);
        lemma_pow2_pos(below);
        lemma_div_denominator(offset as int, 2, pow2(below) as int);
        assert(offset / pow2(height) == (offset / 2) / pow2(below));
        assert(parent_of(index) == pow2(above) - 1 + offset / 2);
        assert(siblings_above(nodes, index)[height as int] == siblings_above(
            nodes,
            parent_of(index),
        )[below as int]);
        lemma_sibling_at(nodes, above, offset / 2, below);
    } else {
        let size = pow2(height);
        assert(offset / size == offset) by (nonlinear_arith)
            requires
                size == 1,
        ;
        assert(siblings_above(nodes, index)[0] == nodes[sibling_of(index)]);
    }
}

/// A sibling on the path of a leaf depends only on the leaf hashes below it: where two trees have
/// the same ones there, it is the same in both.
pub proof fn law_sibling_of_its_leaves<
    LH: LeafHash<Hash = PH::Hash>,
    PH: PathHash,
    const DEPTH: u8,
>(
    a: MerkleTree<LH, PH, DEPTH>,
    b: MerkleTree<LH, PH, DEPTH>,
    leaf_index: nat,
    level: nat,
)
    requires
        a.wf(),
        b.wf(),
        a.path_function() == b.path_function(),
        leaf_index < a@.len(),
        leaf_index < b@.len(),
        (neighbour(leaf_index / pow2(level)) + 1) * pow2(level) <= a@.len(),
        (neighbour(leaf_index / pow2(level)) + 1) * pow2(level) <= b@.len(),
        forall|j: int|
            neighbour(leaf_index / pow2(level)) * pow2(level) <= j < (neighbour(
                leaf_index / pow2(level),
            ) + 1) * pow2(level) ==> #[trigger] a@[j] == b@[j],
    ensures
        level < DEPTH,
        merkle_path(
            a.nodes(),
            a.empty(),
            a@.len(),
            DEPTH as nat,
            leaf_index,
        )[level as int] == merkle_path(
            b.nodes(),
            b.empty(),
            b@.len(),
            DEPTH as nat,
            leaf_index,
        )[level as int],
{
    let position = neighbour(leaf_index / pow2(level));
    lemma_path_length(a, leaf_index);
    lemma_path_length(b, leaf_index);
    lemma_full_sibling_level(a@.len(), leaf_index, level);
    lemma_full_sibling_level(b@.len(), leaf_index, level);
    assert forall|j: int|
        position * pow2(level) <= j < (position + 1) * pow2(level) implies #[trigger] a.row()[j]
        == b.row()[j] by {
        assert(position * pow2(level) >= 0) by (nonlinear_arith);
        assert(a@[j] == b@[j]);
    }
    lemma_node_of_its_leaves(
        a.path_function(),
        a.row(),
        height(a@.len()),
        b.row(),
        height(b@.len()),
        level,
        position,
    );
    lemma_sibling_at(a.nodes(), height(a@.len()), leaf_index, level);
    lemma_sibling_at(b.nodes(), height(b@.len()), leaf_index, level);
    let in_a = pow2((height(a@.len()) - level) as nat) - 1 + position;
    let in_b = pow2((height(b@.len()) - level) as nat) - 1 + position;
    assert(node(a.path_function(), a.row(), in_a) == Some(a.nodes()[in_a]));
    assert(node(b.path_function(), b.row(), in_b) == Some(b.nodes()[in_b]));
}

/// A sibling that has only leaves below it is on a level below the top.
proof fn lemma_full_sibling_level(leaves: nat, leaf_index: nat, level: nat)
    requires
        leaf_index < leaves,
        (neighbour(leaf_index / pow2(level)) + 1) * pow2(level) <= leaves,
    ensures
        level < height(leaves),
{
    lemma_width_is_least(leaves);
    lemma_pow2_pos(level);
    if level >= height(leaves) {
        if level > height(leaves) {
            lemma_pow2_strictly_increases(height(leaves), level);
        }
        lemma_basic_div(leaf_index as int, pow2(level) as int);
        assert(neighbour(leaf_index / pow2(level)) == 1);
        assert(2 * pow2(level) <= leaves);
    }
}

/// Appending leaves keeps, in the path of every leaf that was there, each sibling that had only
/// leaves below it.
pub proof fn law_append_keeps_full_siblings<
    LH: LeafHash<Hash = PH::Hash>,
    PH: PathHash,
    const DEPTH: u8,
>(
    tree: MerkleTree<LH, PH, DEPTH>,
    new_leaves: Seq<LH::Leaf>,
    appended: MerkleTree<LH, PH, DEPTH>,
    leaf_index: nat,
    level: nat,
)
    requires
        tree.wf(),
        tree.append_outcome(new_leaves, Ok(appended)),
        leaf_index < tree@.len(),
        (neighbour(leaf_index / pow2(level)) + 1) * pow2(level) <= tree@.len(),
    ensures
        level < DEPTH,
        merkle_path(
            appended.nodes(),
            appended.empty(),
            appended@.len(),
            DEPTH as nat,
            leaf_index,
        )[level as int] == merkle_path(
            tree.nodes(),
            tree.empty(),
            tree@.len(),
            DEPTH as nat,
            leaf_index,
        )[level as int],
{
    let position = neighbour(leaf_index / pow2(level));
    assert(position * pow2(level) >= 0) by (nonlinear_arith);
    law_sibling_of_its_leaves(appended, tree, leaf_index, level);
}

/// The trees over the two halves of a row are the two subtrees of the tree over the row.
proof fn lemma_subtrees<H>(
    function: PathFunction<H>,
    row: Seq<H>,
    levels: nat,
    depth: nat,
    offset: nat,
)
    requires
        row.len() == 2 * pow2(levels),
        depth <= levels,
        offset < pow2(depth),
    ensures
        node(function, row.take(pow2(levels) as int), pow2(depth) - 1 + offset) == node(
            function,
            row,
            2 * pow2(depth) - 1 + offset,
        ),
        node(function, row.skip(pow2(levels) as int), pow2(depth) - 1 + offset) == node(
            function,
            row,
            3 * pow2(depth) - 1 + offset,
        ),
    decreases levels - depth,
{
    let half = pow2(levels);
    let power = pow2(depth);
    if depth < levels {
        lemma_pow2_unfold(depth + 1);
        lemma_pow2_strictly_increases(depth, levels);
        lemma_subtrees(function, row, levels, depth + 1, 2 * offset);
        lemma_subtrees(function, row, levels, depth + 1, 2 * offset + 1);
        if depth + 1 < levels {
            lemma_pow2_strictly_increases(depth + 1, levels);
        }
        let index = power - 1 + offset;
        assert(2 * index + 1 == pow2(depth + 1) - 1 + 2 * offset);
        assert(2 * index + 2 == pow2(depth + 1) - 1 + (2 * offset + 1));
    }
}

/// The top of the tree over a single leaf hash is this hash; the top of the tree over a longer row
/// is the hash of the tops of the trees over its two halves.
pub proof fn law_top_by_halves<H>(function: PathFunction<H>, row: Seq<H>, levels: nat)
    requires
        row.len() == pow2(levels),
    ensures
        levels == 0 ==> node(function, row, 0) == Some(row[0]),
        levels > 0 ==> {
            let half = pow2((levels - 1) as nat) as int;
            &&& row.len() == 2 * half
            &&& node(function, row, 0) == hash_pair(
                function,
                node(function, row.take(half), 0),
                node(function, row.skip(half), 0),
            )
        },
{
    lemma2_to64();
    if levels > 0 {
        let half = (levels - 1) as nat;
        lemma_pow2_unfold(levels);
        lemma_pow2_pos(half);
        lemma_subtrees(function, row, half, 0, 0);
    }
}

/// A tree that is one level deeper has, over the same leaf hashes, the hash of the root and of the
/// empty hash as its root.
pub proof fn law_deeper_root<H>(
    function: PathFunction<H>,
    empty: H,
    hashes: Seq<H>,
    depth: nat,
)
    requires
        height(hashes.len()) <= depth,
    ensures
        merkle_root(function, empty, hashes, depth + 1) == hash_pair(
            function,
            merkle_root(function, empty, hashes, depth),
            Some(empty),
        ),
{
}

} // verus!
