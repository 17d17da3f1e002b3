//! A Merkle tree of a fixed depth over a growing and shrinking list of leaves.
use crate::error::{Error, HashError};
use crate::hash::{
    all_leaves_hash, hashes_of, outcome, some_leaf_fails, LeafFunction, LeafHash, Outcome,
    PathFunction, PathHash,
};
use crate::index::{left_child, parent, parent_of, right_child, sibling};
use crate::laws::law_inner_nodes_hash_children;
use crate::model::{
    children_hash, hashed_from, leaf_row, lemma_all_changed_fails, lemma_hashed_nodes,
    lemma_level_start, lemma_lift_missing, lemma_siblings_count, level_start, merkle_path,
    merkle_root, node, padding_depth, same_nodes, siblings_above, some_hash_fails, some_lift_fails,
    some_updated_hash_fails, Unchanged,
};
use crate::nodes::{
    children, computation_fails, extend, lemma_failed_node, lemma_failed_update, lemma_level_done,
    lift_to_root, pad, store,
};
use crate::parallel::{try_map, PARALLEL_THRESHOLD};
use crate::path::{path_leads_to, MerklePath};
use crate::size::{
    depth_error, height, lemma_height_monotone, lemma_size_bounds,
    lemma_tree_size_fits, lemma_width_is_least, padded_width, size_error, tree_depth, width,
    MAX_DEPTH,
};
use crate::update::Update;
use vstd::arithmetic::power2::{is_pow2, lemma_pow2_strictly_increases};
use vstd::prelude::*;
use vstd::slice::slice_subrange;

verus! {

/// A Merkle tree of depth `DEPTH`.
///
/// The hashes of the leaves are padded with the empty hash to a power of two, and every node above
/// them is the hash of its two children. Where this tree has fewer levels than `DEPTH`, the root
/// is the hash at its top, combined with the empty hash once for each of the missing levels.
pub struct MerkleTree<LH: LeafHash<Hash = PH::Hash>, PH: PathHash, const DEPTH: u8> {
    /// The leaf hasher for the Merkle tree.
    leaf_hasher: LH,
    /// The path hasher for the Merkle tree.
    path_hasher: PH,
    /// The computed root of the full Merkle tree.
    root: PH::Hash,
    /// The internal hashes, from root to hashed leaves, of the full Merkle tree.
    tree: Vec<PH::Hash>,
    /// The canonical empty hash.
    empty_hash: PH::Hash,
    /// The number of hashed leaves in the tree.
    number_of_leaves: usize,
}

impl<LH: LeafHash<Hash = PH::Hash>, PH: PathHash, const DEPTH: u8> View for MerkleTree<
    LH,
    PH,
    DEPTH,
> {
    type V = Seq<PH::Hash>;

    /// The hashes of the leaves.
    closed spec fn view(&self) -> Seq<PH::Hash> {
        let start = width(self.number_of_leaves as nat) - 1;
        self.tree@.subrange(start, start + self.number_of_leaves)
    }
}

/// What is unchanged on the last level of a tree that begins at `start_index`, where it is another
/// tree's before `middle_index`, and from the node before `middle_precompute_index` on.
pub open spec fn update_unchanged(
    start_index: int,
    middle_index: int,
    middle_precompute_index: Option<usize>,
) -> Unchanged {
    Unchanged {
        left: (middle_index - start_index) as nat,
        right: match middle_precompute_index {
            Some(middle_precompute) => Some(middle_precompute - 1 - start_index),
            None => None,
        },
    }
}

impl<LH: LeafHash<Hash = PH::Hash>, PH: PathHash, const DEPTH: u8> MerkleTree<LH, PH, DEPTH> {
    /// The function that hashes a leaf.
    pub closed spec fn leaf_function(&self) -> LeafFunction<LH::Leaf, PH::Hash> {
        self.leaf_hasher.function()
    }

    /// The function that hashes two children.
    pub closed spec fn path_function(&self) -> PathFunction<PH::Hash> {
        self.path_hasher.function()
    }

    /// The empty hash of the path hasher.
    pub closed spec fn path_empty(&self) -> Outcome<PH::Hash> {
        self.path_hasher.empty()
    }

    /// The hash that stands for an absent node.
    pub closed spec fn empty(&self) -> PH::Hash {
        self.empty_hash
    }

    /// The nodes, from the top of the tree to the hashed leaves.
    pub closed spec fn nodes(&self) -> Seq<PH::Hash> {
        self.tree@
    }

    /// The root.
    pub closed spec fn root_hash(&self) -> PH::Hash {
        self.root
    }

    /// The number of leaves.
    pub closed spec fn leaf_count(&self) -> nat {
        self.number_of_leaves as nat
    }

    /// The leaf hashes, padded with the empty hash to a power of two.
    pub open spec fn row(&self) -> Seq<PH::Hash> {
        leaf_row(self@, self.empty())
    }

    /// The leaves fit the depth, and the nodes and the root are those of a Merkle tree over the
    /// leaf hashes.
    pub open spec fn wf(&self) -> bool {
        &&& depth_error(DEPTH) is None
        &&& size_error(self@.len(), DEPTH) is None
        &&& self.leaf_count() == self@.len()
        &&& self.path_empty() == Ok::<PH::Hash, Seq<char>>(self.empty())
        &&& self.nodes().len() == 2 * width(self@.len()) - 1
        &&& forall|i: int|
            0 <= i < self.nodes().len() ==> node(self.path_function(), self.row(), i) == Some(
                #[trigger] self.nodes()[i],
            )
        &&& merkle_root(self.path_function(), self.empty(), self@, DEPTH as nat) == Some(
            self.root_hash(),
        )
    }

    /// The two trees have the same hash functions.
    pub open spec fn hashes_like(&self, other: &Self) -> bool {
        &&& self.leaf_function() == other.leaf_function()
        &&& self.path_function() == other.path_function()
        &&& self.path_empty() == other.path_empty()
    }

    /// What making a tree of the given leaves gives.
    pub open spec fn build_outcome(
        leaf_function: LeafFunction<LH::Leaf, PH::Hash>,
        path_function: PathFunction<PH::Hash>,
        path_empty: Outcome<PH::Hash>,
        leaves: Seq<LH::Leaf>,
        result: Result<Self, Error>,
    ) -> bool {
        let hashes = hashes_of(leaf_function, leaves);
        if depth_error(DEPTH) is Some {
            result == Err::<Self, Error>(depth_error(DEPTH)->0)
        } else if size_error(leaves.len(), DEPTH) is Some {
            result == Err::<Self, Error>(size_error(leaves.len(), DEPTH)->0)
        } else if path_empty is Err {
            &&& result is Err
            &&& result->Err_0 is Hash
            &&& result->Err_0->Hash_0@ == path_empty->Err_0
        } else {
            &&& result is Ok <==> {
                &&& all_leaves_hash(leaf_function, leaves)
                &&& merkle_root(path_function, path_empty->Ok_0, hashes, DEPTH as nat) is Some
            }
            &&& match result {
                Ok(merkle_tree) => {
                    &&& merkle_tree.wf()
                    &&& merkle_tree.leaf_function() == leaf_function
                    &&& merkle_tree.path_function() == path_function
                    &&& merkle_tree.path_empty() == path_empty
                    &&& merkle_tree@ == hashes
                },
                Err(Error::Hash(error)) => if all_leaves_hash(leaf_function, leaves) {
                    some_hash_fails(path_function, path_empty->Ok_0, hashes, DEPTH as nat, error@)
                } else {
                    some_leaf_fails(leaf_function, leaves, error@)
                },
                Err(_) => false,
            }
        }
    }

    /// What of this tree is unchanged in a tree of `leaves` leaves, where the two share their first
    /// `kept` leaves, and no leaf of either is at `touched` or after it.
    pub open spec fn unchanged(&self, kept: nat, leaves: nat, touched: nat) -> Unchanged {
        Unchanged {
            left: kept,
            right: if width(leaves) == width(self@.len()) {
                Some(touched as int)
            } else {
                None
            },
        }
    }

    /// What appending the given leaves to this tree gives.
    pub open spec fn append_outcome(
        &self,
        new_leaves: Seq<LH::Leaf>,
        result: Result<Self, Error>,
    ) -> bool {
        let hashes = self@ + hashes_of(self.leaf_function(), new_leaves);
        match size_error(hashes.len(), DEPTH) {
            Some(error) => result == Err::<Self, Error>(error),
            None => {
                &&& result is Ok <==> {
                    &&& all_leaves_hash(self.leaf_function(), new_leaves)
                    &&& merkle_root(self.path_function(), self.empty(), hashes, DEPTH as nat)
                        is Some
                }
                &&& match result {
                    Ok(merkle_tree) => {
                        &&& merkle_tree.wf()
                        &&& merkle_tree.hashes_like(self)
                        &&& merkle_tree@ == hashes
                    },
                    Err(Error::Hash(error)) => if all_leaves_hash(
                        self.leaf_function(),
                        new_leaves,
                    ) {
                        some_updated_hash_fails(
                            self.path_function(),
                            self.empty(),
                            hashes,
                            DEPTH as nat,
                            self.unchanged(self@.len(), hashes.len(), hashes.len()),
                            error@,
                        )
                    } else {
                        some_leaf_fails(self.leaf_function(), new_leaves, error@)
                    },
                    Err(_) => false,
                }
            },
        }
    }

    /// What removing the last `n` leaves from this tree gives.
    pub open spec fn removal_outcome(&self, n: usize, result: Result<Self, Error>) -> bool {
        if n == 0 {
            result == Err::<Self, Error>(Error::NoLeavesToRemove)
        } else if n > self@.len() {
            result == Err::<Self, Error>(
                Error::NotEnoughLeaves { requested: n, available: self@.len() as usize },
            )
        } else {
            let hashes = self@.take(self@.len() - n);
            &&& result is Ok <==> merkle_root(
                self.path_function(),
                self.empty(),
                hashes,
                DEPTH as nat,
            ) is Some
            &&& match result {
                Ok(merkle_tree) => {
                    &&& merkle_tree.wf()
                    &&& merkle_tree.hashes_like(self)
                    &&& merkle_tree@ == hashes
                },
                Err(Error::Hash(error)) => some_updated_hash_fails(
                    self.path_function(),
                    self.empty(),
                    hashes,
                    DEPTH as nat,
                    self.unchanged(hashes.len(), hashes.len(), self@.len()),
                    error@,
                ),
                Err(_) => false,
            }
        }
    }

    /// Filling in the inner nodes over the last level of the given nodes, where nodes of this tree
    /// are copied.
    pub open spec fn update(
        &self,
        nodes: Seq<PH::Hash>,
        start_index: int,
        middle_index: int,
        middle_precompute_index: Option<usize>,
    ) -> Update<PH::Hash> {
        Update {
            function: self.path_function(),
            row: nodes.skip(start_index),
            others: self.nodes(),
            unchanged: update_unchanged(start_index, middle_index, middle_precompute_index),
        }
    }

    /// What proving that `leaf` is at `leaf_index` of this tree gives.
    pub open spec fn proof_outcome(
        &self,
        leaf_index: nat,
        leaf: LH::Leaf,
        result: Result<MerklePath<PH::Hash, DEPTH>, Error>,
    ) -> bool {
        if leaf_index >= self@.len() {
            result == Err::<MerklePath<PH::Hash, DEPTH>, Error>(Error::LeafIndexOutOfBounds)
        } else {
            match self.leaf_function()(leaf) {
                Err(message) => {
                    &&& result is Err
                    &&& result->Err_0 is Hash
                    &&& result->Err_0->Hash_0@ == message
                },
                Ok(leaf_hash) => if leaf_hash != self@[leaf_index as int] {
                    result == Err::<MerklePath<PH::Hash, DEPTH>, Error>(Error::LeafMismatch)
                } else {
                    &&& result is Ok
                    &&& result->Ok_0.wf()
                    &&& result->Ok_0.index() == leaf_index
                    &&& result->Ok_0.hashes() == merkle_path(
                        self.nodes(),
                        self.empty(),
                        self@.len(),
                        DEPTH as nat,
                        leaf_index,
                    )
                },
            }
        }
    }

    /// In a well-formed tree, the inner nodes hold the hashes of their children, and the last
    /// level holds the leaf hashes and the padding.
    proof fn lemma_layout(&self)
        requires
            self.wf(),
        ensures
            self.number_of_leaves as nat == self@.len(),
            self.tree@.len() == 2 * self.row().len() - 1,
            self.row().len() == width(self@.len()),
            self@.len() <= self.row().len(),
            self.row().len() >= 1,
            is_pow2(self.row().len() as int),
            self.tree@.skip(self.row().len() - 1) == self.row(),
            hashed_from(self.path_hasher.function(), self.tree@, self.row().len() - 1, 0),
    {
        lemma_width_is_least(self@.len());
        let row = self.row();
        let function = self.path_function();
        assert forall|j: int| 0 <= j < row.len() implies row[j] == #[trigger] self.tree@[row.len()
            - 1 + j] by {
            assert(node(function, row, row.len() - 1 + j) == Some(
                self.nodes()[row.len() - 1 + j],
            ));
        }
        assert(self.tree@.skip(row.len() - 1) =~= row);
        law_inner_nodes_hash_children(*self);
    }

    /// Makes a tree of nodes that are filled in, by computing its root.
    fn with_nodes(
        leaf_hasher: &LH,
        path_hasher: &PH,
        tree: Vec<PH::Hash>,
        empty_hash: PH::Hash,
        number_of_leaves: usize,
        levels: u8,
    ) -> (result: Result<Self, Error>)
        requires
            depth_error(DEPTH) is None,
            size_error(number_of_leaves as nat, DEPTH) is None,
            levels == padding_depth(number_of_leaves as nat, DEPTH as nat),
            path_hasher.empty() == Ok::<PH::Hash, Seq<char>>(empty_hash),
            tree@.len() == 2 * width(number_of_leaves as nat) - 1,
            forall|j: int|
                number_of_leaves <= j < width(number_of_leaves as nat)
                    ==> #[trigger] tree@[width(number_of_leaves as nat) - 1 + j] == empty_hash,
            hashed_from(
                path_hasher.function(),
                tree@,
                width(number_of_leaves as nat) - 1,
                0,
            ),
        ensures
            ({
                let start = width(number_of_leaves as nat) - 1;
                let hashes = tree@.subrange(start, start + number_of_leaves);
                match result {
                    Ok(merkle_tree) => {
                        &&& merkle_tree.wf()
                        &&& merkle_tree@ == hashes
                        &&& merkle_tree.leaf_function() == leaf_hasher.function()
                        &&& merkle_tree.path_function() == path_hasher.function()
                        &&& merkle_tree.path_empty() == path_hasher.empty()
                    },
                    Err(Error::Hash(error)) => {
                        &&& merkle_root(path_hasher.function(), empty_hash, hashes, DEPTH as nat)
                            is None
                        &&& some_lift_fails(
                            path_hasher.function(),
                            empty_hash,
                            node(path_hasher.function(), leaf_row(hashes, empty_hash), 0),
                            levels as nat,
                            error@,
                        )
                    },
                    Err(_) => false,
                }
            }),
    {
        let ghost leaves = number_of_leaves as nat;
        let ghost start = width(leaves) - 1;
        let ghost hashes = tree@.subrange(start, start + number_of_leaves);
        let ghost row = leaf_row(hashes, empty_hash);
        let ghost function = path_hasher.function();
        proof {
            lemma_width_is_least(leaves);
            assert forall|j: int| 0 <= j < row.len() implies row[j] == #[trigger] tree@.skip(
                start,
            )[j] by {
                assert(tree@.skip(start)[j] == tree@[start + j]);
            }
            assert(tree@.skip(start) =~= row);
            assert forall|i: int| 0 <= i < tree@.len() implies node(function, row, i) == Some(
                #[trigger] tree@[i],
            ) by {
                lemma_hashed_nodes(function, tree@, row, 0, i);
            }
            assert(node(function, row, 0) == Some(tree@[0]));
        }
        let root: PH::Hash = match lift_to_root(path_hasher, empty_hash, tree[0], levels) {
            Ok(root) => root,
            Err(error) => {
                return Err(Error::Hash(error));
            },
        };
        let leaf_hasher_copy: LH = leaf_hasher.clone();
        let path_hasher_copy: PH = path_hasher.clone();
        proof {
            leaf_hasher.lemma_clone_hashes_alike(&leaf_hasher_copy);
            path_hasher.lemma_clone_hashes_alike(&path_hasher_copy);
        }
        Ok(
            MerkleTree {
                leaf_hasher: leaf_hasher_copy,
                path_hasher: path_hasher_copy,
                root,
                tree,
                empty_hash,
                number_of_leaves,
            },
        )
    }

    /// Initializes a new Merkle tree with the given leaves.
    pub fn new(leaf_hasher: &LH, path_hasher: &PH, leaves: &[LH::Leaf]) -> (result: Result<
        Self,
        Error,
    >)
        ensures
            Self::build_outcome(
                leaf_hasher.function(),
                path_hasher.function(),
                path_hasher.empty(),
                leaves@,
                result,
            ),
    {
        // Ensure the Merkle tree depth is greater than 0.
        if DEPTH == 0 {
            return Err(Error::ZeroDepth);
        }
        // Ensure the Merkle tree depth is less than or equal to 64.
        if DEPTH > MAX_DEPTH {
            return Err(Error::DepthTooLarge);
        }
        // Compute the maximum number of leaves.
        let max_leaves: usize = match padded_width(leaves.len()) {
            Some(max_leaves) => max_leaves,
            None => {
                return Err(Error::LeafCountOverflow);
            },
        };
        proof {
            lemma_width_is_least(leaves@.len());
            lemma_tree_size_fits(leaves@.len());
            lemma_size_bounds(leaves@.len(), DEPTH);
        }
        // Compute the number of nodes.
        let num_nodes: usize = max_leaves - 1;
        // Compute the tree size as the maximum number of leaves plus the number of nodes.
        let tree_size: usize = max_leaves + num_nodes;
        // Compute the number of levels in the Merkle tree (i.e. log2(tree_size)).
        let levels: u8 = match tree_depth::<DEPTH>(tree_size) {
            Ok(levels) => levels,
            Err(error) => {
                return Err(error);
            },
        };

        // Compute the empty hash.
        let empty_hash: PH::Hash = match path_hasher.hash_empty() {
            Ok(empty_hash) => empty_hash,
            Err(error) => {
                return Err(Error::Hash(error));
            },
        };
        // Initialize the Merkle tree.
        let mut tree: Vec<PH::Hash> = Vec::with_capacity(tree_size);
        pad(&mut tree, tree_size, empty_hash);
        // Compute and store each leaf hash.
        let leaf_hashes: Vec<PH::Hash> = match leaf_hasher.hash_leaves(leaves) {
            Ok(leaf_hashes) => leaf_hashes,
            Err(error) => {
                return Err(Error::Hash(error));
            },
        };
        store(&mut tree, num_nodes, leaf_hashes.as_slice());

        let ghost function = path_hasher.function();
        let ghost row = leaf_row(leaf_hashes@, empty_hash);
        assert(tree@.skip(num_nodes as int) =~= row);

        // Compute and store the hashes for each level, from the penultimate level to the root level.
        let mut start_index: usize = num_nodes;
        let ghost mut level: nat = 0;
        loop
            invariant
                function == path_hasher.function(),
                path_hasher.empty() == Ok::<PH::Hash, Seq<char>>(empty_hash),
                all_leaves_hash(leaf_hasher.function(), leaves@),
                leaf_hashes@ == hashes_of(leaf_hasher.function(), leaves@),
                depth_error(DEPTH) is None,
                size_error(leaves@.len(), DEPTH) is None,
                row == leaf_row(leaf_hashes@, empty_hash),
                row.len() == num_nodes + 1,
                tree@.len() == 2 * num_nodes + 1,
                tree@.skip(num_nodes as int) == row,
                is_pow2(row.len() as int),
                start_index <= num_nodes,
                start_index == level_start(row.len(), level),
                hashed_from(function, tree@, num_nodes as int, start_index as int),
            ensures
                start_index == 0,
            decreases start_index,
        {
            match parent(start_index) {
                None => {
                    break;
                },
                Some(start) => {
                    proof {
                        lemma_level_start(row.len(), level);
                    }
                    // Compute the end index of the current level.
                    let end: usize = left_child(start);
                    // Construct the children for each node in the current level.
                    let pairs: Vec<(PH::Hash, PH::Hash)> = children(&tree, start, end);
                    // Compute and store the hashes for each node in the current level.
                    let hashes: Vec<PH::Hash> = match path_hasher.hash_all_children(
                        pairs.as_slice(),
                    ) {
                        Ok(hashes) => hashes,
                        Err(error) => {
                            proof {
                                let k = choose|k: int|
                                    0 <= k < pairs@.len() && function(
                                        (#[trigger] pairs@[k]).0,
                                        pairs@[k].1,
                                    ) == Err::<PH::Hash, Seq<char>>(error@);
                                lemma_failed_node(
                                    function,
                                    tree@,
                                    row,
                                    level,
                                    start + k,
                                    error@,
                                );
                                lemma_lift_missing(
                                    function,
                                    empty_hash,
                                    node(function, row, 0),
                                    0,
                                    padding_depth(leaves@.len(), DEPTH as nat),
                                );
                            }
                            return Err(Error::Hash(error));
                        },
                    };
                    let ghost before = tree@;
                    store(&mut tree, start, hashes.as_slice());
                    proof {
                        assert(tree@.skip(num_nodes as int) =~= row);
                        assert forall|i: int| start <= i < end implies children_hash(
                            function,
                            before,
                            i,
                        ) == Ok::<PH::Hash, Seq<char>>(#[trigger] tree@[i]) by {
                            assert(pairs@[i - start] == (before[2 * i + 1], before[2 * i + 2]));
                            assert(hashes@[i - start] == tree@[i]);
                        }
                        lemma_level_done(function, before, tree@, num_nodes as int, start as int);
                    }
                    // Update the start index for the next level.
                    start_index = start;
                    proof {
                        level = level + 1;
                    }
                },
            }
        }
        assert(tree@.subrange(num_nodes as int, num_nodes + leaves@.len()) =~= leaf_hashes@) by {
            assert forall|j: int| 0 <= j < leaves@.len() implies #[trigger] tree@[num_nodes + j]
                == leaf_hashes@[j] by {
                assert(tree@.skip(num_nodes as int)[j] == row[j]);
            }
        }
        assert forall|j: int| leaves@.len() <= j < row.len() implies #[trigger] tree@[row.len() - 1
            + j] == empty_hash by {
            assert(tree@.skip(num_nodes as int)[j] == row[j]);
        }
        // Compute the root hash, by iterating from the root level up to `DEPTH`.
        Self::with_nodes(
            leaf_hasher,
            path_hasher,
            tree,
            empty_hash,
            leaves.len(),
            DEPTH - levels,
        )
    }

    /// Compute and store the hashes of the nodes from `from` to `to`, which are on one level.
    fn compute_nodes(&self, tree: &mut Vec<PH::Hash>, from: usize, to: usize) -> (result: Result<
        (),
        HashError,
    >)
        requires
            from <= to <= 2 * from + 1,
            to <= old(tree)@.len(),
            from < to ==> 2 * to < old(tree)@.len(),
        ensures
            final(tree)@.len() == old(tree)@.len(),
            forall|i: int|
                0 <= i < old(tree)@.len() && !(from <= i < to) ==> #[trigger] final(tree)@[i]
                    == old(tree)@[i],
            match result {
                Ok(_) => forall|i: int|
                    from <= i < to ==> children_hash(self.path_function(), old(tree)@, i) == Ok::<
                        PH::Hash,
                        Seq<char>,
                    >(#[trigger] final(tree)@[i]),
                Err(error) => exists|i: int|
                    computation_fails(
                        self.path_function(),
                        old(tree)@,
                        final(tree)@,
                        from as int,
                        to as int,
                        i,
                        error@,
                    ),
            },
    {
        let ghost function = self.path_function();
        if to - from < PARALLEL_THRESHOLD {
            let tree_size: usize = tree.len();
            for i in from..to
                invariant
                    function == self.path_function(),
                    to <= 2 * from + 1,
                    from < to ==> 2 * to < tree_size,
                    tree@.len() == old(tree)@.len() == tree_size,
                    to - from < PARALLEL_THRESHOLD,
                    forall|k: int|
                        0 <= k < tree_size && !(from <= k < i) ==> #[trigger] tree@[k]
                            == old(tree)@[k],
                    forall|k: int|
                        from <= k < i ==> children_hash(function, old(tree)@, k) == Ok::<
                            PH::Hash,
                            Seq<char>,
                        >(#[trigger] tree@[k]),
            {
                let ghost current = i as int;
                match self.path_hasher.hash_children(&tree[left_child(i)], &tree[right_child(i)]) {
                    Ok(hash) => {
                        tree.set(i, hash);
                    },
                    Err(error) => {
                        let ghost message = error@;
                        let failed: Result<(), HashError> = Err(error);
                        assert(failed->Err_0@ == message);
                        assert(computation_fails(
                            function,
                            old(tree)@,
                            tree@,
                            from as int,
                            to as int,
                            current,
                            message,
                        ));
                        return failed;
                    },
                }
            }
            return Ok(());
        }
        let pairs: Vec<(PH::Hash, PH::Hash)> = children(tree, from, to);
        let op = |pair: &(PH::Hash, PH::Hash)| -> (hashed: Result<PH::Hash, HashError>)
            ensures
                outcome(hashed) == self.path_function()(pair.0, pair.1),
            { self.path_hasher.hash_children(&pair.0, &pair.1) };
        let hashes: Vec<PH::Hash> = match try_map(pairs.as_slice(), op) {
            Ok(hashes) => hashes,
            Err(error) => {
                let ghost message = error@;
                proof {
                    let k = choose|k: int|
                        0 <= k < pairs@.len() && call_ensures(
                            op,
                            (&#[trigger] pairs@[k],),
                            Err(error),
                        );
                    assert(computation_fails(
                        function,
                        old(tree)@,
                        tree@,
                        from as int,
                        to as int,
                        from + k,
                        message,
                    ));
                }
                let failed: Result<(), HashError> = Err(error);
                assert(failed->Err_0@ == message);
                return failed;
            },
        };
        store(tree, from, hashes.as_slice());
        proof {
            assert forall|i: int| from <= i < to implies children_hash(
                self.path_function(),
                old(tree)@,
                i,
            ) == Ok::<PH::Hash, Seq<char>>(#[trigger] tree@[i]) by {
                assert(hashes@[i - from] == tree@[i]);
            }
        }
        Ok(())
    }

    /// Copy the hashes from `start` to `middle` from the nodes of this tree from `start_precompute`
    /// on.
    fn copy_left(
        &self,
        tree: &mut Vec<PH::Hash>,
        start: usize,
        middle: usize,
        start_precompute: usize,
    )
        requires
            start <= middle <= old(tree)@.len(),
            start < middle ==> start_precompute + (middle - start) <= self.nodes().len(),
        ensures
            final(tree)@.len() == old(tree)@.len(),
            forall|i: int|
                0 <= i < old(tree)@.len() && !(start <= i < middle) ==> #[trigger] final(tree)@[i]
                    == old(tree)@[i],
            same_nodes(
                final(tree)@,
                start as int,
                self.nodes(),
                start_precompute as int,
                middle - start,
            ),
    {
        if start < middle {
            assert(self.tree.len() == self.nodes().len());
            let end_precompute: usize = start_precompute + (middle - start);
            store(
                tree,
                start,
                slice_subrange(self.tree.as_slice(), start_precompute, end_precompute),
            );
        }
    }

    /// Fill in the nodes of one level from `middle` to `end`: those from `to` on are copied from the
    /// same nodes of this tree, and those before are computed.
    fn compute_level(
        &self,
        tree: &mut Vec<PH::Hash>,
        middle: usize,
        to: usize,
        end: usize,
    ) -> (result: Result<(), HashError>)
        requires
            middle <= to <= end <= 2 * middle + 1,
            2 * end < old(tree)@.len(),
            to < end ==> end <= self.nodes().len(),
        ensures
            final(tree)@.len() == old(tree)@.len(),
            forall|i: int|
                0 <= i < old(tree)@.len() && !(middle <= i < end) ==> #[trigger] final(tree)@[i]
                    == old(tree)@[i],
            match result {
                Ok(_) => {
                    &&& forall|i: int|
                        middle <= i < to ==> children_hash(self.path_function(), old(tree)@, i)
                            == Ok::<PH::Hash, Seq<char>>(#[trigger] final(tree)@[i])
                    &&& same_nodes(final(tree)@, to as int, self.nodes(), to as int, end - to)
                },
                Err(error) => {
                    &&& forall|i: int|
                        to <= i < end ==> #[trigger] final(tree)@[i] == old(tree)@[i]
                    &&& exists|i: int|
                        computation_fails(
                            self.path_function(),
                            old(tree)@,
                            final(tree)@,
                            middle as int,
                            to as int,
                            i,
                            error@,
                        )
                },
            },
    {
        // Process the indices that need to be computed for the current level.
        if let Err(error) = self.compute_nodes(tree, middle, to) {
            return Err(error);
        }
        // Copy the hashes on the right of the current level.
        if to < end {
            assert(self.tree.len() == self.nodes().len());
            store(tree, to, slice_subrange(self.tree.as_slice(), to, end));
        }
        Ok(())
    }

    /// Compute and store the hashes for each level, iterating from the penultimate level to the
    /// root level. The nodes that have the same leaves below them as in this tree are copied from
    /// it: those before `middle_index`, and, where both trees have the same size, those from the
    /// one before `middle_precompute_index` on.
    ///
    /// ```ignore
    ///  start_index      middle_index                              end_index
    ///  start_precompute_index         middle_precompute_index     end_index
    /// ```
    ///
    /// That the leaves are the same is not looked at. Where they are, every node is the hash of its
    /// children afterwards; where they are not, the nodes are copied all the same. Levels that are
    /// filled in before an error stay so.
    #[verifier::rlimit(50)]
    pub fn compute_updated_tree(
        &self,
        tree: &mut Vec<PH::Hash>,
        start_index: usize,
        middle_index: usize,
        start_precompute_index: usize,
        middle_precompute_index: Option<usize>,
    ) -> (result: Result<(), Error>)
        requires
            self.wf(),
            old(tree)@.len() == 2 * start_index + 1,
            is_pow2(start_index + 1),
            self.nodes().len() == 2 * start_precompute_index + 1,
            start_index <= middle_index <= 2 * start_index + 1,
            start_index > 0 && start_precompute_index > 0 ==> parent_of(
                start_precompute_index as int,
            ) + (middle_index - start_index) / 2 <= self.nodes().len(),
            start_index > 0 && (start_precompute_index > 0 || middle_index - start_index < 2) ==> (
            middle_precompute_index matches Some(middle_precompute) ==> middle_precompute > 0 ==> {
                &&& parent_of(middle_index as int) <= parent_of(middle_precompute as int)
                    <= start_index
                &&& start_index <= self.nodes().len()
            }),
        ensures
            ({
                let update = self.update(
                    old(tree)@,
                    start_index as int,
                    middle_index as int,
                    middle_precompute_index,
                );
                &&& update.outcome(old(tree)@, final(tree)@, result)
                &&& update.consistent() ==> update.consistent_outcome(
                    old(tree)@,
                    final(tree)@,
                    result,
                )
            }),
    {
        let ghost update = self.update(
            old(tree)@,
            start_index as int,
            middle_index as int,
            middle_precompute_index,
        );
        let ghost row = update.row;
        let ghost size = (start_precompute_index + 1) as nat;
        let mut current_start: usize = start_index;
        let mut current_middle: usize = middle_index;
        let mut precompute_start: usize = start_precompute_index;
        let mut precompute_middle: Option<usize> = middle_precompute_index;
        let tree_size: usize = tree.len();
        proof {
            self.lemma_layout();
            assert(update.left(0) == middle_index - start_index);
            assert(update.left(1) == update.left(0) / 2);
        }
        let ghost mut level: nat = 0;
        loop
            invariant
                update == self.update(
                    old(tree)@,
                    start_index as int,
                    middle_index as int,
                    middle_precompute_index,
                ),
                row == update.row,
                row.len() == start_index + 1,
                is_pow2(row.len() as int),
                tree_size == 2 * start_index + 1,
                tree@.len() == old(tree)@.len() == tree_size,
                self.nodes().len() == 2 * size - 1,
                is_pow2(size as int),
                update.reaches(level),
                update.filled(tree@, level),
                forall|i: int| 0 <= i < current_start ==> #[trigger] tree@[i] == old(tree)@[i],
                current_start == update.start(level),
                current_start <= start_index,
                current_middle - current_start == update.left(level),
                current_start <= current_middle <= 2 * current_start + 1,
                update.other_start(level) >= -1,
                precompute_start == (if update.other_start(level) > 0 {
                    update.other_start(level)
                } else {
                    0
                }),
                current_start > 0 && precompute_start > 0 ==> parent_of(precompute_start as int) + (
                current_middle - current_start) / 2 <= self.nodes().len(),
                precompute_middle is Some <==> update.unchanged.right is Some,
                precompute_middle == Some(0usize) && current_start > 0 ==> level == 0,
                precompute_middle matches Some(middle_precompute) ==> middle_precompute - 1
                    - current_start == update.right(level),
                current_start > 0 && !update.lacks_left(level) ==> (
                precompute_middle matches Some(middle_precompute) ==> middle_precompute > 0 ==> {
                    &&& parent_of(current_middle as int) <= parent_of(middle_precompute as int)
                        <= current_start
                    &&& current_start <= self.nodes().len()
                }),
            ensures
                current_start == 0,
            decreases current_start,
        {
            match (parent(current_start), parent(current_middle)) {
                (Some(start), Some(middle)) => {
                    let ghost before = tree@;
                    proof {
                        lemma_level_start(row.len(), level);
                        if precompute_start > 0 {
                            lemma_level_start(size, level);
                        }
                    }
                    // Compute the end index of the current level.
                    let end: usize = left_child(start);

                    // If the current level has precomputed indices, copy them instead of recomputing
                    // them.
                    let start_precompute: usize = match parent(precompute_start) {
                        Some(start_precompute) => start_precompute,
                        None => {
                            // Ensure the start index is equal to the middle index, as all precomputed
                            // indices have been processed.
                            if start != middle {
                                let result: Result<(), Error> = Err(Error::LeftPrecomputed);
                                proof {
                                    update.lemma_outcome(level, old(tree)@, tree@, result);
                                }
                                return result;
                            }
                            0
                        },
                    };
                    self.copy_left(tree, start, middle, start_precompute);
                    let ghost copied = tree@;
                    proof {
                        update.lemma_still_filled(before, copied, level);
                    }
                    // If the current level has precomputed indices on its right, copy them too.
                    // Note: This works because the old tree and new tree are the same power of two.
                    let to: usize = match precompute_middle {
                        Some(middle_precompute) => match parent(middle_precompute) {
                            Some(middle_precompute) => middle_precompute,
                            None => {
                                let result: Result<(), Error> = Err(Error::RightPrecomputed);
                                proof {
                                    update.lemma_outcome(level, old(tree)@, tree@, result);
                                }
                                return result;
                            },
                        },
                        None => end,
                    };
                    assert(to - start == update.right(level + 1));
                    if let Err(error) = self.compute_level(tree, middle, to, end) {
                        let ghost message = error@;
                        let result: Result<(), Error> = Err(Error::Hash(error));
                        proof {
                            assert(result->Err_0->Hash_0@ == message);
                            let i = choose|i: int|
                                computation_fails(
                                    update.function,
                                    copied,
                                    tree@,
                                    middle as int,
                                    to as int,
                                    i,
                                    message,
                                );
                            lemma_failed_update(
                                update,
                                level,
                                i - start,
                                copied,
                                old(tree)@,
                                tree@,
                                message,
                            );
                            update.lemma_still_filled(before, tree@, level);
                            update.lemma_outcome(level, old(tree)@, tree@, result);
                        }
                        return result;
                    }
                    proof {
                        update.lemma_level_filled(copied, tree@, level);
                    }
                    // Update the precompute indices for the next level.
                    precompute_start = start_precompute;
                    if precompute_middle.is_some() {
                        precompute_middle = Some(to + 1);
                    }
                    // Update the start index for the next level.
                    current_start = start;
                    // Update the middle index for the next level.
                    current_middle = middle;
                    proof {
                        level = level + 1;
                    }
                },
                _ => {
                    break;
                },
            }
        }
        proof {
            update.lemma_outcome(level, old(tree)@, tree@, Ok(()));
        }
        Ok(())
    }

    /// A leaf level that shares its first leaves with this tree, and where no leaf of either tree is
    /// from some point on, has the same leaves below the nodes that are copied from this tree.
    proof fn lemma_same_leaves(
        &self,
        leaf_level: Seq<PH::Hash>,
        num_nodes: int,
        kept: nat,
        touched: nat,
        middle_precompute_index: Option<usize>,
    )
        requires
            self.wf(),
            num_nodes >= 0,
            is_pow2(num_nodes + 1),
            leaf_level.len() == 2 * num_nodes + 1,
            kept <= self@.len() <= touched,
            kept <= num_nodes + 1,
            forall|j: int| 0 <= j < kept ==> #[trigger] leaf_level[num_nodes + j] == self@[j],
            middle_precompute_index matches Some(middle_precompute) ==> {
                &&& num_nodes + 1 == width(self@.len())
                &&& middle_precompute == num_nodes + touched + 1
                &&& touched <= num_nodes + 1
                &&& forall|j: int|
                    touched <= j < num_nodes + 1 ==> #[trigger] leaf_level[num_nodes + j]
                        == self.empty()
            },
        ensures
            self.update(
                leaf_level,
                num_nodes,
                num_nodes + kept,
                middle_precompute_index,
            ).consistent(),
    {
        let update = self.update(leaf_level, num_nodes, num_nodes + kept, middle_precompute_index);
        let old_start = self.row().len() - 1;
        self.lemma_layout();
        assert forall|j: int| 0 <= j < self.row().len() implies #[trigger] self.tree@[old_start + j]
            == self.row()[j] by {
            assert(self.tree@.skip(old_start)[j] == self.tree@[old_start + j]);
        }
        assert(update.left(0) == kept);
        assert(update.left(1) == kept / 2);
        assert(update.unchanged.right is Some ==> update.right(0) == touched);
        assert(update.unchanged.right is Some ==> update.right(1) == (touched + 1) / 2);
        assert forall|j: int| 0 <= j < 2 * update.left(1) implies #[trigger] update.row[j]
            == self.nodes()[old_start + j] by {
            assert(leaf_level[num_nodes + j] == self@[j]);
            assert(self.tree@[old_start + j] == self.row()[j]);
        }
        if middle_precompute_index is Some {
            assert forall|j: int|
                2 * update.right(1) <= j < update.row.len() implies #[trigger] update.row[j]
                == self.nodes()[old_start + j] by {
                assert(leaf_level[num_nodes + j] == self.empty());
                assert(self.tree@[old_start + j] == self.row()[j]);
            }
        }
    }

    /// Makes a tree of the given leaf level, which shares its first `kept` leaves with this tree,
    /// and where no leaf of either tree is at `touched` or after it.
    #[verifier::rlimit(60)]
    fn rebuild(
        &self,
        tree: Vec<PH::Hash>,
        num_nodes: usize,
        number_of_leaves: usize,
        kept: usize,
        touched: usize,
        levels: u8,
    ) -> (result: Result<Self, Error>)
        requires
            self.wf(),
            size_error(number_of_leaves as nat, DEPTH) is None,
            levels == padding_depth(number_of_leaves as nat, DEPTH as nat),
            num_nodes + 1 == width(number_of_leaves as nat),
            tree@.len() == 2 * num_nodes + 1,
            kept <= number_of_leaves <= touched,
            kept <= self@.len() <= touched,
            touched == self@.len() || touched == number_of_leaves,
            forall|j: int| 0 <= j < kept ==> #[trigger] tree@[num_nodes + j] == self@[j],
            forall|j: int|
                number_of_leaves <= j < num_nodes + 1 ==> #[trigger] tree@[num_nodes + j]
                    == self.empty(),
        ensures
            ({
                let hashes = tree@.subrange(num_nodes as int, num_nodes + number_of_leaves);
                match result {
                    Ok(merkle_tree) => {
                        &&& merkle_tree.wf()
                        &&& merkle_tree.hashes_like(self)
                        &&& merkle_tree@ == hashes
                    },
                    Err(Error::Hash(error)) => {
                        &&& merkle_root(
                            self.path_function(),
                            self.empty(),
                            hashes,
                            DEPTH as nat,
                        ) is None
                        &&& some_updated_hash_fails(
                            self.path_function(),
                            self.empty(),
                            hashes,
                            DEPTH as nat,
                            self.unchanged(
                                kept as nat,
                                number_of_leaves as nat,
                                touched as nat,
                            ),
                            error@,
                        )
                    },
                    Err(_) => false,
                }
            }),
    {
        let mut tree: Vec<PH::Hash> = tree;
        let ghost leaf_level = tree@;
        let ghost hashes = leaf_level.subrange(num_nodes as int, num_nodes + number_of_leaves);
        let ghost row = leaf_row(hashes, self.empty());
        proof {
            self.lemma_layout();
            lemma_width_is_least(number_of_leaves as nat);
            lemma_size_bounds(self@.len(), DEPTH);
            assert(leaf_level.skip(num_nodes as int) =~= row) by {
                assert forall|j: int| 0 <= j < row.len() implies leaf_level.skip(
                    num_nodes as int,
                )[j] == #[trigger] row[j] by {
                    assert(leaf_level.skip(num_nodes as int)[j] == leaf_level[num_nodes + j]);
                }
            }
        }
        assert(tree.len() == tree@.len());
        // Initialize a middle index to separate the precomputed indices from the new indices that need to be computed.
        let middle_index: usize = num_nodes + kept;
        // Initialize a precompute index to track the starting index of each precomputed level.
        let start_precompute_index: usize = match padded_width(self.number_of_leaves) {
            Some(num_leaves) => num_leaves - 1,
            None => {
                return Err(Error::LeafCountOverflow);
            },
        };
        // Initialize a precompute index to track the middle index of each precomputed level.
        let middle_precompute_index: Option<usize> = if num_nodes == start_precompute_index {
            // If the old tree and new tree are of the same size, then we can copy over the right half of the old tree.
            (start_precompute_index + touched).checked_add(1)
        } else {
            // Otherwise, there is no such half.
            None
        };
        proof {
            self.lemma_same_leaves(
                leaf_level,
                num_nodes as int,
                kept as nat,
                touched as nat,
                middle_precompute_index,
            );
        }
        // Compute and store the hashes for each level, iterating from the penultimate level to the root level.
        if let Err(error) = self.compute_updated_tree(
            &mut tree,
            num_nodes,
            middle_index,
            start_precompute_index,
            middle_precompute_index,
        ) {
            proof {
                let unchanged = self.unchanged(
                    kept as nat,
                    number_of_leaves as nat,
                    touched as nat,
                );
                let updated = update_unchanged(
                    num_nodes as int,
                    middle_index as int,
                    middle_precompute_index,
                );
                if updated != unchanged {
                    lemma_all_changed_fails(
                        self.path_function(),
                        row,
                        updated,
                        unchanged,
                        error->Hash_0@,
                    );
                }
                lemma_lift_missing(
                    self.path_function(),
                    self.empty(),
                    node(self.path_function(), row, 0),
                    0,
                    padding_depth(number_of_leaves as nat, DEPTH as nat),
                );
            }
            return Err(error);
        }
        proof {
            assert forall|i: int| num_nodes <= i < tree@.len() implies #[trigger] tree@[i]
                == leaf_level[i] by {
                assert(tree@.skip(num_nodes as int)[i - num_nodes] == leaf_level.skip(
                    num_nodes as int,
                )[i - num_nodes]);
            }
            assert(tree@.subrange(num_nodes as int, num_nodes + number_of_leaves) =~= hashes);
            assert forall|j: int|
                number_of_leaves <= j < num_nodes + 1 implies #[trigger] tree@[num_nodes + j]
                == self.empty() by {
                assert(leaf_level[num_nodes + j] == self.empty());
            }
        }
        // Compute the root hash, by iterating from the root level up to `DEPTH`.
        Self::with_nodes(
            &self.leaf_hasher,
            &self.path_hasher,
            tree,
            self.empty_hash,
            number_of_leaves,
            levels,
        )
    }

    /// Returns a new Merkle tree with the given new leaves appended to it.
    pub fn prepare_append(&self, new_leaves: &[LH::Leaf]) -> (result: Result<Self, Error>)
        requires
            self.wf(),
            self@.len() + new_leaves@.len() <= usize::MAX,
        ensures
            self.append_outcome(new_leaves@, result),
    {
        proof {
            self.lemma_layout();
        }
        let number_of_leaves: usize = self.number_of_leaves + new_leaves.len();
        let ghost leaves = number_of_leaves as nat;
        // Compute the maximum number of leaves.
        let max_leaves: usize = match padded_width(number_of_leaves) {
            Some(max_leaves) => max_leaves,
            None => {
                return Err(Error::LeafCountOverflow);
            },
        };
        proof {
            lemma_width_is_least(leaves);
            lemma_tree_size_fits(leaves);
            lemma_size_bounds(leaves, DEPTH);
        }
        // Compute the number of nodes.
        let num_nodes: usize = max_leaves - 1;
        // Compute the tree size as the maximum number of leaves plus the number of nodes.
        let tree_size: usize = num_nodes + max_leaves;
        // Compute the number of levels in the Merkle tree (i.e. log2(tree_size)).
        let levels: u8 = match tree_depth::<DEPTH>(tree_size) {
            Ok(levels) => levels,
            Err(error) => {
                return Err(error);
            },
        };

        // Initialize the Merkle tree.
        let mut tree: Vec<PH::Hash> = Vec::with_capacity(tree_size);
        pad(&mut tree, num_nodes, self.empty_hash);
        // Extend the new Merkle tree with the existing leaf hashes.
        let leaf_hashes: &[PH::Hash] = match self.leaf_hashes() {
            Ok(leaf_hashes) => leaf_hashes,
            Err(error) => {
                return Err(error);
            },
        };
        extend(&mut tree, leaf_hashes);
        // Extend the new Merkle tree with the new leaf hashes.
        let new_hashes: Vec<PH::Hash> = match self.leaf_hasher.hash_leaves(new_leaves) {
            Ok(new_hashes) => new_hashes,
            Err(error) => {
                return Err(Error::Hash(error));
            },
        };
        extend(&mut tree, new_hashes.as_slice());
        // Resize the new Merkle tree with empty hashes to pad up to `tree_size`.
        pad(&mut tree, tree_size, self.empty_hash);

        assert(tree@.subrange(num_nodes as int, num_nodes + number_of_leaves) =~= self@
            + new_hashes@);
        self.rebuild(
            tree,
            num_nodes,
            number_of_leaves,
            self.number_of_leaves,
            number_of_leaves,
            DEPTH - levels,
        )
    }

    /// Updates the Merkle tree with the given new leaves appended to it.
    pub fn append(&mut self, new_leaves: &[LH::Leaf]) -> (result: Result<(), Error>)
        requires
            old(self).wf(),
            old(self)@.len() + new_leaves@.len() <= usize::MAX,
        ensures
            match result {
                Ok(_) => old(self).append_outcome(new_leaves@, Ok(*final(self))),
                Err(error) => {
                    &&& old(self).append_outcome(new_leaves@, Err(error))
                    &&& *final(self) == *old(self)
                },
            },
    {
        // Compute the updated Merkle tree with the new leaves.
        match self.prepare_append(new_leaves) {
            Ok(updated_tree) => {
                // Update the tree at the very end, so that it is not altered in case of failure.
                *self = updated_tree;
                Ok(())
            },
            Err(error) => Err(error),
        }
    }

    /// Returns a new Merkle tree with the last `n` leaves removed from it.
    pub fn prepare_remove_last_n(&self, n: usize) -> (result: Result<Self, Error>)
        requires
            self.wf(),
        ensures
            self.removal_outcome(n, result),
    {
        proof {
            self.lemma_layout();
        }
        if n == 0 {
            return Err(Error::NoLeavesToRemove);
        }
        // Determine the updated number of leaves, after removing the last `n` leaves.
        let updated_number_of_leaves: usize = match self.number_of_leaves.checked_sub(n) {
            Some(updated_number_of_leaves) => updated_number_of_leaves,
            None => {
                return Err(
                    Error::NotEnoughLeaves { requested: n, available: self.number_of_leaves },
                );
            },
        };
        let ghost leaves = updated_number_of_leaves as nat;
        proof {
            lemma_width_is_least(leaves);
            lemma_height_monotone(leaves, self@.len());
            lemma_size_bounds(self@.len(), DEPTH);
            lemma_size_bounds(leaves, DEPTH);
            lemma_tree_size_fits(leaves);
        }
        // Compute the maximum number of leaves.
        let max_leaves: usize = match padded_width(updated_number_of_leaves) {
            Some(max_leaves) => max_leaves,
            None => {
                return Err(Error::LeafCountOverflow);
            },
        };
        // Compute the number of nodes.
        let num_nodes: usize = max_leaves - 1;
        // Compute the tree size as the maximum number of leaves plus the number of nodes.
        let tree_size: usize = num_nodes + max_leaves;
        // Compute the number of levels in the Merkle tree (i.e. log2(tree_size)).
        let levels: u8 = match tree_depth::<DEPTH>(tree_size) {
            Ok(levels) => levels,
            Err(error) => {
                return Err(error);
            },
        };

        // Initialize the Merkle tree.
        let mut tree: Vec<PH::Hash> = Vec::with_capacity(tree_size);
        pad(&mut tree, num_nodes, self.empty_hash);
        // Extend the new Merkle tree with the existing leaf hashes, excluding the last `n` leaves.
        let leaf_hashes: &[PH::Hash] = match self.leaf_hashes() {
            Ok(leaf_hashes) => leaf_hashes,
            Err(error) => {
                return Err(error);
            },
        };
        extend(&mut tree, slice_subrange(leaf_hashes, 0, updated_number_of_leaves));
        // Resize the new Merkle tree with empty hashes to pad up to `tree_size`.
        pad(&mut tree, tree_size, self.empty_hash);

        assert(tree@.subrange(num_nodes as int, num_nodes + updated_number_of_leaves) =~= self@.take(
            self@.len() - n,
        ));
        self.rebuild(
            tree,
            num_nodes,
            updated_number_of_leaves,
            updated_number_of_leaves,
            self.number_of_leaves,
            DEPTH - levels,
        )
    }

    /// Updates the Merkle tree with the last `n` leaves removed from it.
    pub fn remove_last_n(&mut self, n: usize) -> (result: Result<(), Error>)
        requires
            old(self).wf(),
        ensures
            match result {
                Ok(_) => old(self).removal_outcome(n, Ok(*final(self))),
                Err(error) => {
                    &&& old(self).removal_outcome(n, Err(error))
                    &&& *final(self) == *old(self)
                },
            },
    {
        // Compute the updated Merkle tree with the last `n` leaves removed.
        match self.prepare_remove_last_n(n) {
            Ok(updated_tree) => {
                // Update the tree at the very end, so that it is not altered in case of failure.
                *self = updated_tree;
                Ok(())
            },
            Err(error) => Err(error),
        }
    }

    /// Returns the leaf hashes from the Merkle tree.
    pub fn leaf_hashes(&self) -> (result: Result<&[LH::Hash], Error>)
        requires
            self.wf(),
        ensures
            result matches Ok(leaf_hashes) && leaf_hashes@ == self@,
    {
        proof {
            self.lemma_layout();
            lemma_size_bounds(self@.len(), DEPTH);
        }
        // Compute the start index (on the left) for the leaf hashes level in the Merkle tree.
        let start: usize = match padded_width(self.number_of_leaves) {
            Some(num_leaves) => num_leaves - 1,
            None => {
                return Err(Error::LeafCountOverflow);
            },
        };
        assert(self.tree.len() == self.nodes().len());
        // Compute the end index (on the right) for the leaf hashes level in the Merkle tree.
        let end: usize = start + self.number_of_leaves;
        // Return the leaf hashes.
        Ok(slice_subrange(self.tree.as_slice(), start, end))
    }

    /// Returns the Merkle path for the given leaf index and leaf.
    pub fn prove(&self, leaf_index: usize, leaf: &LH::Leaf) -> (result: Result<
        MerklePath<PH::Hash, DEPTH>,
        Error,
    >)
        requires
            self.wf(),
        ensures
            self.proof_outcome(leaf_index as nat, *leaf, result),
    {
        proof {
            self.lemma_layout();
            lemma_size_bounds(self@.len(), DEPTH);
        }
        // Ensure the leaf index is valid.
        if leaf_index >= self.number_of_leaves {
            return Err(Error::LeafIndexOutOfBounds);
        }
        // Compute the leaf hash.
        let leaf_hash: PH::Hash = match self.leaf_hasher.hash_leaf(leaf) {
            Ok(leaf_hash) => leaf_hash,
            Err(error) => {
                return Err(Error::Hash(error));
            },
        };
        // Compute the start index (on the left) for the leaf hashes level in the Merkle tree.
        let start: usize = match padded_width(self.number_of_leaves) {
            Some(num_leaves) => num_leaves - 1,
            None => {
                return Err(Error::LeafCountOverflow);
            },
        };
        let tree_size: usize = self.tree.len();
        // Compute the absolute index of the leaf in the Merkle tree.
        let mut index: usize = start + leaf_index;
        let ghost leaf_node = index as int;
        // Ensure the leaf hash matches the one in the tree.
        proof {
            PH::lemma_hash_equality();
            reveal(vstd::laws_eq::obeys_concrete_eq);
        }
        if self.tree[index] != leaf_hash {
            return Err(Error::LeafMismatch);
        }
        // Initialize a vector for the Merkle path.
        let mut path: Vec<PH::Hash> = Vec::with_capacity(DEPTH as usize);
        proof {
            lemma_siblings_count(self.tree@, leaf_node, height(self@.len()));
            assert(path@ + siblings_above(self.tree@, index as int) =~= siblings_above(
                self.tree@,
                leaf_node,
            ));
        }
        // Iterate from the leaf hash to the root level, storing the sibling hashes along the path.
        for level in 0..DEPTH
            invariant
                tree_size == self.tree@.len(),
                tree_size % 2 == 1,
                index < tree_size,
                path@ + siblings_above(self.tree@, index as int) == siblings_above(
                    self.tree@,
                    leaf_node,
                ),
                siblings_above(self.tree@, leaf_node).len() == height(self@.len()),
                height(self@.len()) <= DEPTH,
                siblings_above(self.tree@, index as int).len() <= DEPTH - level,
        {
            // Compute the index of the sibling hash, if it exists.
            if let Some(sibling) = sibling(index) {
                let ghost before = path@;
                // Append the sibling hash to the path.
                path.push(self.tree[sibling]);
                // Compute the index of the parent hash, if it exists.
                if let Some(parent) = parent(index) {
                    assert(path@ + siblings_above(self.tree@, parent as int) =~= before
                        + siblings_above(self.tree@, index as int));
                    // Update the index to the parent index.
                    index = parent;
                }
            }
        }
        assert(path@ =~= siblings_above(self.tree@, leaf_node));
        // If the Merkle path length is not equal to `DEPTH`, pad the path with the empty hash.
        pad(&mut path, DEPTH as usize, self.empty_hash);
        proof {
            assert(path@ =~= merkle_path(
                self.nodes(),
                self.empty(),
                self@.len(),
                DEPTH as nat,
                leaf_index as nat,
            ));
            if height(self@.len()) < DEPTH {
                lemma_pow2_strictly_increases(height(self@.len()), DEPTH as nat);
            }
        }
        // Return the Merkle path.
        MerklePath::try_from((leaf_index as u64, path))
    }

    /// Returns `true` if the given Merkle path is valid for the given root and leaf.
    pub fn verify(&self, path: &MerklePath<PH::Hash, DEPTH>, root: &PH::Hash, leaf: &LH::Leaf) -> (valid:
        bool)
        ensures
            valid == path_leads_to(
                self.leaf_function(),
                self.path_function(),
                DEPTH,
                path.index(),
                path.hashes(),
                *root,
                *leaf,
            ),
    {
        path.verify(&self.leaf_hasher, &self.path_hasher, root, leaf)
    }

    /// Returns the Merkle root of the tree.
    pub fn root(&self) -> (root: &PH::Hash)
        ensures
            *root == self.root_hash(),
    {
        &self.root
    }

    /// Returns the Merkle tree (excluding the hashes of the leaves), from its top on.
    pub fn tree(&self) -> (tree: &[PH::Hash])
        requires
            self.wf(),
        ensures
            tree@ == self.nodes().take(width(self@.len()) - 1),
    {
        proof {
            self.lemma_layout();
        }
        // A complete tree has one inner node less than it has leaves.
        slice_subrange(self.tree.as_slice(), 0, self.tree.len() / 2)
    }

    /// Returns the empty hash.
    pub fn empty_hash(&self) -> (empty_hash: &PH::Hash)
        ensures
            *empty_hash == self.empty(),
    {
        &self.empty_hash
    }

    /// Returns the number of leaves in the Merkle tree.
    pub fn number_of_leaves(&self) -> (number_of_leaves: usize)
        ensures
            number_of_leaves == self.leaf_count(),
    {
        self.number_of_leaves
    }
}

impl<LH: LeafHash<Hash = PH::Hash>, PH: PathHash, const DEPTH: u8> Clone for MerkleTree<
    LH,
    PH,
    DEPTH,
> {
    fn clone(&self) -> (copy: Self)
        ensures
            copy@ == self@,
            copy.hashes_like(self),
            copy.empty() == self.empty(),
            copy.nodes() == self.nodes(),
            copy.root_hash() == self.root_hash(),
            copy.leaf_count() == self.leaf_count(),
            copy.wf() == self.wf(),
    {
        let leaf_hasher: LH = self.leaf_hasher.clone();
        let path_hasher: PH = self.path_hasher.clone();
        proof {
            self.leaf_hasher.lemma_clone_hashes_alike(&leaf_hasher);
            self.path_hasher.lemma_clone_hashes_alike(&path_hasher);
        }
        let mut tree: Vec<PH::Hash> = Vec::with_capacity(self.tree.len());
        extend(&mut tree, self.tree.as_slice());
        assert(tree@ =~= self.tree@);
        MerkleTree {
            leaf_hasher,
            path_hasher,
            root: self.root,
            tree,
            empty_hash: self.empty_hash,
            number_of_leaves: self.number_of_leaves,
        }
    }
}

} // verus!
