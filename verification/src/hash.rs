//! The two hash functions of a Merkle tree: one on leaves, and one on pairs of hashes.
use crate::error::HashError;
use crate::parallel::try_map;
use vstd::prelude::*;

verus! {

/// A hash, or what the error says for which there is none.
pub type Outcome<H> = Result<H, Seq<char>>;

/// What a leaf hash computes: the hash of a leaf, or why there is none.
pub type LeafFunction<L, H> = spec_fn(L) -> Outcome<H>;

/// What a path hash computes: the hash of a left and a right child, or why there is none.
pub type PathFunction<H> = spec_fn(H, H) -> Outcome<H>;

/// What the result of a hash function amounts to.
pub open spec fn outcome<H>(result: Result<H, HashError>) -> Outcome<H> {
    match result {
        Ok(hash) => Ok(hash),
        Err(error) => Err(error@),
    }
}

/// Every one of the leaves has a hash.
pub open spec fn all_leaves_hash<L, H>(function: LeafFunction<L, H>, leaves: Seq<L>) -> bool {
    forall|i: int| 0 <= i < leaves.len() ==> function(#[trigger] leaves[i]) is Ok
}

/// The hashes of the leaves, where every one of them has one.
pub open spec fn hashes_of<L, H>(function: LeafFunction<L, H>, leaves: Seq<L>) -> Seq<H> {
    Seq::new(leaves.len(), |i: int| function(leaves[i])->Ok_0)
}

/// One of the leaves has no hash, for the given reason.
pub open spec fn some_leaf_fails<L, H>(
    function: LeafFunction<L, H>,
    leaves: Seq<L>,
    message: Seq<char>,
) -> bool {
    exists|i: int|
        0 <= i < leaves.len() && function(#[trigger] leaves[i]) == Err::<H, Seq<char>>(message)
}

/// The hash function on the leaves of a Merkle tree.
pub trait LeafHash: Clone + Send + Sync {
    /// The hash of a leaf.
    type Hash: Copy + PartialEq + Send + Sync;

    /// A leaf.
    type Leaf: Send + Sync;

    /// The function that this hasher computes.
    spec fn function(&self) -> LeafFunction<Self::Leaf, Self::Hash>;

    /// A clone of a hasher computes the same function.
    proof fn lemma_clone_hashes_alike(&self, other: &Self)
        requires
            cloned(*self, *other),
        ensures
            self.function() == other.function(),
    ;

    /// Returns the hash of the given leaf.
    fn hash_leaf(&self, leaf: &Self::Leaf) -> (result: Result<Self::Hash, HashError>)
        ensures
            outcome(result) == self.function()(*leaf),
    ;

    /// Returns the hash of each leaf.
    fn hash_leaves(&self, leaves: &[Self::Leaf]) -> (result: Result<Vec<Self::Hash>, HashError>)
        ensures
            match result {
                Ok(hashes) => {
                    &&& all_leaves_hash(self.function(), leaves@)
                    &&& hashes@ == hashes_of(self.function(), leaves@)
                },
                Err(error) => some_leaf_fails(self.function(), leaves@, error@),
            },
    {
        let op = |leaf: &Self::Leaf| -> (hashed: Result<Self::Hash, HashError>)
            ensures
                outcome(hashed) == self.function()(*leaf),
            { self.hash_leaf(leaf) };
        let hashes = match try_map(leaves, op) {
            Ok(hashes) => hashes,
            Err(error) => {
                return Err(error);
            },
        };
        proof {
            assert forall|i: int| 0 <= i < leaves@.len() implies self.function()(
                #[trigger] leaves@[i],
            ) == Ok::<Self::Hash, Seq<char>>(hashes@[i]) by {
                let hash = hashes@[i];
            }
            assert(hashes@ =~= hashes_of(self.function(), leaves@));
        }
        Ok(hashes)
    }
}

/// The hash function on the inner nodes of a Merkle tree.
pub trait PathHash: Clone + Send + Sync {
    /// The hash of a node.
    type Hash: Copy + PartialEq + Send + Sync;

    /// The function on pairs of children that this hasher computes.
    spec fn function(&self) -> PathFunction<Self::Hash>;

    /// The hash that stands for an absent node, or why there is none.
    spec fn empty(&self) -> Outcome<Self::Hash>;

    /// A clone of a hasher computes the same function, with the same empty hash.
    proof fn lemma_clone_hashes_alike(&self, other: &Self)
        requires
            cloned(*self, *other),
        ensures
            self.function() == other.function(),
            self.empty() == other.empty(),
    ;

    /// `==` on hashes tells whether they are the same.
    proof fn lemma_hash_equality()
        ensures
            vstd::laws_eq::obeys_concrete_eq::<Self::Hash>(),
    ;

    /// Returns the empty hash.
    fn hash_empty(&self) -> (result: Result<Self::Hash, HashError>)
        ensures
            outcome(result) == self.empty(),
    ;

    /// Returns the hash of the given child nodes.
    fn hash_children(&self, left: &Self::Hash, right: &Self::Hash) -> (result: Result<
        Self::Hash,
        HashError,
    >)
        ensures
            outcome(result) == self.function()(*left, *right),
    ;

    /// Returns the hash of each pair of child nodes.
    fn hash_all_children(&self, pairs: &[(Self::Hash, Self::Hash)]) -> (result: Result<
        Vec<Self::Hash>,
        HashError,
    >)
        ensures
            match result {
                Ok(hashes) => {
                    &&& hashes@.len() == pairs@.len()
                    &&& forall|i: int|
                        #![trigger hashes@[i]]
                        0 <= i < pairs@.len() ==> self.function()(pairs@[i].0, pairs@[i].1) == Ok::<
                            Self::Hash,
                            Seq<char>,
                        >(hashes@[i])
                },
                Err(error) => exists|i: int|
                    0 <= i < pairs@.len() && self.function()(
                        (#[trigger] pairs@[i]).0,
                        pairs@[i].1,
                    ) == Err::<Self::Hash, Seq<char>>(error@),
            },
    {
        let op = |pair: &(Self::Hash, Self::Hash)| -> (hashed: Result<Self::Hash, HashError>)
            ensures
                outcome(hashed) == self.function()(pair.0, pair.1),
            { self.hash_children(&pair.0, &pair.1) };
        try_map(pairs, op)
    }
}

} // verus!
