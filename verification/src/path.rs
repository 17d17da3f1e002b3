//! The path from a leaf of a Merkle tree to its root.
use crate::error::Error;
use crate::hash::{LeafFunction, LeafHash, PathFunction, PathHash};
use crate::model::path_root;
use crate::size::{depth_error, MAX_DEPTH};
use vstd::arithmetic::power2::pow2;
use vstd::prelude::*;

verus! {

/// A path from a leaf of a Merkle tree of depth `DEPTH` to its root.
pub struct MerklePath<H, const DEPTH: u8> {
    /// The index of the leaf.
    leaf_index: u64,
    /// The siblings of the nodes on the path, from the leaf to the root.
    siblings: Vec<H>,
}

/// The reason for which a leaf index and a number of siblings do not make a path.
pub open spec fn path_error(leaf_index: nat, siblings: nat, depth: u8) -> Option<Error> {
    match depth_error(depth) {
        Some(error) => Some(error),
        None => if leaf_index >= pow2(depth as nat) {
            Some(Error::LeafIndexOutOfBounds)
        } else if siblings != depth {
            Some(Error::PathLengthMismatch)
        } else {
            None
        },
    }
}

/// A leaf at the given index leads along the siblings to the root of a tree of the given depth.
pub open spec fn path_leads_to<L, H>(
    leaf_function: LeafFunction<L, H>,
    path_function: PathFunction<H>,
    depth: u8,
    leaf_index: nat,
    siblings: Seq<H>,
    root: H,
    leaf: L,
) -> bool {
    &&& path_error(leaf_index, siblings.len(), depth) is None
    &&& leaf_function(leaf) is Ok
    &&& path_root(path_function, leaf_function(leaf)->Ok_0, leaf_index, siblings) == Some(root)
}

impl<H: Copy + PartialEq, const DEPTH: u8> MerklePath<H, DEPTH> {
    /// The index of the leaf.
    pub closed spec fn index(&self) -> nat {
        self.leaf_index as nat
    }

    /// The siblings of the nodes on the path, from the leaf to the root.
    pub closed spec fn hashes(&self) -> Seq<H> {
        self.siblings@
    }

    /// The leaf index is one of a tree of this depth, and the path has as many siblings.
    pub open spec fn wf(&self) -> bool {
        path_error(self.index(), self.hashes().len(), DEPTH) is None
    }

    /// Returns the path of the leaf with the given index and the given siblings.
    pub fn try_from(parts: (u64, Vec<H>)) -> (result: Result<Self, Error>)
        ensures
            match path_error(parts.0 as nat, parts.1@.len(), DEPTH) {
                Some(error) => result == Err::<Self, Error>(error),
                None => result matches Ok(path) && path.wf() && path.index() == parts.0
                    && path.hashes() == parts.1@,
            },
    {
        let (leaf_index, siblings) = parts;
        if DEPTH == 0 {
            return Err(Error::ZeroDepth);
        }
        if DEPTH > MAX_DEPTH {
            return Err(Error::DepthTooLarge);
        }
        if !index_within(leaf_index, DEPTH) {
            return Err(Error::LeafIndexOutOfBounds);
        }
        if siblings.len() != DEPTH as usize {
            return Err(Error::PathLengthMismatch);
        }
        Ok(MerklePath { leaf_index, siblings })
    }

    /// Returns the index of the leaf.
    pub fn leaf_index(&self) -> (leaf_index: u64)
        ensures
            leaf_index == self.index(),
    {
        self.leaf_index
    }

    /// Returns the siblings, from the leaf to the root.
    pub fn siblings(&self) -> (siblings: &[H])
        ensures
            siblings@ == self.hashes(),
    {
        self.siblings.as_slice()
    }

    /// Returns `true` if the path is valid for the given root and leaf.
    pub fn verify<LH: LeafHash<Hash = H>, PH: PathHash<Hash = H>>(
        &self,
        leaf_hasher: &LH,
        path_hasher: &PH,
        root: &H,
        leaf: &LH::Leaf,
    ) -> (valid: bool)
        ensures
            valid == path_leads_to(
                leaf_hasher.function(),
                path_hasher.function(),
                DEPTH,
                self.index(),
                self.hashes(),
                *root,
                *leaf,
            ),
    {
        if DEPTH == 0 || DEPTH > MAX_DEPTH || !index_within(self.leaf_index, DEPTH)
            || self.siblings.len() != DEPTH as usize {
            return false;
        }
        let mut current: H = match leaf_hasher.hash_leaf(leaf) {
            Ok(leaf_hash) => leaf_hash,
            Err(_) => {
                return false;
            },
        };
        let ghost leaf_hash = current;
        let mut index: u64 = self.leaf_index;
        let count: usize = self.siblings.len();
        assert(self.siblings@.skip(0) =~= self.siblings@);
        for i in 0..count
            invariant
                count == self.siblings@.len(),
                path_root(
                    path_hasher.function(),
                    leaf_hash,
                    self.leaf_index as nat,
                    self.siblings@,
                ) == path_root(
                    path_hasher.function(),
                    current,
                    index as nat,
                    self.siblings@.skip(i as int),
                ),
                leaf_hasher.function()(*leaf) == Ok::<H, Seq<char>>(leaf_hash),
        {
            assert(self.siblings@.skip(i as int).drop_first() =~= self.siblings@.skip(i + 1));
            let sibling: H = self.siblings[i];
            let above = if index % 2 == 0 {
                path_hasher.hash_children(&current, &sibling)
            } else {
                path_hasher.hash_children(&sibling, &current)
            };
            match above {
                Ok(parent) => {
                    current = parent;
                },
                Err(_) => {
                    return false;
                },
            }
            index = index / 2;
        }
        proof {
            PH::lemma_hash_equality();
            reveal(vstd::laws_eq::obeys_concrete_eq);
        }
        current == *root
    }
}

/// Returns `true` if `index` is less than `2^depth`.
fn index_within(index: u64, depth: u8) -> (within: bool)
    requires
        depth <= MAX_DEPTH,
    ensures
        within == (index < pow2(depth as nat)),
{
    proof {
        vstd::arithmetic::power2::lemma2_to64();
        vstd::arithmetic::power2::lemma_pow2_pos(depth as nat);
    }
    if depth == 64 {
        return true;
    }
    let shift: u64 = depth as u64;
    proof {
        let power = pow2(depth as nat) as int;
        vstd::bits::lemma_u64_shr_is_div(index, shift);
        assert((index as int / power == 0) == (index < power)) by (nonlinear_arith)
            requires
                power > 0,
                index >= 0,
        ;
    }
    index >> shift == 0
}

} // verus!
