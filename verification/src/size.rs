//! The size of a Merkle tree: how many levels and how many nodes a number of leaves needs.
use crate::error::Error;
use vstd::arithmetic::power2::{
    is_pow2, lemma2_to64, lemma2_to64_rest, lemma_pow2_pos, lemma_pow2_strictly_increases,
    lemma_pow2_unfold, pow2,
};
use vstd::prelude::*;

verus! {

/// The depth of a Merkle tree is at most this many levels.
pub const MAX_DEPTH: u8 = 64;

/// The number of nodes of a Merkle tree is less than this number, which is `2^52`.
pub const MAX_TREE_SIZE: u64 = 0x10_0000_0000_0000;

/// The number of levels above the leaves that hold `leaves` leaves: the logarithm to base 2,
/// rounded up.
pub open spec fn height(leaves: nat) -> nat
    decreases leaves,
{
    if leaves <= 1 {
        0
    } else {
        1 + height((leaves + 1) / 2)
    }
}

/// The number of leaves, padded to a power of two.
pub open spec fn width(leaves: nat) -> nat {
    pow2(height(leaves))
}

/// The logarithm of `n` to base 2, rounded down; 0 where `n` is 0.
pub open spec fn floor_log2(n: nat) -> nat
    decreases n,
{
    if n < 2 {
        0
    } else {
        1 + floor_log2(n / 2)
    }
}

/// The reason for which there is no Merkle tree of the given depth.
pub open spec fn depth_error(depth: u8) -> Option<Error> {
    if depth == 0 {
        Some(Error::ZeroDepth)
    } else if depth > MAX_DEPTH {
        Some(Error::DepthTooLarge)
    } else {
        None
    }
}

/// The reason for which a tree of `tree_size` nodes does not fit the given depth.
pub open spec fn tree_depth_error(tree_size: nat, depth: u8) -> Option<Error> {
    if tree_size >= MAX_TREE_SIZE {
        Some(Error::TreeTooLarge)
    } else if floor_log2(tree_size) > depth {
        Some(Error::DepthExceeded { depth: floor_log2(tree_size) as u8, maximum: depth })
    } else {
        None
    }
}

/// The reason for which `leaves` leaves do not fit a Merkle tree of the given depth.
pub open spec fn size_error(leaves: nat, depth: u8) -> Option<Error> {
    if width(leaves) > usize::MAX {
        Some(Error::LeafCountOverflow)
    } else {
        tree_depth_error((2 * width(leaves) - 1) as nat, depth)
    }
}

/// `usize::checked_next_power_of_two` returns the smallest power of two that is greater than or
/// equal to `n`, or `None` where that power of two is greater than the largest `usize`.
pub assume_specification[ usize::checked_next_power_of_two ](n: usize) -> (result: Option<usize>)
    ensures
        match result {
            Some(power) => {
                &&& is_pow2(power as int)
                &&& n <= power
                &&& forall|other: int| #[trigger] is_pow2(other) && n <= other ==> power <= other
            },
            None => forall|other: int| #[trigger]
                is_pow2(other) && n <= other ==> other > usize::MAX,
        },
;

/// `pow2(k)` is a power of two.
pub proof fn lemma_pow2_is_pow2(k: nat)
    ensures
        is_pow2(pow2(k) as int),
    decreases k,
{
    reveal(is_pow2);
    lemma_pow2_pos(k);
    if k == 0 {
        lemma2_to64();
    } else {
        lemma_pow2_unfold(k);
        lemma_pow2_is_pow2((k - 1) as nat);
    }
}

/// `width(leaves)` is the smallest power of two that is at least `leaves`.
pub proof fn lemma_width_is_least(leaves: nat)
    ensures
        is_pow2(width(leaves) as int),
        leaves <= width(leaves),
        width(leaves) >= 1,
        leaves == 0 ==> width(leaves) == 1,
        forall|other: int| #[trigger] is_pow2(other) && leaves <= other ==> width(leaves) <= other,
    decreases leaves,
{
    lemma_pow2_is_pow2(height(leaves));
    lemma2_to64();
    if leaves > 1 {
        let half = (leaves + 1) / 2;
        lemma_width_is_least(half);
        lemma_pow2_unfold(height(leaves));
        assert forall|other: int| #[trigger] is_pow2(other) && leaves <= other implies width(leaves)
            <= other by {
            reveal(is_pow2);
            assert(is_pow2(other / 2));
        }
    } else {
        assert forall|other: int| #[trigger] is_pow2(other) && leaves <= other implies width(leaves)
            <= other by {
            reveal(is_pow2);
        }
    }
}

/// More leaves need no fewer levels.
pub proof fn lemma_height_monotone(fewer: nat, more: nat)
    requires
        fewer <= more,
    ensures
        height(fewer) <= height(more),
        width(fewer) <= width(more),
    decreases more,
{
    if more > 1 && fewer > 1 {
        lemma_height_monotone((fewer + 1) / 2, (more + 1) / 2);
    }
    if height(fewer) < height(more) {
        lemma_pow2_strictly_increases(height(fewer), height(more));
    }
}

/// A complete tree over `2^k` leaves has depth `k`.
pub proof fn lemma_depth_of_complete_tree(k: nat)
    ensures
        floor_log2((2 * pow2(k) - 1) as nat) == k,
    decreases k,
{
    lemma_pow2_pos(k);
    if k == 0 {
        lemma2_to64();
    } else {
        lemma_pow2_unfold(k);
        lemma_pow2_pos((k - 1) as nat);
        lemma_depth_of_complete_tree((k - 1) as nat);
        assert((2 * pow2(k) - 1) / 2 == 2 * pow2((k - 1) as nat) - 1);
    }
}

/// Where the padded number of leaves is a `usize`, so is the number of nodes.
pub proof fn lemma_tree_size_fits(leaves: nat)
    requires
        width(leaves) <= usize::MAX,
    ensures
        2 * width(leaves) - 1 <= usize::MAX,
{
    let bits = usize::BITS as nat;
    vstd::layout::unsigned_int_max_values();
    lemma_pow2_unfold(bits);
    if height(leaves) >= bits {
        if height(leaves) > bits {
            lemma_pow2_strictly_increases(bits, height(leaves));
        }
    } else if height(leaves) < bits - 1 {
        lemma_pow2_strictly_increases(height(leaves), (bits - 1) as nat);
    }
}

/// Leaves that fit a Merkle tree need no more levels than its depth.
pub proof fn lemma_size_bounds(leaves: nat, depth: u8)
    ensures
        size_error(leaves, depth) is None <==> {
            &&& width(leaves) <= usize::MAX
            &&& 2 * width(leaves) - 1 < MAX_TREE_SIZE
            &&& height(leaves) <= depth
        },
        floor_log2((2 * width(leaves) - 1) as nat) == height(leaves),
{
    lemma_depth_of_complete_tree(height(leaves));
    lemma_width_is_least(leaves);
}

/// A power of two above 1 is even, and its half is a power of two.
pub proof fn lemma_half_of_power(power: int)
    requires
        is_pow2(power),
        power > 1,
    ensures
        power % 2 == 0,
        is_pow2(power / 2),
{
    reveal(is_pow2);
}

/// Returns the number of leaves, padded to a power of two, if it is a `usize`.
pub(crate) fn padded_width(leaves: usize) -> (result: Option<usize>)
    ensures
        match result {
            Some(power) => power == width(leaves as nat),
            None => width(leaves as nat) > usize::MAX,
        },
{
    proof {
        lemma_width_is_least(leaves as nat);
    }
    leaves.checked_next_power_of_two()
}

/// Returns the depth of the tree, given the size of the tree.
pub fn tree_depth<const DEPTH: u8>(tree_size: usize) -> (result: Result<u8, Error>)
    ensures
        match tree_depth_error(tree_size as nat, DEPTH) {
            Some(error) => result == Err::<u8, _>(error),
            None => result matches Ok(depth) && depth == floor_log2(tree_size as nat),
        },
{
    if tree_size as u64 >= MAX_TREE_SIZE {
        return Err(Error::TreeTooLarge);
    }
    let mut rest: usize = tree_size;
    let mut tree_depth: u8 = 0;
    proof {
        lemma2_to64_rest();
        assert(rest < pow2((52 - tree_depth) as nat));
    }
    while rest > 1
        invariant
            tree_depth <= 52,
            rest < pow2((52 - tree_depth) as nat),
            floor_log2(tree_size as nat) == tree_depth + floor_log2(rest as nat),
        decreases rest,
    {
        proof {
            if tree_depth == 52 {
                lemma2_to64();
            }
            lemma_pow2_unfold((52 - tree_depth) as nat);
        }
        rest = rest / 2;
        tree_depth = tree_depth + 1;
    }
    if tree_depth <= DEPTH {
        Ok(tree_depth)
    } else {
        Err(Error::DepthExceeded { depth: tree_depth, maximum: DEPTH })
    }
}

} // verus!
