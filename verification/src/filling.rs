//! What `compute_updated_tree` does, told by its arguments and results alone.
use crate::error::Error;
use crate::hash::{LeafHash, PathFunction, PathHash};
use crate::laws::law_inner_nodes_hash_children;
use crate::model::{
    hashed_at, lemma_hashed_nodes, lemma_level_start, lemma_levels_ordered,
};
use crate::operations::{
    holds_hash, lemma_before_right, lemma_level_start_of_power, pair_hash,
};
use crate::size::{height, lemma_pow2_is_pow2, lemma_width_is_least, width};
use crate::tree::MerkleTree;
use crate::update::Update;
use vstd::arithmetic::div_mod::{lemma_basic_div, lemma_div_denominator};
use vstd::arithmetic::power2::{
    lemma2_to64, lemma_pow2_pos, lemma_pow2_strictly_increases, lemma_pow2_unfold, pow2,
};
use vstd::prelude::*;

verus! {

/// A node is filled in, `level` levels above the last one: on the left, it is the one at the same
/// position of this level of the other tree; on the right, the one with the same index in the other
/// tree; and in between, it holds the hash of the two nodes below it.
///
/// On the last level, `left` nodes are on the left, and those from the position `right` on are on the
/// right. A node above them is on a side where both nodes below it are.
pub open spec fn filled_in<H>(
    function: PathFunction<H>,
    others: Seq<H>,
    other_levels: nat,
    left: nat,
    right: Option<int>,
    nodes: Seq<H>,
    levels: nat,
    level: nat,
    position: int,
) -> bool {
    let index = pow2((levels - level) as nat) - 1 + position;
    if position < left / pow2(level) {
        &&& level <= other_levels
        &&& nodes[index] == others[pow2((other_levels - level) as nat) - 1 + position]
    } else if right is Some && position >= (right->0 + pow2(level) - 1) / (pow2(level) as int) {
        nodes[index] == others[index]
    } else {
        holds_hash(function, nodes, index)
    }
}

/// Every node from one level above the last one up to a level is filled in.
pub open spec fn filled_up_to<H>(
    function: PathFunction<H>,
    others: Seq<H>,
    other_levels: nat,
    left: nat,
    right: Option<int>,
    nodes: Seq<H>,
    levels: nat,
    top: nat,
) -> bool {
    forall|level: nat, position: int|
        1 <= level <= top && 0 <= position < pow2((levels - level) as nat) ==> #[trigger] filled_in(
            function,
            others,
            other_levels,
            left,
            right,
            nodes,
            levels,
            level,
            position,
        )
}

/// How many nodes are on the left of a level.
proof fn lemma_left_of_level<H>(update: Update<H>, level: nat)
    ensures
        update.left(level) == update.unchanged.left / pow2(level),
    decreases level,
{
    if level == 0 {
        lemma2_to64();
        let left = update.unchanged.left;
        let one = pow2(0);
        assert(left / one == left) by (nonlinear_arith)
            requires
                one == 1,
        ;
    } else {
        let below = (level - 1) as nat;
        let left = update.unchanged.left;
        lemma_left_of_level(update, below);
        lemma_pow2_unfold(level);
        lemma_pow2_pos(below);
        lemma_div_denominator(left as int, pow2(below) as int, 2);
        assert(pow2(below) * 2 == pow2(level));
    }
}

/// Where the nodes on the right of a level begin.
proof fn lemma_right_of_level<H>(update: Update<H>, level: nat)
    requires
        update.unchanged.right is Some,
        update.unchanged.right->0 >= -1,
        level > 0 || update.unchanged.right->0 >= 0,
    ensures
        update.right(level) == (update.unchanged.right->0 + pow2(level) - 1) / (pow2(level) as int),
    decreases level,
{
    let right = update.unchanged.right->0;
    lemma2_to64();
    if level == 0 {
        let one = pow2(0) as int;
        assert((right + one - 1) / one == right) by (nonlinear_arith)
            requires
                one == 1,
        ;
    } else if level == 1 {
        assert(update.right(0) == right);
    } else {
        let below = (level - 1) as nat;
        let power = pow2(below) as int;
        lemma_right_of_level(update, below);
        lemma_pow2_unfold(level);
        lemma_pow2_pos(below);
        assert((right + power - 1) / power + 1 == (right + 2 * power - 1) / power)
            by (nonlinear_arith)
            requires
                power > 0,
        ;
        lemma_div_denominator(right + 2 * power - 1, power, 2);
        assert(power * 2 == pow2(level));
    }
}

/// Where a level is filled in, in the model, it is so told by its nodes.
proof fn lemma_filled_up_to<H>(
    update: Update<H>,
    nodes: Seq<H>,
    levels: nat,
    other_levels: nat,
    top: nat,
)
    requires
        update.row.len() == pow2(levels),
        update.others.len() == 2 * pow2(other_levels) - 1,
        update.unchanged.right is Some ==> update.unchanged.right->0 >= -1,
        top <= levels,
        update.reaches(top),
        update.filled(nodes, top),
    ensures
        filled_up_to(
            update.function,
            update.others,
            other_levels,
            update.unchanged.left,
            update.unchanged.right,
            nodes,
            levels,
            top,
        ),
{
    lemma_pow2_is_pow2(levels);
    assert forall|level: nat, position: int|
        1 <= level <= top && 0 <= position < pow2(
            (levels - level) as nat,
        ) implies #[trigger] filled_in(
        update.function,
        update.others,
        other_levels,
        update.unchanged.left,
        update.unchanged.right,
        nodes,
        levels,
        level,
        position,
    ) by {
        lemma_reached(update, level, top);
        lemma_level_start_of_power(levels, level);
        lemma_filled_in(update, nodes, levels, other_levels, level, position);
    }
}

/// Where a level gets filled in, so do those below it.
proof fn lemma_reached<H>(update: Update<H>, low: nat, high: nat)
    requires
        low <= high,
        update.reaches(high),
    ensures
        update.reaches(low),
    decreases high,
{
    if low < high {
        lemma_reached(update, low, (high - 1) as nat);
    }
}

/// A node of the other tree that is to be copied is on one of its levels.
proof fn lemma_other_level<H>(update: Update<H>, other_levels: nat, level: nat)
    requires
        update.others.len() == 2 * pow2(other_levels) - 1,
        update.other_start(level) > 0,
    ensures
        level < other_levels,
{
    lemma2_to64();
    lemma_pow2_pos(other_levels);
    lemma_pow2_is_pow2(other_levels);
    assert((update.others.len() + 1) / 2 == pow2(other_levels));
    lemma_level_start_of_power(other_levels, other_levels);
    if level >= other_levels {
        lemma_levels_ordered(pow2(other_levels), other_levels, level);
    }
}

/// A node that is filled in, in the model, is so told by its value.
proof fn lemma_filled_in<H>(
    update: Update<H>,
    nodes: Seq<H>,
    levels: nat,
    other_levels: nat,
    level: nat,
    position: int,
)
    requires
        update.row.len() == pow2(levels),
        update.others.len() == 2 * pow2(other_levels) - 1,
        update.unchanged.right is Some ==> update.unchanged.right->0 >= -1,
        1 <= level <= levels,
        0 <= position < pow2((levels - level) as nat),
        !update.lacks_left((level - 1) as nat),
        update.filled(nodes, (level - 1) as nat),
        update.node_at(level, position) == Some(nodes[update.start(level) + position]),
    ensures
        filled_in(
            update.function,
            update.others,
            other_levels,
            update.unchanged.left,
            update.unchanged.right,
            nodes,
            levels,
            level,
            position,
        ),
{
    let below = (level - 1) as nat;
    lemma_pow2_is_pow2(levels);
    lemma_pow2_pos(other_levels);
    assert((update.others.len() + 1) / 2 == pow2(other_levels));
    lemma_level_start_of_power(levels, level);
    lemma_level_start_of_power(levels, below);
    lemma_pow2_unfold((levels - below) as nat);
    lemma_left_of_level(update, level);
    if update.unchanged.right is Some {
        lemma_right_of_level(update, level);
    }
    if position < update.left(level) {
        lemma_other_level(update, other_levels, below);
        lemma_level_start_of_power(other_levels, level);
    } else if position < update.right(level) {
        update.lemma_pair(nodes, below, position);
    }
}

/// Where the hash function never fails, every node can be computed.
proof fn lemma_never_missing<H>(update: Update<H>, level: nat, position: int)
    requires
        forall|left: H, right: H| #[trigger] (update.function)(left, right) is Ok,
    ensures
        update.node_at(level, position) is Some,
    decreases level,
{
    if level > 0 {
        lemma_never_missing(update, (level - 1) as nat, 2 * position);
        lemma_never_missing(update, (level - 1) as nat, 2 * position + 1);
    }
}

/// Where the hash function never fails, every level of the other tree is reached.
proof fn lemma_other_top_reached<H>(
    update: Update<H>,
    levels: nat,
    other_levels: nat,
    level: nat,
)
    requires
        forall|left: H, right: H| #[trigger] (update.function)(left, right) is Ok,
        update.row.len() == pow2(levels),
        update.others.len() == 2 * pow2(other_levels) - 1,
        other_levels < levels,
        level <= other_levels,
        level > 0 ==> !update.lacks_right(0),
    ensures
        update.reaches(level),
    decreases level,
{
    if level > 0 {
        let below = (level - 1) as nat;
        lemma_other_top_reached(update, levels, other_levels, below);
        lemma2_to64();
        lemma_pow2_pos(other_levels);
        assert((update.others.len() + 1) / 2 == pow2(other_levels));
        lemma_level_start_of_power(levels, below);
        lemma_level_start_of_power(other_levels, below);
        lemma_pow2_strictly_increases(0, (levels - below) as nat);
        lemma_pow2_strictly_increases(0, (other_levels - below) as nat);
        assert forall|position: int| 0 <= position <= update.start(level) implies (
        #[trigger] update.node_at(level, position)) is Some by {
            lemma_never_missing(update, level, position);
        }
    }
}

/// Whatever `compute_updated_tree` returns, for nodes of `levels` levels above the last one, and a
/// tree of `other_levels` levels.
///
/// - The last level stays as it is.
/// - Where it succeeds, every node above is filled in: copied from the left or from the right, or
///   computed.
/// - It refuses to copy from the left where there are at least twice as many nodes there as on the
///   last level of this tree, and from the right where the nodes there begin before the first one.
///   Nothing else is refused.
/// - Otherwise it fails with the reason of the hash of a node. Every level below this node is filled
///   in, and so are, where its level is short, the nodes before it; every level above it is as before.
#[verifier::rlimit(50)]
pub proof fn law_compute_updated_tree<
    LH: LeafHash<Hash = PH::Hash>,
    PH: PathHash,
    const DEPTH: u8,
>(
    this: MerkleTree<LH, PH, DEPTH>,
    tree: &mut Vec<PH::Hash>,
    start_index: usize,
    middle_index: usize,
    start_precompute_index: usize,
    middle_precompute_index: Option<usize>,
    result: Result<(), Error>,
    levels: nat,
    other_levels: nat,
)
    requires
        start_index + 1 == pow2(levels),
        start_precompute_index + 1 == pow2(other_levels),
        tree@.len() == 2 * start_index + 1,
        this.nodes().len() == 2 * start_precompute_index + 1,
        start_index <= middle_index <= 2 * start_index + 1,
        middle_precompute_index matches Some(middle_precompute) ==> middle_precompute == 0
            || start_index <= middle_precompute <= 2 * start_index + 2,
        call_ensures(
            MerkleTree::<LH, PH, DEPTH>::compute_updated_tree,
            (
                &this,
                tree,
                start_index,
                middle_index,
                start_precompute_index,
                middle_precompute_index,
            ),
            result,
        ),
    ensures
        final(tree)@.len() == old(tree)@.len(),
        forall|i: int|
            start_index <= i < old(tree)@.len() ==> #[trigger] final(tree)@[i] == old(tree)@[i],
        result is Ok ==> filled_up_to(
            this.path_function(),
            this.nodes(),
            other_levels,
            (middle_index - start_index) as nat,
            right_position(start_index, middle_precompute_index),
            final(tree)@,
            levels,
            levels,
        ),
        result == Err::<(), Error>(Error::RightPrecomputed) <==> {
            &&& start_index > 0
            &&& middle_precompute_index == Some(0usize)
            &&& start_precompute_index > 0 || middle_index - start_index < 2
        },
        result == Err::<(), Error>(Error::LeftPrecomputed) ==> {
            &&& start_index > 0
            &&& middle_index - start_index >= 2 * (start_precompute_index + 1)
            &&& middle_precompute_index == Some(0usize) ==> start_precompute_index == 0
            &&& other_levels < levels
            &&& filled_up_to(
                this.path_function(),
                this.nodes(),
                other_levels,
                (middle_index - start_index) as nat,
                right_position(start_index, middle_precompute_index),
                final(tree)@,
                levels,
                other_levels,
            )
            &&& forall|i: int|
                0 <= i < pow2((levels - other_levels) as nat) - 1 ==> #[trigger] final(tree)@[i]
                    == old(tree)@[i]
        },
        result == Err::<(), Error>(Error::RightPrecomputed) ==> {
            let first = pow2((levels - 1) as nat) - 1;
            let left = (middle_index - start_index) / 2;
            &&& forall|i: int|
                0 <= i < start_index && !(first <= i < first + left) ==> #[trigger] final(tree)@[i]
                    == old(tree)@[i]
            &&& forall|i: int|
                first <= i < first + left ==> #[trigger] final(tree)@[i] == this.nodes()[pow2(
                    (other_levels - 1) as nat,
                ) - 1 + (i - first)]
        },
        (forall|left: PH::Hash, right: PH::Hash| #[trigger]
            this.path_function()(left, right) is Ok) ==> {
            &&& result == Err::<(), Error>(Error::LeftPrecomputed) <==> {
                &&& start_index > 0
                &&& middle_index - start_index >= 2 * (start_precompute_index + 1)
                &&& middle_precompute_index == Some(0usize) ==> start_precompute_index == 0
            }
            &&& result is Ok <==> {
                ||| start_index == 0
                ||| middle_index - start_index < 2 * (start_precompute_index + 1)
                    && middle_precompute_index != Some(0usize)
            }
        },
        result matches Err(error) ==> {
            ||| error is LeftPrecomputed
            ||| error is RightPrecomputed
            ||| error is Hash
        },
        result matches Err(Error::Hash(error)) ==> exists|level: nat, index: int|
            {
                &&& level < levels
                &&& pow2((levels - level - 1) as nat) - 1 <= index < pow2((levels - level) as nat)
                    - 1
                &&& #[trigger] pair_hash(this.path_function(), final(tree)@, index) == Err::<
                    PH::Hash,
                    Seq<char>,
                >(error@)
                &&& #[trigger] filled_up_to(
                    this.path_function(),
                    this.nodes(),
                    other_levels,
                    (middle_index - start_index) as nat,
                    right_position(start_index, middle_precompute_index),
                    final(tree)@,
                    levels,
                    level,
                )
                &&& final(tree)@[index] == old(tree)@[index]
                &&& forall|i: int|
                    0 <= i < pow2((levels - level - 1) as nat) - 1 ==> #[trigger] final(tree)@[i]
                        == old(tree)@[i]
                &&& pow2((levels - level - 1) as nat) < 100 ==> {
                    &&& forall|position: int|
                        0 <= position <= index - pow2((levels - level - 1) as nat)
                            ==> #[trigger] filled_in(
                            this.path_function(),
                            this.nodes(),
                            other_levels,
                            (middle_index - start_index) as nat,
                            right_position(start_index, middle_precompute_index),
                            final(tree)@,
                            levels,
                            level + 1,
                            position,
                        )
                    &&& forall|i: int|
                        index <= i < pow2((levels - level) as nat) - 1 
                            ==> #[trigger] final(tree)@[i] == old(tree)@[i]
                }
                &&& forall|position: int|
                    0 <= position < pow2((levels - level - 1) as nat) ==> final(tree)@[pow2(
                        (levels - level - 1) as nat,
                    ) - 1 + position] == old(tree)@[pow2((levels - level - 1) as nat) - 1
                        + position] || #[trigger] filled_in(
                        this.path_function(),
                        this.nodes(),
                        other_levels,
                        (middle_index - start_index) as nat,
                        right_position(start_index, middle_precompute_index),
                        final(tree)@,
                        levels,
                        level + 1,
                        position,
                    )
            },
{
    let update = this.update(
        old(tree)@,
        start_index as int,
        middle_index as int,
        middle_precompute_index,
    );
    let before = old(tree)@;
    let after = final(tree)@;
    lemma2_to64();
    lemma_pow2_pos(levels);
    lemma_pow2_pos(other_levels);
    lemma_pow2_is_pow2(levels);
    assert(update.row.len() == pow2(levels));
    assert((update.others.len() + 1) / 2 == pow2(other_levels));
    let height = choose|height: nat| update.stops_at(height, before, after, result);
    lemma_reached(update, 0, height);
    assert forall|i: int| start_index <= i < before.len() implies #[trigger] after[i]
        == before[i] by {
        assert(update.node_at(0, i - start_index) == Some(after[i]));
    }
    lemma_within(update, levels, height);
    lemma_level_start_of_power(levels, height);
    lemma_left_of_level(update, 1);
    assert(update.left(1) == (middle_index - start_index) / 2) by {
        assert(update.left(0) == middle_index - start_index);
    }
    assert(update.other_start(0) == start_precompute_index);
    assert(update.lacks_right(0) <==> middle_precompute_index == Some(0usize));
    if update.exceeds_left() {
        let last = choose|last: nat| #[trigger]
            update.reaches(last) && update.start(last) > 0 && update.lacks_left(last);
        lemma_lacking_left(update, other_levels, last);
        if last > 0 {
            lemma_reached(update, 1, last);
        }
        lemma_left_of_level(update, last + 1);
        lemma_power_divides(update.unchanged.left, other_levels, last);
    }
    if forall|left: PH::Hash, right: PH::Hash| #[trigger]
        this.path_function()(left, right) is Ok {
        if start_index > 0 && middle_index - start_index >= 2 * (start_precompute_index + 1) && (
        middle_precompute_index == Some(0usize) ==> start_precompute_index == 0) {
            lemma_pow2_unfold(other_levels + 1);
            if levels <= other_levels {
                if levels < other_levels {
                    lemma_pow2_strictly_increases(levels, other_levels);
                }
            }
            if other_levels > 0 {
                lemma_pow2_strictly_increases(0, other_levels);
            }
            lemma_other_top_reached(update, levels, other_levels, other_levels);
            lemma_level_start_of_power(levels, other_levels);
            lemma_level_start_of_power(other_levels, other_levels);
            lemma_pow2_strictly_increases(0, (levels - other_levels) as nat);
            lemma_left_of_level(update, other_levels + 1);
            lemma_power_fits(update.unchanged.left, other_levels + 1);
            assert(update.lacks_left(other_levels));
        }
    }
    if update.unchanged.right is Some ==> update.unchanged.right->0 >= -1 {
        if result is Ok {
            lemma_level_start_of_power(levels, levels);
            if height < levels {
                lemma_levels_ordered(update.row.len(), height, levels);
            }
            lemma_filled_up_to(update, after, levels, other_levels, levels);
        }
    }
    if result == Err::<(), Error>(Error::LeftPrecomputed) {
        lemma_lacking_left(update, other_levels, height);
        if other_levels < height {
            lemma_reached(update, other_levels + 1, height);
            lemma_level_start_of_power(other_levels, other_levels);
            lemma_left_decreases(update, other_levels + 1, height + 1);
        }
        if height == levels {
            lemma_level_start_of_power(levels, levels);
        }
        if height > 0 {
            lemma_reached(update, 1, height);
            lemma_filled_up_to(update, after, levels, other_levels, height);
        }
    }
    if result == Err::<(), Error>(Error::RightPrecomputed) {
        lemma_level_start_of_power(levels, 1);
        lemma_pow2_unfold(levels);
        if update.left(1) > 0 {
            lemma_other_level(update, other_levels, 0);
            lemma_level_start_of_power(other_levels, 1);
        }
    }
    if let Err(Error::Hash(error)) = result {
        let position = choose|position: int|
            update.fails_at(height, position, before, after, error@);
        let above = height + 1;
        if height == levels {
            lemma_level_start_of_power(levels, levels);
        }
        lemma_level_start_of_power(levels, above);
        lemma_pow2_unfold((levels - height) as nat);
        lemma_level_start(update.row.len(), height);
        let index = update.start(above) + position;
        update.lemma_pair(after, height, position);
        assert(pair_hash(this.path_function(), after, index) == Err::<PH::Hash, Seq<char>>(error@));
        lemma_filled_up_to(update, after, levels, other_levels, height);
        lemma_before_right(update.unchanged, update.row.len(), above);
        if pow2((levels - height - 1) as nat) < 100 {
            assert forall|k: int| 0 <= k <= index - pow2((levels - height - 1) as nat) implies #[trigger] filled_in(
                this.path_function(),
                this.nodes(),
                other_levels,
                (middle_index - start_index) as nat,
                right_position(start_index, middle_precompute_index),
                after,
                levels,
                above,
                k,
            ) by {
                if k < update.left(above) {
                    assert(after[update.start(above) + k] == update.others[update.other_start(above)
                        + k]);
                }
                assert(update.node_at(above, k) == Some(after[update.start(above) + k]));
                lemma_filled_in(update, after, levels, other_levels, above, k);
            }
        }
        assert forall|k: int| 0 <= k < pow2((levels - height - 1) as nat) implies after[pow2(
            (levels - height - 1) as nat,
        ) - 1 + k] == before[pow2((levels - height - 1) as nat) - 1 + k] || #[trigger] filled_in(
            this.path_function(),
            this.nodes(),
            other_levels,
            (middle_index - start_index) as nat,
            right_position(start_index, middle_precompute_index),
            after,
            levels,
            above,
            k,
        ) by {
            let i = update.start(above) + k;
            if after[i] != before[i] {
                if k < update.left(above) {
                    assert(after[i] == update.others[update.other_start(above) + k]);
                }
                assert(update.node_at(above, k) == Some(after[i]));
                lemma_filled_in(update, after, levels, other_levels, above, k);
            }
        }
    }
}

/// Whatever `compute_updated_tree` returns where this tree has the same hashes on its last level,
/// below the nodes that are copied from it: it succeeds exactly where nodes over the last level can
/// hold the hashes of the two nodes below them, and then they do; otherwise the hash of a node fails.
pub proof fn law_update_over_same_leaves<
    LH: LeafHash<Hash = PH::Hash>,
    PH: PathHash,
    const DEPTH: u8,
>(
    this: MerkleTree<LH, PH, DEPTH>,
    tree: &mut Vec<PH::Hash>,
    start_index: usize,
    middle_index: usize,
    start_precompute_index: usize,
    middle_precompute_index: Option<usize>,
    result: Result<(), Error>,
    levels: nat,
)
    requires
        this.wf(),
        start_index + 1 == pow2(levels),
        tree@.len() == 2 * start_index + 1,
        this.nodes().len() == 2 * start_precompute_index + 1,
        start_index <= middle_index <= 2 * start_index + 1,
        (middle_index - start_index) / 2 <= (start_precompute_index + 1) / 2,
        forall|i: int|
            start_index <= i < start_index + 2 * ((middle_index - start_index) / 2)
                ==> #[trigger] tree@[i] == this.nodes()[start_precompute_index + (i - start_index)],
        middle_precompute_index matches Some(middle_precompute) ==> {
            &&& start_precompute_index == start_index
            &&& start_index <= middle_precompute <= 2 * start_index + 2
            &&& (middle_index - start_index) / 2 <= (middle_precompute - start_index) / 2
            &&& forall|i: int|
                start_index + 2 * ((middle_precompute - start_index) / 2) <= i < tree@.len()
                    ==> #[trigger] tree@[i] == this.nodes()[i]
        },
        call_ensures(
            MerkleTree::<LH, PH, DEPTH>::compute_updated_tree,
            (
                &this,
                tree,
                start_index,
                middle_index,
                start_precompute_index,
                middle_precompute_index,
            ),
            result,
        ),
    ensures
        result is Ok ==> forall|i: int|
            0 <= i < start_index ==> #[trigger] holds_hash(
                this.path_function(),
                final(tree)@,
                i,
            ),
        result is Err ==> result->Err_0 is Hash,
        result is Ok <==> exists|nodes: Seq<PH::Hash>| #[trigger]
            hashes_over(this.path_function(), old(tree)@, start_index as int, nodes),
{
    let update = this.update(
        old(tree)@,
        start_index as int,
        middle_index as int,
        middle_precompute_index,
    );
    let function = this.path_function();
    let before = old(tree)@;
    let after = final(tree)@;
    lemma_width_is_least(this@.len());
    law_inner_nodes_hash_children(this);
    assert(update.left(1) == (middle_index - start_index) / 2) by {
        assert(update.left(0) == middle_index - start_index);
    }
    assert(middle_precompute_index matches Some(middle_precompute) ==> update.right(1) == (
    middle_precompute - start_index) / 2) by {
        assert(middle_precompute_index matches Some(middle_precompute) ==> update.right(0)
            == middle_precompute - 1 - start_index);
    }
    assert forall|j: int| 0 <= j < 2 * update.left(1) implies #[trigger] update.row[j]
        == this.nodes()[start_precompute_index + j] by {
        assert(before[start_index + j] == this.nodes()[start_precompute_index + j]);
    }
    if middle_precompute_index is Some {
        assert forall|j: int| 2 * update.right(1) <= j < update.row.len() implies #[trigger] update.row[j]
            == this.nodes()[start_precompute_index + j] by {
            assert(before[start_index + j] == this.nodes()[start_index + j]);
        }
    }
    assert(update.consistent());
    if result is Ok {
        assert forall|i: int| 0 <= i < start_index implies #[trigger] holds_hash(
            function,
            after,
            i,
        ) by {
            assert(hashed_at(function, after, i));
        }
        assert forall|i: int| start_index <= i < before.len() implies #[trigger] after[i]
            == before[i] by {
            assert(after.skip(start_index as int)[i - start_index] == update.row[i - start_index]);
        }
        assert(hashes_over(function, before, start_index as int, after));
    }
    if exists|nodes: Seq<PH::Hash>| #[trigger]
        hashes_over(function, before, start_index as int, nodes) {
        let nodes = choose|nodes: Seq<PH::Hash>| #[trigger]
            hashes_over(function, before, start_index as int, nodes);
        assert(nodes.skip(start_index as int) =~= update.row);
        assert forall|i: int| 0 <= i < start_index implies #[trigger] hashed_at(
            function,
            nodes,
            i,
        ) by {
            assert(holds_hash(function, nodes, i));
        }
        lemma_hashed_nodes(function, nodes, update.row, 0, 0);
    }
}

/// Nodes with the same last level, where every node above it holds the hash of the two nodes below
/// it.
pub open spec fn hashes_over<H>(
    function: PathFunction<H>,
    given: Seq<H>,
    start: int,
    nodes: Seq<H>,
) -> bool {
    &&& nodes.len() == given.len()
    &&& forall|i: int| start <= i < given.len() ==> #[trigger] nodes[i] == given[i]
    &&& forall|i: int| 0 <= i < start ==> #[trigger] holds_hash(function, nodes, i)
}

/// `compute_updated_tree` can be called for nodes of a power of two of leaves, with any part of the last
/// level on the left of which the nodes above are within this tree, and any part on the right that
/// begins behind it, where this tree is large enough.
pub proof fn law_updates_are_admitted<
    LH: LeafHash<Hash = PH::Hash>,
    PH: PathHash,
    const DEPTH: u8,
>(
    this: MerkleTree<LH, PH, DEPTH>,
    tree: &mut Vec<PH::Hash>,
    start_index: usize,
    middle_index: usize,
    start_precompute_index: usize,
    middle_precompute_index: Option<usize>,
    levels: nat,
)
    requires
        this.wf(),
        start_index + 1 == pow2(levels),
        tree@.len() == 2 * start_index + 1,
        this.nodes().len() == 2 * start_precompute_index + 1,
        start_index <= middle_index <= 2 * start_index + 1,
        middle_index - start_index <= 3 * (start_precompute_index + 1),
        middle_precompute_index matches Some(middle_precompute) ==> middle_precompute == 0 || {
            &&& middle_index <= middle_precompute <= 2 * start_index + 2
            &&& start_index <= this.nodes().len()
        },
    ensures
        call_requires(
            MerkleTree::<LH, PH, DEPTH>::compute_updated_tree,
            (
                &this,
                tree,
                start_index,
                middle_index,
                start_precompute_index,
                middle_precompute_index,
            ),
        ),
{
    lemma_pow2_is_pow2(levels);
    lemma_width_is_least(this@.len());
    lemma_width_is_odd(this@.len());
}

/// The number of inner nodes of a tree is 0 or odd.
proof fn lemma_width_is_odd(leaves: nat)
    ensures
        width(leaves) == 1 || width(leaves) % 2 == 0,
{
    lemma2_to64();
    if height(leaves) > 0 {
        lemma_pow2_unfold(height(leaves));
    }
}

/// The position on the last level at which the nodes on the right begin.
pub open spec fn right_position(
    start_index: usize,
    middle_precompute_index: Option<usize>,
) -> Option<int> {
    match middle_precompute_index {
        Some(middle_precompute) => Some(middle_precompute - 1 - start_index),
        None => None,
    }
}

/// A level that gets filled in is one of the tree.
proof fn lemma_within<H>(update: Update<H>, levels: nat, height: nat)
    requires
        update.row.len() == pow2(levels),
        update.reaches(height),
    ensures
        height <= levels,
    decreases height,
{
    if height > 0 {
        let below = (height - 1) as nat;
        lemma_within(update, levels, below);
        if below == levels {
            lemma2_to64();
            lemma_level_start_of_power(levels, levels);
        }
    }
}

/// Nodes are lacking on the left only above the top of the other tree.
proof fn lemma_lacking_left<H>(update: Update<H>, other_levels: nat, level: nat)
    requires
        update.others.len() == 2 * pow2(other_levels) - 1,
        update.lacks_left(level),
    ensures
        other_levels <= level,
{
    if level < other_levels {
        lemma2_to64();
        lemma_pow2_pos(other_levels);
        assert((update.others.len() + 1) / 2 == pow2(other_levels));
        lemma_level_start_of_power(other_levels, level);
        lemma_pow2_strictly_increases(0, (other_levels - level) as nat);
    }
}

/// On a higher level, there are no more nodes on the left.
proof fn lemma_left_decreases<H>(update: Update<H>, low: nat, high: nat)
    requires
        low <= high,
    ensures
        update.left(high) <= update.left(low),
    decreases high,
{
    if low < high {
        lemma_left_decreases(update, low, (high - 1) as nat);
    }
}

/// A number that a higher power of two goes into is at least twice a lower one.
proof fn lemma_power_divides(number: nat, low: nat, high: nat)
    requires
        low <= high,
        number / pow2(high + 1) > 0,
    ensures
        number >= 2 * pow2(low),
{
    lemma_pow2_pos(high + 1);
    if number < pow2(high + 1) {
        lemma_basic_div(number as int, pow2(high + 1) as int);
    }
    lemma_pow2_unfold(high + 1);
    if low < high {
        lemma_pow2_strictly_increases(low, high);
    }
}

/// A power of two goes into a number that is not below it.
proof fn lemma_power_fits(number: nat, power: nat)
    requires
        number >= pow2(power),
    ensures
        number / pow2(power) > 0,
{
    lemma_pow2_pos(power);
    let divisor = pow2(power);
    assert(number / divisor > 0) by (nonlinear_arith)
        requires
            number >= divisor,
            divisor > 0,
    ;
}

} // verus!
