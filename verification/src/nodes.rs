//! Filling in the nodes of a tree, level by level.
use crate::error::HashError;
use crate::hash::{PathFunction, PathHash};
use crate::index::{left_child, right_child};
use crate::model::{
    children_hash, hashed_at, hashed_from, lemma_hashed_nodes, lemma_level_start,
    lemma_lift_missing, lemma_missing_node, level_start, lift, node, node_fails, some_lift_fails,
};
use crate::parallel::PARALLEL_THRESHOLD;
use crate::update::Update;
use vstd::arithmetic::power2::is_pow2;
use vstd::prelude::*;

verus! {

/// Extends a vector with copies of a hash up to the given length.
pub(crate) fn pad<H: Copy>(hashes: &mut Vec<H>, length: usize, hash: H)
    requires
        old(hashes)@.len() <= length,
    ensures
        final(hashes)@.len() == length,
        forall|i: int|
            0 <= i < length ==> #[trigger] final(hashes)@[i] == (if i < old(hashes)@.len() {
                old(hashes)@[i]
            } else {
                hash
            }),
{
    while hashes.len() < length
        invariant
            old(hashes)@.len() <= hashes@.len() <= length,
            forall|i: int|
                0 <= i < hashes@.len() ==> #[trigger] hashes@[i] == (if i < old(hashes)@.len() {
                    old(hashes)@[i]
                } else {
                    hash
                }),
        decreases length - hashes@.len(),
    {
        hashes.push(hash);
    }
}

/// Extends a vector with the given hashes.
pub(crate) fn extend<H: Copy>(hashes: &mut Vec<H>, more: &[H])
    ensures
        final(hashes)@ == old(hashes)@ + more@,
{
    assert(old(hashes)@ + more@.take(0) =~= old(hashes)@);
    for i in 0..more.len()
        invariant
            hashes@ == old(hashes)@ + more@.take(i as int),
    {
        hashes.push(more[i]);
        assert(more@.take(i + 1) =~= more@.take(i as int).push(more@[i as int]));
        assert(hashes@ =~= old(hashes)@ + more@.take(i + 1));
    }
    assert(more@.take(more@.len() as int) =~= more@);
}

/// Stores the given hashes in the nodes from `from` on.
pub(crate) fn store<H: Copy>(nodes: &mut Vec<H>, from: usize, hashes: &[H])
    requires
        from + hashes@.len() <= old(nodes)@.len(),
    ensures
        final(nodes)@.len() == old(nodes)@.len(),
        forall|i: int|
            0 <= i < old(nodes)@.len() ==> #[trigger] final(nodes)@[i] == (if from <= i < from
                + hashes@.len() {
                hashes@[i - from]
            } else {
                old(nodes)@[i]
            }),
{
    let size: usize = nodes.len();
    for k in 0..hashes.len()
        invariant
            size == old(nodes)@.len(),
            from + hashes@.len() <= old(nodes)@.len(),
            nodes@.len() == old(nodes)@.len(),
            forall|i: int|
                0 <= i < old(nodes)@.len() ==> #[trigger] nodes@[i] == (if from <= i < from + k {
                    hashes@[i - from]
                } else {
                    old(nodes)@[i]
                }),
    {
        nodes.set(from + k, hashes[k]);
    }
}

/// Returns the children of the nodes from `from` to `to`.
pub(crate) fn children<H: Copy>(nodes: &Vec<H>, from: usize, to: usize) -> (pairs: Vec<(H, H)>)
    requires
        from <= to,
        from < to ==> 2 * to < nodes@.len(),
    ensures
        pairs@.len() == to - from,
        forall|k: int|
            0 <= k < to - from ==> #[trigger] pairs@[k] == (
                nodes@[2 * (from + k) + 1],
                nodes@[2 * (from + k) + 2],
            ),
{
    let mut pairs: Vec<(H, H)> = Vec::with_capacity(to - from);
    let size: usize = nodes.len();
    for i in from..to
        invariant
            size == nodes@.len(),
            from < to ==> 2 * to < nodes@.len(),
            pairs@.len() == i - from,
            forall|k: int|
                0 <= k < i - from ==> #[trigger] pairs@[k] == (
                    nodes@[2 * (from + k) + 1],
                    nodes@[2 * (from + k) + 2],
                ),
    {
        pairs.push((nodes[left_child(i)], nodes[right_child(i)]));
    }
    pairs
}

/// Returns the given hash, combined with the empty hash at its right once for each of the levels.
pub(crate) fn lift_to_root<PH: PathHash>(
    path_hasher: &PH,
    empty_hash: PH::Hash,
    top: PH::Hash,
    levels: u8,
) -> (result: Result<PH::Hash, HashError>)
    ensures
        match result {
            Ok(root) => lift(path_hasher.function(), empty_hash, Some(top), levels as nat) == Some(
                root,
            ),
            Err(error) => {
                &&& lift(path_hasher.function(), empty_hash, Some(top), levels as nat) is None
                &&& some_lift_fails(
                    path_hasher.function(),
                    empty_hash,
                    Some(top),
                    levels as nat,
                    error@,
                )
            },
        },
{
    let mut root: PH::Hash = top;
    for level in 0..levels
        invariant
            lift(path_hasher.function(), empty_hash, Some(top), level as nat) == Some(root),
    {
        match path_hasher.hash_children(&root, &empty_hash) {
            Ok(above) => {
                root = above;
            },
            Err(error) => {
                proof {
                    lemma_lift_missing(
                        path_hasher.function(),
                        empty_hash,
                        Some(top),
                        (level + 1) as nat,
                        levels as nat,
                    );
                }
                return Err(error);
            },
        }
    }
    Ok(root)
}

/// Where the hash of a pair of children fails, the top of the tree cannot be computed.
pub(crate) proof fn lemma_failed_node<H>(
    function: PathFunction<H>,
    nodes: Seq<H>,
    row: Seq<H>,
    height: nat,
    index: int,
    message: Seq<char>,
)
    requires
        is_pow2(row.len() as int),
        nodes.len() == 2 * row.len() - 1,
        row == nodes.skip(row.len() - 1),
        level_start(row.len(), height) > 0,
        level_start(row.len(), height + 1) <= index < level_start(row.len(), height),
        hashed_from(function, nodes, row.len() - 1, level_start(row.len(), height)),
        children_hash(function, nodes, index) == Err::<H, Seq<char>>(message),
    ensures
        node_fails(function, row, height, index, message),
        node(function, row, 0) is None,
{
    let below = level_start(row.len(), height);
    lemma_level_start(row.len(), height);
    assert forall|k: int| below <= k < 2 * row.len() - 1 implies (#[trigger] node(
        function,
        row,
        k,
    )) == Some(nodes[k]) by {
        lemma_hashed_nodes(function, nodes, row, below, k);
    }
    assert(node(function, row, 2 * index + 1) == Some(nodes[2 * index + 1]));
    assert(node(function, row, 2 * index + 2) == Some(nodes[2 * index + 2]));
    assert(node(function, row, index) is None);
    lemma_missing_node(function, row, index);
}

/// Computing the nodes from `from` to `to` fails at `index` for the given reason. Where there are few
/// of them, those before it are stored, and those from it on are not. Where there are many, each may
/// have been stored or not.
pub(crate) open spec fn computation_fails<H>(
    function: PathFunction<H>,
    before: Seq<H>,
    after: Seq<H>,
    from: int,
    to: int,
    index: int,
    message: Seq<char>,
) -> bool {
    &&& from <= index < to
    &&& children_hash(function, before, index) == Err::<H, Seq<char>>(message)
    &&& after[index] == before[index]
    &&& if to - from < PARALLEL_THRESHOLD {
        &&& forall|k: int|
            from <= k < index ==> children_hash(function, before, k) == Ok::<H, Seq<char>>(
                #[trigger] after[k],
            )
        &&& forall|k: int| index <= k < to ==> #[trigger] after[k] == before[k]
    } else {
        forall|k: int|
            from <= k < to ==> #[trigger] after[k] == before[k] || children_hash(
                function,
                before,
                k,
            ) == Ok::<H, Seq<char>>(after[k])
    }
}

/// Where computing the nodes of a level fails, filling in the nodes does.
pub(crate) proof fn lemma_failed_update<H>(
    update: Update<H>,
    height: nat,
    position: int,
    before: Seq<H>,
    initial: Seq<H>,
    after: Seq<H>,
    message: Seq<char>,
)
    requires
        is_pow2(update.row.len() as int),
        update.start(height) > 0,
        update.filled(before, height),
        0 <= update.left(height + 1) <= update.right(height + 1) <= update.start(height + 1) + 1,
        computation_fails(
            update.function,
            before,
            after,
            update.start(height + 1) + update.left(height + 1),
            update.start(height + 1) + update.right(height + 1),
            update.start(height + 1) + position,
            message,
        ),
        forall|i: int|
            update.start(height + 1) + update.left(height + 1) <= i < update.start(height)
                ==> #[trigger] before[i] == initial[i],
    ensures
        update.fails_at(height, position, initial, after, message),
{
    let above = height + 1;
    let start = update.start(above);
    lemma_level_start(update.row.len(), height);
    update.lemma_pair(before, height, position);
    assert forall|k: int|
        update.left(above) <= k < update.right(above) && children_hash(
            update.function,
            before,
            start + k,
        ) == Ok::<H, Seq<char>>(after[start + k]) implies #[trigger] update.node_at(above, k)
        == Some(after[start + k]) by {
        update.lemma_pair(before, height, k);
    }
    assert(before[start + position] == initial[start + position]);
    if update.unchanged.computed(update.row.len(), above) < PARALLEL_THRESHOLD {
        assert forall|k: int| update.left(above) <= k < position implies #[trigger] update.node_at(
            above,
            k,
        ) == Some(after[start + k]) by {
            let hash = after[start + k];
        }
        assert forall|i: int|
            start + position <= i < start + update.right(above) implies #[trigger] after[i]
            == initial[i] by {
            assert(before[i] == initial[i]);
        }
    } else {
        assert forall|k: int| update.left(above) <= k < update.right(above) implies after[start + k]
            == initial[start + k] || #[trigger] update.node_at(above, k) == Some(
            after[start + k],
        ) by {
            assert(before[start + k] == initial[start + k]);
            let hash = after[start + k];
        }
    }
}

/// A level whose nodes are the hashes of their children continues the levels below it.
pub(crate) proof fn lemma_level_done<H>(
    function: PathFunction<H>,
    before: Seq<H>,
    after: Seq<H>,
    inner: int,
    start: int,
)
    requires
        0 <= start,
        after.len() == before.len() == 2 * inner + 1,
        hashed_from(function, before, inner, 2 * start + 1),
        forall|i: int| 2 * start + 1 <= i < before.len() ==> #[trigger] after[i] == before[i],
        forall|i: int|
            start <= i < 2 * start + 1 ==> children_hash(function, before, i) == Ok::<H, Seq<char>>(
                #[trigger] after[i],
            ),
    ensures
        hashed_from(function, after, inner, start),
{
    assert forall|i: int| start <= i < inner implies #[trigger] hashed_at(function, after, i) by {
        assert(after[2 * i + 1] == before[2 * i + 1]);
        assert(after[2 * i + 2] == before[2 * i + 2]);
        if i >= 2 * start + 1 {
            assert(after[i] == before[i]);
            assert(hashed_at(function, before, i));
        }
    }
}

} // verus!
