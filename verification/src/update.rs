//! Filling in the inner nodes of a tree over a row of leaf hashes, where nodes of another tree are
//! copied instead of being computed.
//!
//! A node is named by the number of levels below it and by its position on its level.
use crate::error::Error;
use crate::hash::{Outcome, PathFunction};
use crate::model::{
    children_hash, hash_pair, hashed_at, hashed_from, lemma_level_of_index, lemma_level_start,
    lemma_levels_ordered, lemma_missing_node, level_start, node, same_nodes, update_fails,
    Unchanged,
};
use crate::parallel::PARALLEL_THRESHOLD;
use vstd::arithmetic::power2::is_pow2;
use vstd::prelude::*;

verus! {

/// The nodes of a tree to be filled in: its leaf hashes, the nodes of the other tree, and which of
/// its nodes are taken to be those of the other tree.
#[verifier::reject_recursive_types(H)]
pub struct Update<H> {
    pub function: PathFunction<H>,
    pub row: Seq<H>,
    pub others: Seq<H>,
    pub unchanged: Unchanged,
}

impl<H> Update<H> {
    /// The index of the first node of a level.
    pub open spec fn start(&self, height: nat) -> int {
        level_start(self.row.len(), height)
    }

    /// The index of the first node of a level of the other tree; it is negative where the other
    /// tree has no such level.
    pub open spec fn other_start(&self, height: nat) -> int {
        level_start(((self.others.len() + 1) / 2) as nat, height)
    }

    /// The position of the first node of a level that is not copied from the left.
    pub open spec fn left(&self, height: nat) -> int {
        self.unchanged.left_nodes(height) as int
    }

    /// The position of the first node of a level that is copied from the right.
    pub open spec fn right(&self, height: nat) -> int {
        self.unchanged.before_right(self.row.len(), height)
    }

    /// The node at a position, or `None` where the hashes that it is made of cannot be computed.
    /// On the left, it is the one at the same position of the level of the other tree; on the right,
    /// the one with the same index in the other tree; and in between, the hash of its children.
    pub open spec fn node_at(&self, height: nat, position: int) -> Option<H>
        decreases height,
    {
        if height == 0 {
            Some(self.row[position])
        } else if position < self.left(height) {
            Some(self.others[self.other_start(height) + position])
        } else if position >= self.right(height) {
            Some(self.others[self.start(height) + position])
        } else {
            hash_pair(
                self.function,
                self.node_at((height - 1) as nat, 2 * position),
                self.node_at((height - 1) as nat, 2 * position + 1),
            )
        }
    }

    /// The hash of the two nodes from twice the position on.
    pub open spec fn pair_hash(&self, height: nat, position: int) -> Outcome<H> {
        (self.function)(
            self.node_at(height, 2 * position)->0,
            self.node_at(height, 2 * position + 1)->0,
        )
    }

    /// Every node of a level can be copied or computed.
    pub open spec fn level_computed(&self, height: nat) -> bool {
        forall|position: int|
            0 <= position <= self.start(height) ==> (#[trigger] self.node_at(height, position))
                is Some
    }

    /// Nodes are to be copied from the left to the level above the given one, where the other tree
    /// has no such level.
    pub open spec fn lacks_left(&self, height: nat) -> bool {
        &&& self.other_start(height) <= 0
        &&& self.left(height + 1) > 0
    }

    /// The nodes to be copied from the right begin, on the last level, before the first node.
    pub open spec fn lacks_right(&self, height: nat) -> bool {
        &&& height == 0
        &&& self.unchanged.right == Some(-(self.row.len() as int))
    }

    /// There is a level, and it and all levels below it get filled in.
    pub open spec fn reaches(&self, height: nat) -> bool
        decreases height,
    {
        height > 0 ==> {
            let below = (height - 1) as nat;
            &&& self.reaches(below)
            &&& self.start(below) > 0
            &&& !self.lacks_left(below)
            &&& !self.lacks_right(below)
            &&& self.level_computed(height)
        }
    }

    /// All levels get filled in.
    pub open spec fn completes(&self) -> bool {
        exists|height: nat| #[trigger] self.reaches(height) && self.start(height) == 0
    }

    /// Up to some level the nodes get filled in, and to the next one nodes are to be copied from the
    /// left, where the other tree has no such level.
    pub open spec fn exceeds_left(&self) -> bool {
        exists|height: nat| #[trigger]
            self.reaches(height) && self.start(height) > 0 && self.lacks_left(height)
    }

    /// The nodes to be copied from the right begin before the first node, and the other tree has
    /// those that are to be copied from the left to the first level above the leaf level.
    pub open spec fn exceeds_right(&self) -> bool {
        self.start(0) > 0 && !self.lacks_left(0) && self.lacks_right(0)
    }

    /// A level and all levels below it are filled in.
    pub open spec fn filled(&self, nodes: Seq<H>, height: nat) -> bool {
        forall|level: nat, position: int|
            level <= height && 0 <= position <= self.start(level) ==> #[trigger] self.node_at(
                level,
                position,
            ) == Some(nodes[self.start(level) + position])
    }

    /// On the level above the given one, the hash of the node at a position fails for the given
    /// reason. Where few nodes have to be computed on this level, those before it are filled in, and
    /// those from it on are not. Where there are many, each may have been filled in or not.
    pub open spec fn fails_at(
        &self,
        height: nat,
        position: int,
        before: Seq<H>,
        after: Seq<H>,
        message: Seq<char>,
    ) -> bool {
        let above = height + 1;
        let start = self.start(above);
        &&& self.left(above) <= position < self.right(above)
        &&& position <= start
        &&& self.pair_hash(height, position) == Err::<H, Seq<char>>(message)
        &&& after[start + position] == before[start + position]
        &&& if self.unchanged.computed(self.row.len(), above) < PARALLEL_THRESHOLD {
            &&& forall|k: int|
                self.left(above) <= k < position ==> #[trigger] self.node_at(above, k) == Some(
                    after[start + k],
                )
            &&& forall|i: int|
                start + position <= i < start + self.right(above) ==> #[trigger] after[i]
                    == before[i]
        } else {
            forall|k: int|
                self.left(above) <= k < self.right(above) ==> after[start + k] == before[start + k]
                    || #[trigger] self.node_at(above, k) == Some(after[start + k])
        }
    }

    /// The nodes are filled in up to a level, and the next one is not: because there is none,
    /// because nodes are to be copied to it that the other tree does not have, or because the hash
    /// of one of its nodes fails.
    pub open spec fn stops_at(
        &self,
        height: nat,
        before: Seq<H>,
        after: Seq<H>,
        result: Result<(), Error>,
    ) -> bool {
        let start = self.start(height + 1);
        &&& self.reaches(height)
        &&& self.filled(after, height)
        &&& if self.start(height) == 0 {
            result is Ok
        } else if self.lacks_left(height) {
            &&& result == Err::<(), Error>(Error::LeftPrecomputed)
            &&& forall|i: int| 0 <= i < self.start(height) ==> #[trigger] after[i] == before[i]
        } else {
            &&& forall|i: int| 0 <= i < start ==> #[trigger] after[i] == before[i]
            &&& same_nodes(
                after,
                start,
                self.others,
                self.other_start(height + 1),
                self.left(height + 1),
            )
            &&& if self.lacks_right(height) {
                &&& result == Err::<(), Error>(Error::RightPrecomputed)
                &&& forall|i: int|
                    start + self.left(height + 1) <= i < self.start(height) ==> #[trigger] after[i]
                        == before[i]
            } else {
                &&& result is Err
                &&& result->Err_0 is Hash
                &&& forall|i: int|
                    start + self.right(height + 1) <= i < self.start(height)
                        ==> #[trigger] after[i] == before[i]
                &&& exists|position: int|
                    self.fails_at(height, position, before, after, result->Err_0->Hash_0@)
            }
        }
    }

    /// What filling in the nodes gives.
    pub open spec fn outcome(
        &self,
        before: Seq<H>,
        after: Seq<H>,
        result: Result<(), Error>,
    ) -> bool {
        &&& after.len() == before.len()
        &&& result is Ok <==> self.completes()
        &&& result == Err::<(), Error>(Error::LeftPrecomputed) <==> self.exceeds_left()
        &&& result == Err::<(), Error>(Error::RightPrecomputed) <==> self.exceeds_right()
        &&& exists|height: nat| self.stops_at(height, before, after, result)
    }

    /// The other tree is hashed, and it has the same leaf hashes below the nodes that are copied
    /// from it.
    pub open spec fn consistent(&self) -> bool {
        let size = ((self.others.len() + 1) / 2) as int;
        &&& self.others.len() == 2 * size - 1
        &&& is_pow2(size)
        &&& hashed_from(self.function, self.others, size - 1, 0)
        &&& self.left(1) <= size / 2
        &&& forall|j: int|
            0 <= j < 2 * self.left(1) ==> #[trigger] self.row[j] == self.others[size - 1 + j]
        &&& self.unchanged.right is Some ==> {
            &&& size == self.row.len()
            &&& self.left(1) <= self.right(1)
            &&& 2 * self.right(1) <= size + 1
            &&& forall|j: int|
                2 * self.right(1) <= j < size ==> #[trigger] self.row[j] == self.others[size - 1
                    + j]
        }
    }

    /// What filling in the nodes gives where the other tree has the same leaf hashes below the nodes
    /// that are copied from it: every inner node is the hash of its children, or one of these hashes
    /// fails, and then those on the levels below are filled in, and those on the levels above are as
    /// before.
    pub open spec fn consistent_outcome(
        &self,
        before: Seq<H>,
        after: Seq<H>,
        result: Result<(), Error>,
    ) -> bool {
        let inner = self.row.len() - 1;
        &&& after.skip(inner) == self.row
        &&& result is Ok <==> node(self.function, self.row, 0) is Some
        &&& match result {
            Ok(_) => hashed_from(self.function, after, inner, 0),
            Err(Error::Hash(error)) => exists|height: nat, index: int|
                {
                    &&& #[trigger] update_fails(
                        self.function,
                        self.row,
                        self.unchanged,
                        height,
                        index,
                        error@,
                    )
                    &&& hashed_from(self.function, after, inner, self.start(height))
                    &&& forall|i: int|
                        0 <= i < self.start(height + 1) ==> #[trigger] after[i] == before[i]
                },
            Err(_) => false,
        }
    }

    /// Where a level gets filled in, so do those below it.
    proof fn lemma_reaches_below(&self, low: nat, high: nat)
        requires
            low <= high,
            self.reaches(high),
        ensures
            self.reaches(low),
        decreases high,
    {
        if low < high {
            self.lemma_reaches_below(low, (high - 1) as nat);
        }
    }

    /// There is only one level up to which the nodes get filled in.
    pub proof fn law_stops_once(&self, height: nat, other: nat)
        requires
            self.reaches(height),
            !self.reaches(height + 1),
            self.reaches(other),
            !self.reaches(other + 1),
        ensures
            height == other,
    {
        if height < other {
            self.lemma_reaches_below(height + 1, other);
        } else if other < height {
            self.lemma_reaches_below(other + 1, height);
        }
    }

    /// Where a level is filled in, the children of a node above it are the two nodes from twice its
    /// position on.
    pub(crate) proof fn lemma_pair(&self, nodes: Seq<H>, height: nat, position: int)
        requires
            is_pow2(self.row.len() as int),
            self.start(height) > 0,
            self.filled(nodes, height),
            0 <= position <= self.start(height + 1),
        ensures
            self.node_at(height, 2 * position) is Some,
            self.node_at(height, 2 * position + 1) is Some,
            children_hash(self.function, nodes, self.start(height + 1) + position)
                == self.pair_hash(height, position),
    {
        lemma_level_start(self.row.len(), height);
        let index = self.start(height + 1) + position;
        assert(2 * index + 1 == self.start(height) + 2 * position);
        assert(2 * index + 2 == self.start(height) + (2 * position + 1));
        assert(self.node_at(height, 2 * position) is Some);
        assert(self.node_at(height, 2 * position + 1) is Some);
    }

    /// What is filled in stays so where only nodes before it change.
    pub(crate) proof fn lemma_still_filled(&self, before: Seq<H>, after: Seq<H>, height: nat)
        requires
            is_pow2(self.row.len() as int),
            self.start(height) >= 0,
            self.filled(before, height),
            before.len() == after.len() == 2 * self.row.len() - 1,
            forall|i: int| self.start(height) <= i < before.len() ==> #[trigger] after[i] == before[i],
        ensures
            self.filled(after, height),
    {
        assert forall|level: nat, position: int|
            level <= height && 0 <= position <= self.start(level) implies #[trigger] self.node_at(
            level,
            position,
        ) == Some(after[self.start(level) + position]) by {
            lemma_levels_ordered(self.row.len(), level, height);
            lemma_level_start(self.row.len(), level);
            assert(after[self.start(level) + position] == before[self.start(level) + position]);
        }
    }

    /// A level whose nodes are copied and computed continues the levels below it.
    pub(crate) proof fn lemma_level_filled(&self, before: Seq<H>, after: Seq<H>, height: nat)
        requires
            is_pow2(self.row.len() as int),
            self.start(height) > 0,
            self.filled(before, height),
            before.len() == after.len() == 2 * self.row.len() - 1,
            forall|i: int| self.start(height) <= i < before.len() ==> #[trigger] after[i] == before[i],
            same_nodes(
                after,
                self.start(height + 1),
                self.others,
                self.other_start(height + 1),
                self.left(height + 1),
            ),
            forall|i: int|
                self.start(height + 1) + self.left(height + 1) <= i < self.start(height + 1)
                    + self.right(height + 1) ==> children_hash(self.function, before, i) == Ok::<
                    H,
                    Seq<char>,
                >(#[trigger] after[i]),
            same_nodes(
                after,
                self.start(height + 1) + self.right(height + 1),
                self.others,
                self.start(height + 1) + self.right(height + 1),
                self.start(height) - (self.start(height + 1) + self.right(height + 1)),
            ),
        ensures
            self.filled(after, height + 1),
            self.level_computed(height + 1),
    {
        let above = height + 1;
        self.lemma_still_filled(before, after, height);
        lemma_level_start(self.row.len(), height);
        assert forall|position: int| 0 <= position <= self.start(above) implies #[trigger] self.node_at(
            above,
            position,
        ) == Some(after[self.start(above) + position]) by {
            self.lemma_pair(before, height, position);
            let hash = after[self.start(above) + position];
        }
    }

    /// The nodes that are copied from the left are there in the other tree.
    proof fn lemma_left_is_there(&self, height: nat)
        requires
            self.consistent(),
        ensures
            self.left(height + 1) <= (self.other_start(height) + 1) / 2,
            self.other_start(height) >= -1,
        decreases height,
    {
        if height > 0 {
            self.lemma_left_is_there((height - 1) as nat);
        }
    }

    /// The nodes of a level that are copied from the right begin behind those that are copied from
    /// the left, and at the end of the level at the latest.
    proof fn lemma_sides_apart(&self, height: nat)
        requires
            is_pow2(self.row.len() as int),
            self.consistent(),
            self.unchanged.right is Some,
            self.start(height) > 0,
        ensures
            0 <= self.left(height + 1) <= self.right(height + 1) <= self.start(height + 1) + 1,
        decreases height,
    {
        lemma_level_start(self.row.len(), height);
        if height > 0 {
            lemma_levels_ordered(self.row.len(), (height - 1) as nat, height);
            self.lemma_sides_apart((height - 1) as nat);
        }
    }

    /// Where the other tree has the same leaf hashes below the nodes that are copied from it, every
    /// node is that of the tree over the row.
    proof fn lemma_consistent_node(&self, height: nat, position: int)
        requires
            is_pow2(self.row.len() as int),
            self.consistent(),
            0 <= position <= self.start(height),
        ensures
            self.node_at(height, position) == node(
                self.function,
                self.row,
                self.start(height) + position,
            ),
        decreases height,
    {
        if height > 0 {
            let below = (height - 1) as nat;
            let index = self.start(height) + position;
            lemma_levels_ordered(self.row.len(), below, height);
            lemma_levels_ordered(self.row.len(), 0, below);
            lemma_level_start(self.row.len(), below);
            assert(2 * index + 1 == self.start(below) + 2 * position);
            assert(2 * index + 2 == self.start(below) + (2 * position + 1));
            self.lemma_consistent_node(below, 2 * position);
            self.lemma_consistent_node(below, 2 * position + 1);
            let size = ((self.others.len() + 1) / 2) as nat;
            self.lemma_left_is_there(below);
            if position < self.left(height) {
                let other = self.other_start(height) + position;
                lemma_levels_ordered(size, 0, below);
                lemma_level_start(size, below);
                assert(hashed_at(self.function, self.others, other));
                assert(2 * other + 1 == self.other_start(below) + 2 * position);
                assert(self.node_at(below, 2 * position) == Some(self.others[2 * other + 1]));
                assert(self.node_at(below, 2 * position + 1) == Some(self.others[2 * other + 2]));
            } else if position >= self.right(height) {
                self.lemma_sides_apart(below);
                assert(hashed_at(self.function, self.others, index));
                assert(self.node_at(below, 2 * position) == Some(self.others[2 * index + 1]));
                assert(self.node_at(below, 2 * position + 1) == Some(self.others[2 * index + 2]));
            }
        }
    }

    /// Where the other tree has the same leaf hashes below the nodes that are copied from it, the
    /// nodes that are filled in are the hashes of their children.
    proof fn lemma_filled_is_hashed(&self, nodes: Seq<H>, height: nat)
        requires
            is_pow2(self.row.len() as int),
            self.consistent(),
            self.start(height) >= 0,
            self.filled(nodes, height),
        ensures
            hashed_from(self.function, nodes, self.row.len() - 1, self.start(height)),
            forall|i: int|
                self.start(height) <= i < 2 * self.row.len() - 1 ==> #[trigger] node(
                    self.function,
                    self.row,
                    i,
                ) == Some(nodes[i]),
    {
        assert forall|i: int|
            self.start(height) <= i < 2 * self.row.len() - 1 implies #[trigger] node(
            self.function,
            self.row,
            i,
        ) == Some(nodes[i]) by {
            let level = lemma_level_of_index(self.row.len(), height, i);
            self.lemma_consistent_node(level, i - self.start(level));
        }
        assert forall|i: int|
            self.start(height) <= i < self.row.len() - 1 implies #[trigger] hashed_at(
            self.function,
            nodes,
            i,
        ) by {
            assert(node(self.function, self.row, i) == Some(nodes[i]));
            assert(node(self.function, self.row, 2 * i + 1) == Some(nodes[2 * i + 1]));
            assert(node(self.function, self.row, 2 * i + 2) == Some(nodes[2 * i + 2]));
        }
    }

    /// What filling in the nodes gives where the other tree has the same leaf hashes below the nodes
    /// that are copied from it.
    proof fn lemma_consistent_outcome(
        &self,
        height: nat,
        before: Seq<H>,
        after: Seq<H>,
        result: Result<(), Error>,
    )
        requires
            is_pow2(self.row.len() as int),
            self.consistent(),
            after.len() == before.len() == 2 * self.row.len() - 1,
            self.stops_at(height, before, after, result),
        ensures
            self.consistent_outcome(before, after, result),
    {
        let inner = self.row.len() - 1;
        self.lemma_top_reached(height);
        self.lemma_filled_is_hashed(after, height);
        assert(after.skip(inner) =~= self.row) by {
            assert forall|j: int| 0 <= j < self.row.len() implies after.skip(inner)[j]
                == #[trigger] self.row[j] by {
                assert(self.node_at(0, j) == Some(after[self.start(0) + j]));
            }
        }
        if self.start(height) == 0 {
            assert(node(self.function, self.row, 0) == Some(after[0]));
        } else {
            self.lemma_left_is_there(height);
            if self.unchanged.right is Some {
                self.lemma_sides_apart(height);
                if height > 0 {
                    lemma_levels_ordered(self.row.len(), 0, height);
                }
            }
            let above = height + 1;
            let message = result->Err_0->Hash_0@;
            let position = choose|position: int|
                self.fails_at(height, position, before, after, message);
            let index = self.start(above) + position;
            lemma_level_start(self.row.len(), height);
            self.lemma_consistent_node(height, 2 * position);
            self.lemma_consistent_node(height, 2 * position + 1);
            self.lemma_consistent_node(above, position);
            assert forall|k: int|
                self.unchanged.computed(self.row.len(), above) < PARALLEL_THRESHOLD && self.start(
                    above,
                ) <= k < index implies (#[trigger] node(self.function, self.row, k)) is Some by {
                self.lemma_consistent_node(above, k - self.start(above));
            }
            assert(node(self.function, self.row, index) is None);
            lemma_missing_node(self.function, self.row, index);
            assert(update_fails(
                self.function,
                self.row,
                self.unchanged,
                height,
                index,
                message,
            ));
        }
    }

    /// What filling in the nodes gives where it stops at a level.
    pub(crate) proof fn lemma_outcome(
        &self,
        height: nat,
        before: Seq<H>,
        after: Seq<H>,
        result: Result<(), Error>,
    )
        requires
            is_pow2(self.row.len() as int),
            after.len() == before.len() == 2 * self.row.len() - 1,
            self.stops_at(height, before, after, result),
        ensures
            self.outcome(before, after, result),
            self.consistent() ==> self.consistent_outcome(before, after, result),
    {
        self.lemma_top_reached(height);
        if self.start(height) > 0 && !self.lacks_left(height) && !self.lacks_right(height) {
            let message = result->Err_0->Hash_0@;
            let position = choose|position: int|
                self.fails_at(height, position, before, after, message);
            self.lemma_pair(after, height, position);
            assert(self.node_at(height + 1, position) is None);
        }
        assert(!self.reaches(height + 1));
        if self.completes() {
            let top = choose|top: nat| #[trigger] self.reaches(top) && self.start(top) == 0;
            self.law_stops_once(height, top);
        }
        if self.exceeds_left() {
            let last = choose|last: nat| #[trigger]
                self.reaches(last) && self.start(last) > 0 && self.lacks_left(last);
            self.law_stops_once(height, last);
        }
        if self.exceeds_right() {
            assert(self.reaches(0));
            assert(!self.reaches(1));
            self.law_stops_once(height, 0);
        }
        if self.consistent() {
            self.lemma_consistent_outcome(height, before, after, result);
        }
    }

    /// A level that gets filled in is one of the tree.
    proof fn lemma_top_reached(&self, height: nat)
        requires
            is_pow2(self.row.len() as int),
            self.row.len() >= 1,
            self.reaches(height),
        ensures
            self.start(height) >= 0,
        decreases height,
    {
        if height > 0 {
            lemma_level_start(self.row.len(), (height - 1) as nat);
        }
    }
}

} // verus!
