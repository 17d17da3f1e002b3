# merkle_tree

A Merkle tree of a fixed depth over a list of leaves, written in Rust and verified with
[Verus](https://github.com/verus-lang/verus).

- `MerkleTree::new` hashes the leaves, pads them with the empty hash to a power of two, and hashes
  them level by level. Where the tree has fewer levels than its depth, its top is combined with the
  empty hash once for each of the missing levels.
- `append` and `remove_last_n` change the end of the list of leaves. They copy the nodes that stay
  the same, and compute the others. A refused change leaves the tree as it was.
- `prove` gives the path of a leaf to the root, and `verify` holds a path against a root and a leaf.

The tree is generic over a `LeafHash` and a `PathHash`. Their specification members name the
function that a hasher computes; every contract is stated over these functions.

## Layout

- `src/model.rs`: the nodes, the root and the paths of a tree, as functions of its leaf hashes.
- `src/size.rs`, `src/index.rs`: the number of levels and nodes, and the numbering of the nodes.
- `src/hash.rs`, `src/parallel.rs`: the hash functions, and applying them to many items. With many
  items, rayon hands them out to several threads; its result is taken on trust.
- `src/update.rs`: filling in the nodes of a tree, where nodes of another tree are copied.
- `src/nodes.rs`, `src/tree.rs`, `src/path.rs`: the tree and its paths.
- `src/laws.rs`: what holds of trees as a whole, such as that every path that is proved verifies,
  that a root binds the leaf hashes and the siblings that lead to it unless the path hash has a
  collision, that appending agrees with starting afresh, and that removing undoes appending.
