use merkle_tree::hash::{LeafFunction, Outcome, PathFunction};
use merkle_tree::{Error, HashError, LeafHash, MerklePath, MerkleTree, PathHash};

// The members of `LeafHash` and `PathHash` that describe the function a hasher computes have no
// meaning at run time, and are never called.

/// Adds 100 to a leaf; the leaf 13 has no hash.
#[derive(Clone)]
struct AddHundred;

impl LeafHash for AddHundred {
    type Hash = u64;
    type Leaf = u64;

    fn function(&self) -> LeafFunction<u64, u64> {
        unreachable!()
    }

    fn lemma_clone_hashes_alike(&self, _other: &Self) {}

    fn hash_leaf(&self, leaf: &u64) -> Result<u64, HashError> {
        if *leaf == 13 {
            Err(HashError { message: String::from("13 is no leaf") })
        } else {
            Ok(leaf.wrapping_add(100))
        }
    }
}

/// A leaf without contents, of which there can be more than memory could hold.
#[derive(Clone)]
struct Unit;

impl LeafHash for Unit {
    type Hash = u64;
    type Leaf = ();

    fn function(&self) -> LeafFunction<(), u64> {
        unreachable!()
    }

    fn lemma_clone_hashes_alike(&self, _other: &Self) {}

    fn hash_leaf(&self, _leaf: &()) -> Result<u64, HashError> {
        Ok(1)
    }
}

/// Computes `(3 * left + 5 * right + 1) % modulus`, except on one pair, which has no hash.
#[derive(Clone)]
struct Mix {
    modulus: u64,
    empty: Option<u64>,
    refused: Option<(u64, u64)>,
}

impl PathHash for Mix {
    type Hash = u64;

    fn function(&self) -> PathFunction<u64> {
        unreachable!()
    }

    fn empty(&self) -> Outcome<u64> {
        unreachable!()
    }

    fn lemma_clone_hashes_alike(&self, _other: &Self) {}

    fn lemma_hash_equality() {}

    fn hash_empty(&self) -> Result<u64, HashError> {
        match self.empty {
            Some(empty) => Ok(empty),
            None => Err(HashError { message: String::from("no empty hash") }),
        }
    }

    fn hash_children(&self, left: &u64, right: &u64) -> Result<u64, HashError> {
        if self.refused == Some((*left, *right)) {
            return Err(HashError { message: format!("refused ({left}, {right})") });
        }
        let mixed = 3 * (*left as u128) + 5 * (*right as u128) + 1;
        Ok((mixed % self.modulus as u128) as u64)
    }
}

/// Computes `(2 * left + 2 * right + 2) % 1000`; a pair with an odd left child has no hash.
#[derive(Clone)]
struct EvenLeft;

impl PathHash for EvenLeft {
    type Hash = u64;

    fn function(&self) -> PathFunction<u64> {
        unreachable!()
    }

    fn empty(&self) -> Outcome<u64> {
        unreachable!()
    }

    fn lemma_clone_hashes_alike(&self, _other: &Self) {}

    fn lemma_hash_equality() {}

    fn hash_empty(&self) -> Result<u64, HashError> {
        Ok(EMPTY)
    }

    fn hash_children(&self, left: &u64, right: &u64) -> Result<u64, HashError> {
        if left % 2 == 1 {
            return Err(HashError { message: format!("odd left child {left}") });
        }
        Ok((2 * left + 2 * right + 2) % 1000)
    }
}

const EMPTY: u64 = 7;

fn small() -> Mix {
    Mix { modulus: 1000, empty: Some(EMPTY), refused: None }
}

fn large() -> Mix {
    Mix { modulus: 0xffff_ffff_ffff_ffc5, empty: Some(EMPTY), refused: None }
}

type Tree<const DEPTH: u8> = MerkleTree<AddHundred, Mix, DEPTH>;

fn tree_of<const DEPTH: u8>(leaves: &[u64]) -> Tree<DEPTH> {
    Tree::<DEPTH>::new(&AddHundred, &large(), leaves).unwrap()
}

fn leaves_up_to(n: u64) -> Vec<u64> {
    (0..n).map(|i| 1000 + 17 * i).collect()
}

/// The top of the tree over a row, by halves.
fn top(hasher: &Mix, row: &[u64]) -> u64 {
    if row.len() == 1 {
        row[0]
    } else {
        let (left, right) = row.split_at(row.len() / 2);
        hasher.hash_children(&top(hasher, left), &top(hasher, right)).unwrap()
    }
}

/// The root over some leaves, by halves and padding.
fn expected_root(hasher: &Mix, leaves: &[u64], depth: u8) -> u64 {
    let mut row: Vec<u64> = leaves.iter().map(|leaf| leaf + 100).collect();
    row.resize(leaves.len().next_power_of_two(), EMPTY);
    let mut root = top(hasher, &row);
    for _ in row.len().trailing_zeros()..u32::from(depth) {
        root = hasher.hash_children(&root, &EMPTY).unwrap();
    }
    root
}

fn assert_same<const DEPTH: u8>(a: &Tree<DEPTH>, b: &Tree<DEPTH>) {
    assert_eq!(a.root(), b.root());
    assert_eq!(a.tree(), b.tree());
    assert_eq!(a.leaf_hashes().unwrap(), b.leaf_hashes().unwrap());
    assert_eq!(a.empty_hash(), b.empty_hash());
    assert_eq!(a.number_of_leaves(), b.number_of_leaves());
}

#[test]
fn three_leaves() {
    let tree = Tree::<3>::new(&AddHundred, &small(), &[1, 2, 3]).unwrap();
    assert_eq!(tree.leaf_hashes().unwrap(), &[101, 102, 103]);
    assert_eq!(tree.number_of_leaves(), 3);
    assert_eq!(*tree.empty_hash(), 7);
    // 814 = 3 * 101 + 5 * 102 + 1, 345 = 3 * 103 + 5 * 7 + 1, 168 = 3 * 814 + 5 * 345 + 1 - 4000.
    assert_eq!(tree.tree(), &[168, 814, 345]);
    // 540 = 3 * 168 + 5 * 7 + 1.
    assert_eq!(*tree.root(), 540);
}

#[test]
fn no_leaves() {
    let tree = Tree::<2>::new(&AddHundred, &small(), &[]).unwrap();
    assert_eq!(tree.number_of_leaves(), 0);
    assert!(tree.leaf_hashes().unwrap().is_empty());
    assert!(tree.tree().is_empty());
    // 57 = 3 * 7 + 5 * 7 + 1, 207 = 3 * 57 + 5 * 7 + 1.
    assert_eq!(*tree.root(), 207);
    assert_eq!(tree.prove(0, &1).err(), Some(Error::LeafIndexOutOfBounds));
}

#[test]
fn one_leaf() {
    let tree = Tree::<1>::new(&AddHundred, &small(), &[5]).unwrap();
    assert!(tree.tree().is_empty());
    // 351 = 3 * 105 + 5 * 7 + 1.
    assert_eq!(*tree.root(), 351);
    let path = tree.prove(0, &5).unwrap();
    assert_eq!(path.siblings(), &[7]);
    assert!(tree.verify(&path, &351, &5));
}

#[test]
fn roots_of_all_small_sizes() {
    for n in 0..=70 {
        let leaves = leaves_up_to(n);
        let tree = tree_of::<7>(&leaves);
        assert_eq!(*tree.root(), expected_root(&large(), &leaves, 7));
        assert_eq!(tree.tree().len(), leaves.len().next_power_of_two() - 1);
    }
}

#[test]
fn roots_of_many_leaves() {
    for n in [99, 100, 101, 199, 200, 201, 256, 257, 1000, 1500] {
        let leaves = leaves_up_to(n);
        assert_eq!(*tree_of::<12>(&leaves).root(), expected_root(&large(), &leaves, 12));
    }
}

#[test]
fn depth_of_sixty_four() {
    let leaves = leaves_up_to(6);
    assert_eq!(*tree_of::<64>(&leaves).root(), expected_root(&large(), &leaves, 64));
}

#[test]
fn paths_verify() {
    for n in 1..=33 {
        let leaves = leaves_up_to(n);
        let tree = tree_of::<6>(&leaves);
        for (i, leaf) in leaves.iter().enumerate() {
            let path = tree.prove(i, leaf).unwrap();
            assert_eq!(path.leaf_index(), i as u64);
            assert_eq!(path.siblings().len(), 6);
            assert!(tree.verify(&path, tree.root(), leaf));
            assert!(path.verify(&AddHundred, &large(), tree.root(), leaf));
            assert!(!tree.verify(&path, &(tree.root() ^ 1), leaf));
            assert!(!tree.verify(&path, tree.root(), &(leaf + 1)));
            assert!(!tree.verify(&path, tree.root(), &13));
        }
    }
}

#[test]
fn path_of_the_third_leaf() {
    let tree = Tree::<3>::new(&AddHundred, &small(), &[1, 2, 3]).unwrap();
    let path = tree.prove(2, &3).unwrap();
    assert_eq!(path.leaf_index(), 2);
    assert_eq!(path.siblings(), &[7, 814, 7]);
    let path = tree.prove(1, &2).unwrap();
    assert_eq!(path.siblings(), &[101, 345, 7]);
}

#[test]
fn path_at_another_index_is_refused() {
    let tree = tree_of::<4>(&leaves_up_to(10));
    let path = tree.prove(4, &leaves_up_to(10)[4]).unwrap();
    let siblings: Vec<u64> = path.siblings().to_vec();
    for index in 0..16 {
        let other = MerklePath::<u64, 4>::try_from((index, siblings.clone())).unwrap();
        assert_eq!(tree.verify(&other, tree.root(), &leaves_up_to(10)[4]), index == 4);
    }
}

#[test]
fn path_with_a_failing_pair_is_refused() {
    let tree = Tree::<1>::new(&AddHundred, &small(), &[1, 2]).unwrap();
    let path = tree.prove(0, &1).unwrap();
    let refusing = Mix { refused: Some((101, 102)), ..small() };
    assert!(path.verify(&AddHundred, &small(), tree.root(), &1));
    assert!(!path.verify(&AddHundred, &refusing, tree.root(), &1));
}

#[test]
fn append_agrees_with_new() {
    for before in 0..=20 {
        for after in before..=40 {
            let leaves = leaves_up_to(after);
            let mut tree = tree_of::<6>(&leaves[..before as usize]);
            let prepared = tree.prepare_append(&leaves[before as usize..]).unwrap();
            assert_same(&prepared, &tree_of::<6>(&leaves));
            tree.append(&leaves[before as usize..]).unwrap();
            assert_same(&tree, &prepared);
        }
    }
}

#[test]
fn append_agrees_with_new_on_many_leaves() {
    for (before, after) in [(0, 500), (1, 512), (255, 256), (256, 257), (300, 511), (300, 900)] {
        let leaves = leaves_up_to(after);
        let mut tree = tree_of::<10>(&leaves[..before]);
        tree.append(&leaves[before..]).unwrap();
        assert_same(&tree, &tree_of::<10>(&leaves));
    }
}

#[test]
fn appends_compose() {
    let leaves = leaves_up_to(29);
    let mut tree = tree_of::<5>(&[]);
    for leaf in &leaves {
        tree.append(&[*leaf]).unwrap();
    }
    assert_same(&tree, &tree_of::<5>(&leaves));
}

#[test]
fn append_nothing() {
    for n in 0..=9 {
        let tree = tree_of::<4>(&leaves_up_to(n));
        assert_same(&tree.prepare_append(&[]).unwrap(), &tree);
    }
}

#[test]
fn remove_agrees_with_new() {
    for before in 1..=40 {
        for after in 0..before {
            let leaves = leaves_up_to(before);
            let mut tree = tree_of::<6>(&leaves);
            let prepared = tree.prepare_remove_last_n((before - after) as usize).unwrap();
            assert_same(&prepared, &tree_of::<6>(&leaves[..after as usize]));
            tree.remove_last_n((before - after) as usize).unwrap();
            assert_same(&tree, &prepared);
        }
    }
}

#[test]
fn remove_many_leaves() {
    for (before, after) in [(512, 0), (512, 257), (513, 511), (1000, 600), (1000, 3)] {
        let leaves = leaves_up_to(before);
        let mut tree = tree_of::<10>(&leaves);
        tree.remove_last_n((before as usize) - after).unwrap();
        assert_same(&tree, &tree_of::<10>(&leaves[..after]));
    }
}

#[test]
fn remove_undoes_append() {
    let tree = tree_of::<5>(&leaves_up_to(11));
    for n in 1..=21 {
        let mut changed = tree.clone();
        changed.append(&leaves_up_to(n)).unwrap();
        assert_eq!(changed.number_of_leaves(), 11 + n as usize);
        changed.remove_last_n(n as usize).unwrap();
        assert_same(&changed, &tree);
    }
}

#[test]
fn removals_compose() {
    let tree = tree_of::<5>(&leaves_up_to(23));
    let stepwise = tree.prepare_remove_last_n(4).unwrap().prepare_remove_last_n(9).unwrap();
    assert_same(&stepwise, &tree.prepare_remove_last_n(13).unwrap());
}

#[test]
fn clone_is_the_same_tree() {
    let tree = tree_of::<5>(&leaves_up_to(23));
    let mut copy = tree.clone();
    assert_same(&copy, &tree);
    copy.append(&[1]).unwrap();
    assert_eq!(tree.number_of_leaves(), 23);
    assert_eq!(copy.number_of_leaves(), 24);
}

#[test]
fn deeper_root() {
    let leaves = leaves_up_to(5);
    let above = large().hash_children(tree_of::<4>(&leaves).root(), &EMPTY).unwrap();
    assert_eq!(*tree_of::<5>(&leaves).root(), above);
}

#[test]
fn depth_zero_is_refused() {
    assert_eq!(
        Tree::<0>::new(&AddHundred, &small(), &[13]).err(),
        Some(Error::ZeroDepth)
    );
}

#[test]
fn depth_sixty_five_is_refused() {
    assert_eq!(
        Tree::<65>::new(&AddHundred, &small(), &[13]).err(),
        Some(Error::DepthTooLarge)
    );
}

#[test]
fn too_many_leaves_for_the_machine() {
    let leaves = [(); usize::MAX];
    assert_eq!(
        MerkleTree::<Unit, Mix, 64>::new(&Unit, &small(), &leaves).err(),
        Some(Error::LeafCountOverflow)
    );
}

#[test]
fn too_many_nodes() {
    let leaves = [(); (1 << 51) + 1];
    assert_eq!(
        MerkleTree::<Unit, Mix, 64>::new(&Unit, &small(), &leaves).err(),
        Some(Error::TreeTooLarge)
    );
    let mut tree = MerkleTree::<Unit, Mix, 64>::new(&Unit, &small(), &[()]).unwrap();
    assert_eq!(tree.append(&leaves), Err(Error::TreeTooLarge));
    assert_eq!(tree.number_of_leaves(), 1);
}

#[test]
fn too_many_leaves_for_the_depth() {
    assert!(Tree::<2>::new(&AddHundred, &small(), &leaves_up_to(4)).is_ok());
    assert_eq!(
        Tree::<2>::new(&AddHundred, &small(), &leaves_up_to(5)).err(),
        Some(Error::DepthExceeded { depth: 3, maximum: 2 })
    );
    let mut tree = tree_of::<2>(&leaves_up_to(3));
    let before = tree.clone();
    assert_eq!(
        tree.append(&leaves_up_to(6)),
        Err(Error::DepthExceeded { depth: 4, maximum: 2 })
    );
    assert_same(&tree, &before);
}

#[test]
fn removing_no_leaves_is_refused() {
    let mut tree = tree_of::<3>(&leaves_up_to(3));
    assert_eq!(tree.remove_last_n(0), Err(Error::NoLeavesToRemove));
}

#[test]
fn removing_too_many_leaves_is_refused() {
    let mut tree = tree_of::<3>(&leaves_up_to(3));
    let before = tree.clone();
    assert_eq!(
        tree.remove_last_n(4),
        Err(Error::NotEnoughLeaves { requested: 4, available: 3 })
    );
    assert_same(&tree, &before);
}

#[test]
fn wrong_leaves_are_not_proved() {
    let tree = tree_of::<3>(&[1, 2, 3]);
    assert_eq!(tree.prove(3, &3).err(), Some(Error::LeafIndexOutOfBounds));
    assert_eq!(tree.prove(1, &3).err(), Some(Error::LeafMismatch));
    assert_eq!(tree.prove(3, &13).err(), Some(Error::LeafIndexOutOfBounds));
    assert_eq!(
        tree.prove(2, &13).err(),
        Some(Error::Hash(HashError { message: String::from("13 is no leaf") }))
    );
}

#[test]
fn failing_leaf_hash() {
    let failure = Error::Hash(HashError { message: String::from("13 is no leaf") });
    assert_eq!(
        Tree::<3>::new(&AddHundred, &small(), &[1, 13, 3]).err(),
        Some(Error::Hash(HashError { message: String::from("13 is no leaf") }))
    );
    let mut tree = tree_of::<3>(&[1, 2]);
    let before = tree.clone();
    assert_eq!(tree.append(&[3, 13]), Err(failure));
    assert_same(&tree, &before);
}

#[test]
fn failing_leaf_hash_among_many() {
    let mut leaves = leaves_up_to(300);
    leaves[250] = 13;
    assert_eq!(
        Tree::<9>::new(&AddHundred, &large(), &leaves).err(),
        Some(Error::Hash(HashError { message: String::from("13 is no leaf") }))
    );
}

#[test]
fn failing_empty_hash() {
    let hasher = Mix { empty: None, ..small() };
    assert_eq!(
        Tree::<3>::new(&AddHundred, &hasher, &[13]).err(),
        Some(Error::Hash(HashError { message: String::from("no empty hash") }))
    );
}

#[test]
fn failing_inner_node() {
    let hasher = Mix { refused: Some((103, 7)), ..small() };
    let failure = || Error::Hash(HashError { message: String::from("refused (103, 7)") });
    assert_eq!(Tree::<3>::new(&AddHundred, &hasher, &[1, 2, 3]).err(), Some(failure()));

    let mut tree = Tree::<3>::new(&AddHundred, &hasher, &[1, 2]).unwrap();
    let before = tree.clone();
    assert_eq!(tree.append(&[3]), Err(failure()));
    assert_same(&tree, &before);
    tree.append(&[3, 4]).unwrap();
    assert_eq!(tree.remove_last_n(1), Err(failure()));
    assert_eq!(tree.leaf_hashes().unwrap(), &[101, 102, 103, 104]);
    tree.remove_last_n(2).unwrap();
    assert_same(&tree, &before);
}

#[test]
fn failing_padding() {
    let hasher = Mix { refused: Some((168, 7)), ..small() };
    assert!(Tree::<2>::new(&AddHundred, &hasher, &[1, 2, 3]).is_ok());
    assert_eq!(
        Tree::<3>::new(&AddHundred, &hasher, &[1, 2, 3]).err(),
        Some(Error::Hash(HashError { message: String::from("refused (168, 7)") }))
    );
}

#[test]
fn failing_inner_node_among_many() {
    let leaves = leaves_up_to(400);
    let refused = (leaves[300] + 100, leaves[301] + 100);
    let hasher = Mix { refused: Some(refused), ..large() };
    let failure = HashError { message: format!("refused ({}, {})", refused.0, refused.1) };
    let mut tree = Tree::<9>::new(&AddHundred, &hasher, &leaves[..3]).unwrap();
    assert_eq!(tree.append(&leaves[3..]), Err(Error::Hash(failure)));
    assert_eq!(tree.number_of_leaves(), 3);
}

#[test]
fn first_failing_pair_is_reported() {
    let failure = |left: u64| {
        Error::Hash(HashError { message: format!("odd left child {left}") })
    };
    type Picky = MerkleTree<AddHundred, EvenLeft, 9>;
    assert_eq!(Picky::new(&AddHundred, &EvenLeft, &[]).err(), Some(failure(7)));

    let mut tree = Picky::new(&AddHundred, &EvenLeft, &[0, 1]).unwrap();
    // The pairs (105, 106) and (109, 110) have no hash.
    assert_eq!(tree.append(&[2, 3, 5, 6, 9, 10]), Err(failure(105)));
    // The pairs (103, 104), (105, 106) and (7, 7) have no hash.
    assert_eq!(tree.append(&[3, 4, 5, 6]), Err(failure(103)));

    let mut tree = Picky::new(&AddHundred, &EvenLeft, &[0, 1, 2, 3, 4, 5, 6, 7]).unwrap();
    // The pairs (104, 7) and (7, 7) are new; the second one has no hash.
    assert_eq!(tree.remove_last_n(3), Err(failure(7)));
    assert_eq!(tree.number_of_leaves(), 8);

    let mut leaves: Vec<u64> = (0..128).map(|i| 2 * i).collect();
    let mut tree = Picky::new(&AddHundred, &EvenLeft, &leaves[..4]).unwrap();
    leaves[100] = 301;
    leaves[110] = 401;
    leaves[111] = 501;
    assert_eq!(tree.append(&leaves[4..]), Err(failure(401)));
}

#[test]
fn more_nodes_on_the_left_than_there_are() {
    let tree = Tree::<2>::new(&AddHundred, &small(), &[2]).unwrap();
    let mut nodes = vec![1, 2, 3];
    assert_eq!(
        tree.compute_updated_tree(&mut nodes, 1, 3, 0, None),
        Err(Error::LeftPrecomputed)
    );
    assert_eq!(nodes, [1, 2, 3]);
    // Where nothing can be copied from either side, the left comes first.
    assert_eq!(
        tree.compute_updated_tree(&mut nodes, 1, 3, 0, Some(0)),
        Err(Error::LeftPrecomputed)
    );
    assert_eq!(nodes, [1, 2, 3]);
}

#[test]
fn levels_are_filled_in_before_the_left_runs_out() {
    let tree = Tree::<3>::new(&AddHundred, &small(), &[1, 2]).unwrap();
    let mut nodes = vec![0; 7];
    nodes.extend(201..=208);
    assert_eq!(
        tree.compute_updated_tree(&mut nodes, 7, 11, 1, None),
        Err(Error::LeftPrecomputed)
    );
    // 646 = 3 * 205 + 5 * 206 + 1 - 1000, 662 = 3 * 207 + 5 * 208 + 1 - 1000.
    assert_eq!(nodes[..7], [0, 0, 0, 814, 101, 646, 662]);
    assert!(nodes[7..].iter().copied().eq(201..=208));
}

#[test]
fn nodes_are_copied_whatever_they_are() {
    let tree = Tree::<3>::new(&AddHundred, &small(), &[1, 2, 3, 4]).unwrap();
    assert_eq!(tree.tree(), &[593, 814, 830]);
    let mut nodes = vec![0; 7];
    nodes.extend(201..=208);
    assert_eq!(tree.compute_updated_tree(&mut nodes, 7, 13, 3, None), Ok(()));
    // 614 = 3 * 101 + 5 * 662 + 1 - 3000, 850 = 3 * 593 + 5 * 614 + 1 - 4000.
    assert_eq!(nodes[..7], [850, 593, 614, 814, 830, 101, 662]);
    // On the right, the nodes with the same indices are copied.
    let mut nodes = vec![0, 0, 0, 201, 202, 203, 204];
    assert_eq!(tree.compute_updated_tree(&mut nodes, 3, 3, 3, Some(5)), Ok(()));
    // 614 = 3 * 201 + 5 * 202 + 1 - 1000, 993 = 3 * 614 + 5 * 830 + 1 - 5000.
    assert_eq!(nodes, [993, 614, 830, 201, 202, 203, 204]);
}

#[test]
fn no_index_for_the_nodes_on_the_right() {
    let tree = Tree::<2>::new(&AddHundred, &small(), &[1, 2]).unwrap();
    let mut nodes = vec![1, 101, 102];
    assert_eq!(
        tree.compute_updated_tree(&mut nodes, 1, 3, 1, Some(0)),
        Err(Error::RightPrecomputed)
    );
    // The node on the left is copied before.
    assert_eq!(nodes, [814, 101, 102]);
}

#[test]
fn nodes_are_filled_in() {
    let tree = Tree::<3>::new(&AddHundred, &small(), &[1, 2, 3]).unwrap();
    // 814 is copied, 348 = 3 * 104 + 5 * 7 + 1, 183 = 3 * 814 + 5 * 348 + 1 - 4000.
    let mut nodes = vec![0, 0, 0, 101, 102, 104, 7];
    assert_eq!(tree.compute_updated_tree(&mut nodes, 3, 5, 3, Some(7)), Ok(()));
    assert_eq!(nodes, [183, 814, 348, 101, 102, 104, 7]);
    // 345 is copied, 826 = 3 * 105 + 5 * 102 + 1, 204 = 3 * 826 + 5 * 345 + 1 - 4000.
    let mut nodes = vec![0, 0, 0, 105, 102, 103, 7];
    assert_eq!(tree.compute_updated_tree(&mut nodes, 3, 3, 3, Some(6)), Ok(()));
    assert_eq!(nodes, [204, 826, 345, 105, 102, 103, 7]);
    // 826 is copied from the top of a smaller tree.
    let tree = Tree::<3>::new(&AddHundred, &small(), &[5, 2]).unwrap();
    let mut nodes = vec![0, 0, 0, 105, 102, 103, 7];
    assert_eq!(tree.compute_updated_tree(&mut nodes, 3, 5, 1, None), Ok(()));
    assert_eq!(nodes, [204, 826, 345, 105, 102, 103, 7]);
    let tree = Tree::<3>::new(&AddHundred, &small(), &[1, 2]).unwrap();
    // 814 is copied, 830 = 3 * 103 + 5 * 104 + 1, 593 = 3 * 814 + 5 * 830 + 1 - 6000.
    let mut nodes = vec![0, 0, 0, 101, 102, 103, 104];
    assert_eq!(tree.compute_updated_tree(&mut nodes, 3, 6, 1, None), Ok(()));
    assert_eq!(nodes, [593, 814, 830, 101, 102, 103, 104]);
    // A single node has nothing above it.
    let mut nodes = vec![101];
    assert_eq!(tree.compute_updated_tree(&mut nodes, 0, 0, 1, None), Ok(()));
    assert_eq!(nodes, [101]);
}

#[test]
fn failing_pair_where_nodes_are_filled_in() {
    let hasher = Mix { refused: Some((104, 7)), ..small() };
    let tree = Tree::<3>::new(&AddHundred, &hasher, &[1, 2, 3]).unwrap();
    let mut nodes = vec![0, 0, 0, 101, 102, 104, 7];
    assert_eq!(
        tree.compute_updated_tree(&mut nodes, 3, 5, 3, Some(7)),
        Err(Error::Hash(HashError { message: String::from("refused (104, 7)") }))
    );
    assert_eq!(nodes, [0, 814, 0, 101, 102, 104, 7]);

    let tree = MerkleTree::<AddHundred, EvenLeft, 3>::new(&AddHundred, &EvenLeft, &[0, 1]).unwrap();
    let mut nodes = vec![0, 0, 0, 0, 0, 0, 0, 100, 101, 102, 103, 105, 106, 108, 109];
    assert_eq!(
        tree.compute_updated_tree(&mut nodes, 7, 7, 1, None),
        Err(Error::Hash(HashError { message: String::from("odd left child 105") }))
    );
    // 404 = 2 * 100 + 2 * 101 + 2, 412 = 2 * 102 + 2 * 103 + 2.
    assert_eq!(nodes, [0, 0, 0, 404, 412, 0, 0, 100, 101, 102, 103, 105, 106, 108, 109]);
}

#[test]
fn inner_nodes_hash_their_children() {
    let check = |tree: &Tree<7>| {
        let mut nodes = tree.tree().to_vec();
        nodes.extend(tree.leaf_hashes().unwrap());
        nodes.resize(2 * tree.tree().len() + 1, EMPTY);
        for i in 0..tree.tree().len() {
            assert_eq!(
                nodes[i],
                large().hash_children(&nodes[2 * i + 1], &nodes[2 * i + 2]).unwrap()
            );
        }
    };
    let leaves = leaves_up_to(100);
    let mut tree = tree_of::<7>(&leaves[..3]);
    check(&tree);
    for n in [1, 2, 5, 9, 20, 60] {
        let start = tree.number_of_leaves();
        tree.append(&leaves[start..start + n]).unwrap();
        check(&tree);
    }
    for n in [1, 3, 30, 33, 20, 13] {
        tree.remove_last_n(n).unwrap();
        check(&tree);
    }
}

#[test]
fn changed_siblings_are_refused() {
    let leaves = leaves_up_to(11);
    let tree = tree_of::<5>(&leaves);
    for (i, leaf) in leaves.iter().enumerate() {
        let path = tree.prove(i, leaf).unwrap();
        for level in 0..5 {
            let mut siblings = path.siblings().to_vec();
            siblings[level] += 1;
            let other = MerklePath::<u64, 5>::try_from((i as u64, siblings)).unwrap();
            assert!(!tree.verify(&other, tree.root(), leaf));
        }
    }
}

#[test]
fn changed_leaves_change_the_root() {
    let leaves = leaves_up_to(11);
    let tree = tree_of::<5>(&leaves);
    for i in 0..leaves.len() {
        let mut others = leaves.clone();
        others[i] += 1;
        assert_ne!(tree_of::<5>(&others).root(), tree.root());
    }
}

#[test]
fn append_keeps_full_siblings() {
    let leaves = leaves_up_to(40);
    for before in 1..20 {
        let tree = tree_of::<6>(&leaves[..before]);
        for after in before..40 {
            let appended = tree_of::<6>(&leaves[..before])
                .prepare_append(&leaves[before..after])
                .unwrap();
            for i in 0..before {
                let old = tree.prove(i, &leaves[i]).unwrap();
                let new = appended.prove(i, &leaves[i]).unwrap();
                for level in 0..6 {
                    // The leaves below the sibling, from the first on.
                    let first = ((i >> level) ^ 1) << level;
                    if first + (1 << level) <= before {
                        assert_eq!(old.siblings()[level], new.siblings()[level]);
                    }
                }
            }
        }
    }
}

#[test]
fn capacity() {
    for n in 0..=20 {
        let leaves = leaves_up_to(n);
        assert_eq!(Tree::<3>::new(&AddHundred, &large(), &leaves).is_ok(), n <= 8);
        for before in 0..=8 {
            let mut tree = tree_of::<3>(&leaves_up_to(before));
            assert_eq!(tree.append(&leaves).is_ok(), before + n <= 8);
        }
    }
}

#[test]
fn pairs_are_hashed_in_order() {
    let pairs: Vec<(u64, u64)> = (0..500).map(|i| (i, i + 1)).collect();
    let hashes = small().hash_all_children(&pairs).unwrap();
    assert_eq!(hashes.len(), 500);
    for (i, hash) in hashes.iter().enumerate() {
        assert_eq!(*hash, (8 * i as u64 + 6) % 1000);
    }
    assert!(small().hash_all_children(&[]).unwrap().is_empty());
}

#[test]
fn leaves_are_hashed_in_order() {
    let leaves = leaves_up_to(500);
    let hashes = AddHundred.hash_leaves(&leaves).unwrap();
    let expected: Vec<u64> = leaves.iter().map(|leaf| leaf + 100).collect();
    assert_eq!(hashes, expected);
}

#[test]
fn parts_of_a_path() {
    assert_eq!(MerklePath::<u64, 0>::try_from((0, vec![])).err(), Some(Error::ZeroDepth));
    assert_eq!(
        MerklePath::<u64, 65>::try_from((0, vec![1; 65])).err(),
        Some(Error::DepthTooLarge)
    );
    assert_eq!(
        MerklePath::<u64, 2>::try_from((4, vec![1, 2])).err(),
        Some(Error::LeafIndexOutOfBounds)
    );
    assert_eq!(
        MerklePath::<u64, 2>::try_from((3, vec![1])).err(),
        Some(Error::PathLengthMismatch)
    );
    assert_eq!(
        MerklePath::<u64, 2>::try_from((3, vec![1, 2, 3])).err(),
        Some(Error::PathLengthMismatch)
    );
    let path = MerklePath::<u64, 64>::try_from((u64::MAX, vec![9; 64])).unwrap();
    assert_eq!(path.leaf_index(), u64::MAX);
    assert_eq!(path.siblings(), &[9; 64]);
}

#[test]
fn messages() {
    let text = |error: Error| error.message();
    assert_eq!(text(Error::ZeroDepth), "Merkle tree depth must be greater than 0");
    assert_eq!(text(Error::DepthTooLarge), "Merkle tree depth must be less than or equal to 64");
    assert_eq!(
        text(Error::LeafCountOverflow),
        "Integer overflow when computing the maximum number of leaves in the Merkle tree"
    );
    assert_eq!(text(Error::TreeTooLarge), "Tree size must be less than 2^52");
    assert_eq!(
        text(Error::DepthExceeded { depth: 10, maximum: 9 }),
        "Merkle tree cannot exceed depth 9: attempted to reach depth 10"
    );
    assert_eq!(text(Error::NoLeavesToRemove), "Cannot remove zero leaves from the Merkle tree");
    assert_eq!(
        text(Error::NotEnoughLeaves { requested: 1234567890, available: 605 }),
        "Failed to remove '1234567890' leaves from the Merkle tree, as it only contains 605"
    );
    assert_eq!(
        text(Error::LeafIndexOutOfBounds),
        "The given Merkle leaf index is out of bounds"
    );
    assert_eq!(
        text(Error::LeafMismatch),
        "The given Merkle leaf does not match the one in the Merkle tree"
    );
    assert_eq!(text(Error::PathLengthMismatch), "Incorrect Merkle path length");
    assert_eq!(
        text(Error::LeftPrecomputed),
        "Failed to process all left precomputed indices in the Merkle tree"
    );
    assert_eq!(
        text(Error::RightPrecomputed),
        "Failed to process all right precomputed indices in the Merkle tree"
    );
    assert_eq!(text(Error::Hash(HashError { message: String::from("why") })), "why");
}
