use merkle_tree::index::{is_left_child, is_root, left_child, parent, right_child, sibling};
use merkle_tree::size::tree_depth;
use merkle_tree::Error;

#[test]
fn indices_of_a_small_tree() {
    assert!(is_root(0));
    assert!(!is_root(1));
    assert_eq!(left_child(0), 1);
    assert_eq!(right_child(0), 2);
    assert_eq!(left_child(5), 11);
    assert_eq!(right_child(5), 12);
    assert!(is_left_child(11));
    assert!(!is_left_child(12));
    assert_eq!(sibling(0), None);
    assert_eq!(sibling(11), Some(12));
    assert_eq!(sibling(12), Some(11));
    assert_eq!(parent(0), None);
    assert_eq!(parent(1), Some(0));
    assert_eq!(parent(2), Some(0));
    assert_eq!(parent(11), Some(5));
    assert_eq!(parent(12), Some(5));
}

#[test]
fn children_and_siblings() {
    for index in 0..1000 {
        assert_eq!(parent(left_child(index)), Some(index));
        assert_eq!(parent(right_child(index)), Some(index));
        assert_eq!(sibling(left_child(index)), Some(right_child(index)));
        assert_eq!(sibling(right_child(index)), Some(left_child(index)));
    }
}

#[test]
fn depths() {
    assert_eq!(tree_depth::<64>(0), Ok(0));
    assert_eq!(tree_depth::<64>(1), Ok(0));
    assert_eq!(tree_depth::<64>(3), Ok(1));
    assert_eq!(tree_depth::<64>(4), Ok(2));
    assert_eq!(tree_depth::<64>(7), Ok(2));
    assert_eq!(tree_depth::<64>((1 << 20) - 1), Ok(19));
    assert_eq!(tree_depth::<64>(1 << 20), Ok(20));
    assert_eq!(tree_depth::<19>((1 << 20) - 1), Ok(19));
    assert_eq!(
        tree_depth::<18>((1 << 20) - 1),
        Err(Error::DepthExceeded { depth: 19, maximum: 18 })
    );
    assert_eq!(tree_depth::<64>(1 << 51), Ok(51));
    assert_eq!(tree_depth::<64>(1 << 52), Err(Error::TreeTooLarge));
}
