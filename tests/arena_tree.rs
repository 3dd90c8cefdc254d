use range_trees::arena_tree::Tree;

#[test]
fn test_sum() {
    let mut tree = Tree::with_root(10);

    assert_eq!(tree.sum(), 10);

    tree.add_node(0, 5, true); // id 1
    tree.add_node(0, 22, false); // id 2

    assert_eq!(tree.sum(), 37);

    tree.add_node(1, 7, false); // id 3
    tree.add_node(2, 20, true); // id 4

    assert_eq!(tree.sum(), 64);
}

#[test]
fn test_is_bst_single_node() {
    let tree = Tree::with_root(42);
    assert_eq!(tree.is_bst(), true); // A single-node tree is a valid BST
}

#[test]
fn test_is_bst_left_skewed_valid() {
    let mut tree = Tree::with_root(10);
    tree.add_node(0, 5, true);
    tree.add_node(1, 3, true);
    tree.add_node(2, 2, true);
    assert_eq!(tree.is_bst(), true); // Valid left-skewed BST
}

#[test]
fn test_is_bst_left_skewed_invalid() {
    let mut tree = Tree::with_root(10);
    tree.add_node(0, 5, true);
    tree.add_node(1, 12, true); // Invalid: 12 > 10
    assert_eq!(tree.is_bst(), false);
}

#[test]
fn test_is_bst_right_skewed_valid() {
    let mut tree = Tree::with_root(10);
    tree.add_node(0, 15, false);
    tree.add_node(1, 20, false);
    tree.add_node(2, 25, false);
    assert_eq!(tree.is_bst(), true); // Valid right-skewed BST
}

#[test]
fn test_is_bst_right_skewed_invalid() {
    let mut tree = Tree::with_root(10);
    tree.add_node(0, 15, false);
    tree.add_node(1, 5, false); // Invalid: 5 < 10
    assert_eq!(tree.is_bst(), false);
}

#[test]
fn test_is_bst_with_duplicates_valid() {
    let mut tree = Tree::with_root(10);
    tree.add_node(0, 5, true);
    tree.add_node(1, 10, false); // Duplicate on the left is valid
    assert_eq!(tree.is_bst(), true);
}

#[test]
fn test_is_bst_with_duplicates_invalid() {
    let mut tree = Tree::with_root(10);
    tree.add_node(0, 10, false); // Duplicate on the right should be invalid
    assert_eq!(tree.is_bst(), false);
}

#[test]
fn test_is_bst_deep_violation() {
    let mut tree = Tree::with_root(10);
    tree.add_node(0, 5, true);
    tree.add_node(1, 3, true);
    tree.add_node(2, 4, false);
    tree.add_node(3, 1, true);
    tree.add_node(3, 15, false); // Invalid: 15 > 10 should not be in the left subtree
    assert_eq!(tree.is_bst(), false);
}

#[test]
fn test_max_path_sum_single_node() {
    let tree = Tree::with_root(42);
    assert_eq!(tree.max_path_sum(), 42); // Single-node tree
}

#[test]
fn test_max_path_sum_multiple_paths() {
    let mut tree = Tree::with_root(10);
    tree.add_node(0, 5, true);
    tree.add_node(0, 15, false);
    tree.add_node(1, 3, true);
    tree.add_node(1, 7, false);
    tree.add_node(2, 12, true);
    tree.add_node(2, 20, false);
    assert_eq!(tree.max_path_sum(), 57); // Path: 7 -> 5 -> 10 -> 15 -> 20
}

#[test]
fn test_max_path_sum_all_left_children() {
    let mut tree = Tree::with_root(1);
    tree.add_node(0, 2, true);
    tree.add_node(1, 3, true);
    tree.add_node(2, 4, true);
    assert_eq!(tree.max_path_sum(), 10); // 4 + 3 + 2 + 1 = 10
}

#[test]
fn test_max_path_sum_all_right_children() {
    let mut tree = Tree::with_root(1);
    tree.add_node(0, 2, false);
    tree.add_node(1, 3, false);
    tree.add_node(2, 4, false);
    assert_eq!(tree.max_path_sum(), 10); // 1 + 2 + 3 + 4 = 10
}

#[test]
fn root_key_zero_is_not_bst() {
    let tree = Tree::with_root(0);
    assert_eq!(tree.is_bst(), false);
}

#[test]
fn add_node_returns_new_ids() {
    let mut tree = Tree::with_root(4);
    assert_eq!(tree.add_node(0, 2, true), 1);
    assert_eq!(tree.add_node(0, 6, false), 2);
    assert_eq!(tree.add_node(1, 1, true), 3);
    assert_eq!(tree.sum(), 13);
    assert_eq!(tree.is_bst(), true);
    assert_eq!(tree.max_path_sum(), 13);
}

#[test]
fn max_path_sum_may_skip_the_root() {
    let mut tree = Tree::with_root(1);
    tree.add_node(0, 10, true);
    tree.add_node(1, 20, true);
    tree.add_node(1, 30, false);
    assert_eq!(tree.max_path_sum(), 60);
}
