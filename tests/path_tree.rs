use range_trees::path_tree::{count_nodes, TreeNode};

#[test]
fn lib_it_works() {
    let mut root = TreeNode::new(12);
    
    let mut left_child = TreeNode::new(8);
    left_child.left = Some(Box::new(TreeNode::new(3)));
    left_child.right = Some(Box::new(TreeNode::new(9)));

    root.left = Some(Box::new(left_child));
    root.right = Some(Box::new(TreeNode::new(20)));
    
    assert_eq!(count_nodes(&Some(Box::new(root)), 0), (1, 52));
}

#[test]
fn empty_tree_counts_nothing() {
    assert_eq!(count_nodes(&None, 5), (0, 0));
}

#[test]
fn leaf_matches_zero_path() {
    assert_eq!(count_nodes(&Some(Box::new(TreeNode::new(7))), 0), (1, 7));
    assert_eq!(count_nodes(&Some(Box::new(TreeNode::new(7))), 3), (0, 7));
}
