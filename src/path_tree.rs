use vstd::prelude::*;

verus! {

/// A node of a binary tree of signed values.
pub struct TreeNode {
    pub value: i32,
    pub left: Option<Box<TreeNode>>,
    pub right: Option<Box<TreeNode>>,
}

impl TreeNode {
    /// A leaf holding `value`.
    pub fn new(value: i32) -> (r: TreeNode)
        ensures
            r.value == value,
            r.left is None,
            r.right is None,
    {
        TreeNode { value, left: None, right: None }
    }
}

/// The sum of the values in the tree `t`.
pub open spec fn tree_sum(t: Option<Box<TreeNode>>) -> int
    decreases t,
{
    match t {
        Some(n) => tree_sum(n.left) + tree_sum(n.right) + n.value,
        None => 0,
    }
}

/// How many nodes of `t` have children whose sums add up to the sum of the values on the
/// path above the node, `path` being the sum above `t`'s root.
pub open spec fn balanced_count(t: Option<Box<TreeNode>>, path: int) -> int
    decreases t,
{
    match t {
        Some(n) => balanced_count(n.left, path + n.value) + balanced_count(n.right, path + n.value)
            + if tree_sum(n.left) + tree_sum(n.right) == path {
            1int
        } else {
            0int
        },
        None => 0,
    }
}

pub open spec fn in_i32(x: int) -> bool {
    i32::MIN <= x <= i32::MAX
}

/// Every path sum, subtree sum and count met while walking `t` fits in an `i32`.
pub open spec fn sums_fit(t: Option<Box<TreeNode>>, path: int) -> bool
    decreases t,
{
    match t {
        Some(n) => {
            &&& in_i32(path + n.value)
            &&& in_i32(tree_sum(n.left) + tree_sum(n.right))
            &&& in_i32(tree_sum(n.left) + tree_sum(n.right) + n.value)
            &&& balanced_count(t, path) <= i32::MAX
            &&& sums_fit(n.left, path + n.value)
            &&& sums_fit(n.right, path + n.value)
        },
        None => true,
    }
}

proof fn lemma_count_nonneg(t: Option<Box<TreeNode>>, path: int)
    ensures
        balanced_count(t, path) >= 0,
    decreases t,
{
    if let Some(n) = t {
        lemma_count_nonneg(n.left, path + n.value);
        lemma_count_nonneg(n.right, path + n.value);
    }
}

/// Returns how many nodes of the tree have children whose sums add up to the sum of the
/// values on the path above them (`current_path_sum` above the root), and the sum of the
/// tree's values.
pub fn count_nodes(node: &Option<Box<TreeNode>>, current_path_sum: i32) -> (r: (i32, i32))
    requires
        sums_fit(*node, current_path_sum as int),
    ensures
        r.0 == balanced_count(*node, current_path_sum as int),
        r.1 == tree_sum(*node),
    decreases *node,
{
    if let Some(n) = node {
        proof {
            lemma_count_nonneg(n.left, current_path_sum + n.value);
            lemma_count_nonneg(n.right, current_path_sum + n.value);
        }
        let left_result = count_nodes(&n.left, current_path_sum + n.value);
        let right_result = count_nodes(&n.right, current_path_sum + n.value);
        let mut count = left_result.0 + right_result.0;
        if left_result.1 + right_result.1 == current_path_sum {
            count += 1;
        }
        let sum = left_result.1 + right_result.1 + n.value;
        return (count, sum);
    }
    (0, 0)
}

} // verus!
