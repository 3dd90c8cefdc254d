use vstd::prelude::*;

verus! {

/// A node as seen from outside: its key and the ids of its children.
pub type NodeView = (u32, Option<usize>, Option<usize>);

/// A node of an arena tree: a key and the ids of its children.
pub struct Node {
    key: u32,
    id_left: Option<usize>,
    id_right: Option<usize>,
}

impl Node {
    fn new(key: u32) -> (r: Self)
        ensures
            r.key == key,
            r.id_left is None,
            r.id_right is None,
    {
        Self { key, id_left: None, id_right: None }
    }
}

/// The id that `c` names, or -1 for none.
pub open spec fn id_of(c: Option<usize>) -> int {
    match c {
        Some(x) => x as int,
        None => -1,
    }
}

/// How far `c` lies from the end of the arena; zero for no node.
pub open spec fn depth_left(v: Seq<NodeView>, c: Option<usize>) -> int {
    match c {
        Some(x) => v.len() - x,
        None => 0,
    }
}

/// `c` names a node of the arena that comes after node `id`.
pub open spec fn later(v: Seq<NodeView>, id: int, c: Option<usize>) -> bool {
    id < id_of(c) < v.len()
}

/// Every child comes after its parent in the arena, which makes it a forest.
pub open spec fn arena_ok(v: Seq<NodeView>) -> bool {
    &&& v.len() >= 1
    &&& forall|i: int|
        0 <= i < v.len() ==> (#[trigger] v[i]).1 is Some ==> later(v, i, v[i].1)
    &&& forall|i: int| 0 <= i < v.len() ==> (#[trigger] v[i]).2 is Some ==> later(v, i, v[i].2)
}

/// The sum of the keys in the subtree rooted at node `id`.
pub open spec fn subtree_sum(v: Seq<NodeView>, id: int) -> int
    decreases v.len() - id,
{
    if 0 <= id < v.len() {
        let l = if later(v, id, v[id].1) {
            subtree_sum(v, id_of(v[id].1))
        } else {
            0
        };
        let r = if later(v, id, v[id].2) {
            subtree_sum(v, id_of(v[id].2))
        } else {
            0
        };
        l + r + v[id].0
    } else {
        0
    }
}

/// Every key of the subtree rooted at node `id` lies in `(min, max]`, its left subtree's
/// keys up to the node's key, its right subtree's above it.
pub open spec fn bst_within(v: Seq<NodeView>, id: int, min: int, max: int) -> bool
    decreases v.len() - id,
{
    if 0 <= id < v.len() {
        let k = v[id].0 as int;
        &&& min < k <= max
        &&& later(v, id, v[id].1) ==> bst_within(v, id_of(v[id].1), min, k)
        &&& later(v, id, v[id].2) ==> bst_within(v, id_of(v[id].2), k, max)
    } else {
        true
    }
}

/// The largest sum of keys along a downward path that starts at node `id`.
pub open spec fn down_sum(v: Seq<NodeView>, id: int) -> int
    decreases v.len() - id,
{
    if 0 <= id < v.len() {
        let l = if later(v, id, v[id].1) {
            down_sum(v, id_of(v[id].1))
        } else {
            0
        };
        let r = if later(v, id, v[id].2) {
            down_sum(v, id_of(v[id].2))
        } else {
            0
        };
        v[id].0 + if l >= r {
            l
        } else {
            r
        }
    } else {
        0
    }
}

/// The largest sum of keys along a path that bends at most once, inside the subtree
/// rooted at node `id`.
pub open spec fn best_path(v: Seq<NodeView>, id: int) -> int
    decreases v.len() - id,
{
    if 0 <= id < v.len() {
        let (dl, bl) = if later(v, id, v[id].1) {
            (down_sum(v, id_of(v[id].1)), best_path(v, id_of(v[id].1)))
        } else {
            (0, 0)
        };
        let (dr, br) = if later(v, id, v[id].2) {
            (down_sum(v, id_of(v[id].2)), best_path(v, id_of(v[id].2)))
        } else {
            (0, 0)
        };
        let through = v[id].0 + dl + dr;
        let m = if bl >= br {
            bl
        } else {
            br
        };
        if m >= through {
            m
        } else {
            through
        }
    } else {
        0
    }
}

/// Path sums never exceed the sum of the whole subtree.
pub proof fn lemma_paths_within_sum(v: Seq<NodeView>, id: int)
    ensures
        0 <= down_sum(v, id) <= subtree_sum(v, id),
        0 <= best_path(v, id) <= subtree_sum(v, id),
    decreases v.len() - id,
{
    if 0 <= id < v.len() {
        if later(v, id, v[id].1) {
            lemma_paths_within_sum(v, id_of(v[id].1));
        }
        if later(v, id, v[id].2) {
            lemma_paths_within_sum(v, id_of(v[id].2));
        }
    }
}

/// A binary tree whose nodes live in one vector, the root at id 0.
pub struct Tree {
    nodes: Vec<Node>,
}

impl Tree {
    /// The nodes in arena order, each as its key and its children's ids.
    pub closed spec fn view(&self) -> Seq<NodeView> {
        self.nodes@.map_values(|n: Node| (n.key, n.id_left, n.id_right))
    }

    /// A tree with a single node, the root, holding `key`.
    pub fn with_root(key: u32) -> (r: Self)
        ensures
            r@ == seq![(key, None::<usize>, None::<usize>)],
            arena_ok(r@),
    {
        let r = Self { nodes: vec![Node::new(key)] };
        proof {
            assert(r@ =~= seq![(key, None::<usize>, None::<usize>)]);
        }
        r
    }

    /// Adds a child holding `key` to node `parent_id`, on the left when `is_left`, and
    /// returns the new node's id.
    pub fn add_node(&mut self, parent_id: usize, key: u32, is_left: bool) -> (r: usize)
        requires
            arena_ok(old(self)@),
            parent_id < old(self)@.len(),
            old(self)@.len() < usize::MAX,
            is_left ==> old(self)@[parent_id as int].1 is None,
            !is_left ==> old(self)@[parent_id as int].2 is None,
        ensures
            r == old(self)@.len(),
            arena_ok(final(self)@),
            final(self)@ == old(self)@.update(
                parent_id as int,
                if is_left {
                    (old(self)@[parent_id as int].0, Some(r), old(self)@[parent_id as int].2)
                } else {
                    (old(self)@[parent_id as int].0, old(self)@[parent_id as int].1, Some(r))
                },
            ).push((key, None, None)),
    {
        let child_id = self.nodes.len();
        self.nodes.push(Node::new(key));
        let p = &self.nodes[parent_id];
        let updated = if is_left {
            Node { key: p.key, id_left: Some(child_id), id_right: p.id_right }
        } else {
            Node { key: p.key, id_left: p.id_left, id_right: Some(child_id) }
        };
        self.nodes.set(parent_id, updated);
        proof {
            let ov = old(self)@;
            let nv = self@;
            assert(nv =~= ov.update(
                parent_id as int,
                if is_left {
                    (ov[parent_id as int].0, Some(child_id), ov[parent_id as int].2)
                } else {
                    (ov[parent_id as int].0, ov[parent_id as int].1, Some(child_id))
                },
            ).push((key, None, None)));
        }
        child_id
    }

    /// The sum of all the keys in the tree.
    pub fn sum(&self) -> (r: u32)
        requires
            arena_ok(self@),
            subtree_sum(self@, 0) <= u32::MAX,
        ensures
            r == subtree_sum(self@, 0),
    {
        self.rec_sum(Some(0))
    }

    fn rec_sum(&self, node_id: Option<usize>) -> (r: u32)
        requires
            arena_ok(self@),
            id_of(node_id) < self@.len(),
            subtree_sum(self@, id_of(node_id)) <= u32::MAX,
        ensures
            r == subtree_sum(self@, id_of(node_id)),
        decreases depth_left(self@, node_id),
    {
        if let Some(id) = node_id {
            let node = &self.nodes[id];
            proof {
                assert(self@[id as int] == (node.key, node.id_left, node.id_right));
                lemma_paths_within_sum(self@, id_of(node.id_left));
                lemma_paths_within_sum(self@, id_of(node.id_right));
            }
            let sum_left = self.rec_sum(node.id_left);
            let sum_right = self.rec_sum(node.id_right);
            return sum_left + sum_right + node.key;
        }
        0
    }

    /// Whether the tree is a binary search tree: the keys of a node's left subtree are at
    /// most its key, those of its right subtree above it, and every key is positive.
    pub fn is_bst(&self) -> (r: bool)
        requires
            arena_ok(self@),
        ensures
            r == bst_within(self@, 0, 0, u32::MAX as int),
    {
        self.rec_is_bst(Some(0), u32::MIN, u32::MAX)
    }

    fn rec_is_bst(&self, node_id: Option<usize>, min: u32, max: u32) -> (r: bool)
        requires
            arena_ok(self@),
            id_of(node_id) < self@.len(),
        ensures
            r == bst_within(self@, id_of(node_id), min as int, max as int),
        decreases depth_left(self@, node_id),
    {
        if let Some(id) = node_id {
            let node = &self.nodes[id];
            proof {
                assert(self@[id as int] == (node.key, node.id_left, node.id_right));
            }
            if !(node.key > min && node.key <= max) {
                return false;
            }
            return self.rec_is_bst(node.id_left, min, node.key) && self.rec_is_bst(
                node.id_right,
                node.key,
                max,
            );
        }
        true
    }

    /// The largest sum of keys along a path of the tree that goes up and then down, at
    /// most once bending.
    pub fn max_path_sum(&self) -> (r: u32)
        requires
            arena_ok(self@),
            subtree_sum(self@, 0) <= u32::MAX,
        ensures
            r == best_path(self@, 0),
    {
        let (_, sum) = self.rec_max_path_sum(Some(0));
        sum
    }

    fn rec_max_path_sum(&self, node_id: Option<usize>) -> (r: (u32, u32))
        requires
            arena_ok(self@),
            id_of(node_id) < self@.len(),
            subtree_sum(self@, id_of(node_id)) <= u32::MAX,
        ensures
            r.0 == down_sum(self@, id_of(node_id)),
            r.1 == best_path(self@, id_of(node_id)),
        decreases depth_left(self@, node_id),
    {
        if let Some(id) = node_id {
            let node = &self.nodes[id];
            proof {
                assert(self@[id as int] == (node.key, node.id_left, node.id_right));
                lemma_paths_within_sum(self@, id_of(node.id_left));
                lemma_paths_within_sum(self@, id_of(node.id_right));
            }
            let (max_left, best_left) = self.rec_max_path_sum(node.id_left);
            let (max_right, best_right) = self.rec_max_path_sum(node.id_right);
            let max_node = node.key + if max_left >= max_right {
                max_left
            } else {
                max_right
            };
            let current_path = node.key + max_left + max_right;
            let best_sub = if best_left >= best_right {
                best_left
            } else {
                best_right
            };
            let best_node = if best_sub >= current_path {
                best_sub
            } else {
                current_path
            };
            return (max_node, best_node);
        }
        (0, 0)
    }
}

} // verus!
