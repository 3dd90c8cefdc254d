use vstd::prelude::*;

verus! {

pub open spec fn min_int(a: int, b: int) -> int {
    if a <= b {
        a
    } else {
        b
    }
}

pub open spec fn max_int(a: int, b: int) -> int {
    if a >= b {
        a
    } else {
        b
    }
}

/// `r` is the largest value that `f` takes on the positions `a..=b`, and `None`
/// exactly when there is no such position.
pub open spec fn is_max_over(f: spec_fn(int) -> int, a: int, b: int, r: Option<i32>) -> bool {
    match r {
        None => a > b,
        Some(m) => {
            &&& a <= b
            &&& exists|i: int| a <= i <= b && #[trigger] f(i) == m
            &&& forall|i: int| a <= i <= b ==> #[trigger] f(i) <= m
        },
    }
}

/// Applies a pending clamp to a value.
pub open spec fn clamp_opt(tag: Option<i32>, v: int) -> int {
    match tag {
        Some(t) => min_int(t as int, v),
        None => v,
    }
}

/// A node of the range-chmin / range-max tree, covering the closed positions `range`.
pub struct Node {
    range: (usize, usize),
    node_value: i32,
    lazy: Option<i32>,
    left: Option<Box<Node>>,
    right: Option<Box<Node>>,
}

fn min_i32(a: i32, b: i32) -> (r: i32)
    ensures
        r == min_int(a as int, b as int),
{
    if a <= b {
        a
    } else {
        b
    }
}

fn max_i32(a: i32, b: i32) -> (r: i32)
    ensures
        r == max_int(a as int, b as int),
{
    if a >= b {
        a
    } else {
        b
    }
}

/// Merges a new clamp into a pending tag: the tighter bound wins.
fn merge_tag(tag: Option<i32>, v: i32) -> (r: Option<i32>)
    ensures
        r is Some,
        forall|x: int| clamp_opt(r, x) == min_int(v as int, clamp_opt(tag, x)),
{
    match tag {
        Some(t) => Some(min_i32(t, v)),
        None => Some(v),
    }
}

/// The larger of two optional maxima, where a missing side is absent rather than zero.
pub open spec fn join_max(a: Option<i32>, b: Option<i32>) -> Option<i32> {
    match a {
        Some(x) => match b {
            Some(y) => Some(if x >= y { x } else { y }),
            None => Some(x),
        },
        None => b,
    }
}

fn join_max_exec(a: Option<i32>, b: Option<i32>) -> (r: Option<i32>)
    ensures
        r == join_max(a, b),
{
    match (a, b) {
        (Some(x), Some(y)) => Some(max_i32(x, y)),
        (Some(x), None) => Some(x),
        (None, Some(y)) => Some(y),
        (None, None) => None,
    }
}

proof fn lemma_max_transfer(f: spec_fn(int) -> int, g: spec_fn(int) -> int, a: int, b: int, r: Option<i32>)
    requires
        is_max_over(f, a, b, r),
        forall|i: int| a <= i <= b ==> #[trigger] f(i) == g(i),
    ensures
        is_max_over(g, a, b, r),
{
    if let Some(m) = r {
        let w = choose|i: int| a <= i <= b && #[trigger] f(i) == m;
        assert(g(w) == m);
        assert forall|i: int| a <= i <= b implies #[trigger] g(i) <= m by {
            assert(f(i) <= m);
        }
    }
}

proof fn lemma_max_join(f: spec_fn(int) -> int, a: int, m: int, b: int, r1: Option<i32>, r2: Option<i32>)
    requires
        a <= m + 1,
        m <= b,
        is_max_over(f, a, m, r1),
        is_max_over(f, m + 1, b, r2),
    ensures
        is_max_over(f, a, b, join_max(r1, r2)),
{
    if let Some(x) = r1 {
        let w = choose|i: int| a <= i <= m && #[trigger] f(i) == x;
        assert(f(w) == x);
    }
    if let Some(y) = r2 {
        let w = choose|i: int| m + 1 <= i <= b && #[trigger] f(i) == y;
        assert(f(w) == y);
    }
    if let Some(z) = join_max(r1, r2) {
        assert forall|i: int| a <= i <= b implies #[trigger] f(i) <= z by {
            if i <= m {
                assert(r1 is Some);
            } else {
                assert(r2 is Some);
            }
        }
    }
}

impl Node {
    pub closed spec fn lo(self) -> int {
        self.range.0 as int
    }

    pub closed spec fn hi(self) -> int {
        self.range.1 as int
    }

    pub closed spec fn mid(self) -> int {
        (self.range.0 as int + self.range.1 as int) / 2
    }

    /// The largest value in the node's range, with its own pending tag applied.
    pub closed spec fn top(self) -> int {
        clamp_opt(self.lazy, self.node_value as int)
    }

    /// The current value at position `i`, with every pending tag from this node down applied.
    pub closed spec fn eff(self, i: int) -> int
        decreases self,
    {
        let below = match self.left {
            Some(l) => match self.right {
                Some(r) => if i <= l.range.1 {
                    l.eff(i)
                } else {
                    r.eff(i)
                },
                None => self.node_value as int,
            },
            None => self.node_value as int,
        };
        clamp_opt(self.lazy, below)
    }

    pub closed spec fn wf(self) -> bool
        decreases self,
    {
        &&& self.range.0 <= self.range.1
        &&& if self.range.0 == self.range.1 {
            self.left is None && self.right is None
        } else {
            match self.left {
                Some(l) => match self.right {
                    Some(r) => {
                        &&& l.range.0 == self.range.0
                        &&& l.range.1 == self.mid()
                        &&& r.range.0 == self.mid() + 1
                        &&& r.range.1 == self.range.1
                        &&& l.wf()
                        &&& r.wf()
                        &&& self.node_value as int == max_int(l.top(), r.top())
                    },
                    None => false,
                },
                None => false,
            }
        }
    }

    /// The value kept at a well-formed node is the maximum of its range.
    proof fn lemma_top_is_max(self)
        requires
            self.wf(),
        ensures
            is_max_over(|i: int| self.eff(i), self.lo(), self.hi(), Some(self.top() as i32)),
            self.top() == self.top() as i32,
        decreases self,
    {
        let f = |i: int| self.eff(i);
        if self.range.0 == self.range.1 {
            assert(f(self.lo()) == self.top());
        } else {
            let l = *self.left.unwrap();
            let r = *self.right.unwrap();
            l.lemma_top_is_max();
            r.lemma_top_is_max();
            let fl = |i: int| l.eff(i);
            let fr = |i: int| r.eff(i);
            assert forall|i: int| self.lo() <= i <= self.hi() implies #[trigger] f(i) <= self.top() by {
                if i <= l.range.1 {
                    assert(fl(i) <= l.top());
                } else {
                    assert(fr(i) <= r.top());
                }
            }
            if l.top() >= r.top() {
                let w = choose|i: int| l.lo() <= i <= l.hi() && #[trigger] fl(i) == l.top();
                assert(f(w) == self.top());
            } else {
                let w = choose|i: int| r.lo() <= i <= r.hi() && #[trigger] fr(i) == r.top();
                assert(f(w) == self.top());
            }
        }
    }

    fn new(range: (usize, usize), max: i32) -> (r: Self)
        ensures
            r.range == range,
            r.node_value == max,
            r.lazy is None,
            r.left is None,
            r.right is None,
    {
        Self { range, node_value: max, lazy: None, left: None, right: None }
    }

    /// Builds the subtree over `range`, holding the array's values there.
    fn build(arr: &[i32], range: (usize, usize)) -> (r: Option<Box<Self>>)
        requires
            range.0 <= range.1 ==> range.1 < arr@.len(),
        ensures
            range.0 > range.1 ==> r is None,
            range.0 <= range.1 ==> r is Some && r.unwrap().wf() && r.unwrap().range == range
                && r.unwrap().lazy is None && forall|i: int|
                range.0 <= i <= range.1 ==> #[trigger] r.unwrap().eff(i) == arr@[i] as int,
        decreases range.1 - range.0,
    {
        if range.0 > range.1 {
            return None;
        }
        let mid = range.0 + (range.1 - range.0) / 2;
        let mut node = Self::new(range, arr[range.0]);
        if range.0 < range.1 {
            let left = Self::build(arr, (range.0, mid));
            let right = Self::build(arr, (mid + 1, range.1));
            let lv = left.as_ref().unwrap().node_value;
            let rv = right.as_ref().unwrap().node_value;
            node.node_value = max_i32(lv, rv);
            node.left = left;
            node.right = right;
            proof {
                assert(node.mid() == mid);
                let l = *left.unwrap();
                let r = *right.unwrap();
                assert forall|i: int| range.0 <= i <= range.1 implies #[trigger] node.eff(i)
                    == arr@[i] as int by {
                    if i <= mid {
                        assert(node.eff(i) == l.eff(i));
                    } else {
                        assert(node.eff(i) == r.eff(i));
                    }
                }
            }
        }
        Some(Box::new(node))
    }

    /// Adds a clamp to this node's pending tag.
    fn add_tag(&mut self, v: i32)
        requires
            old(self).wf(),
        ensures
            final(self).wf(),
            final(self).range == old(self).range,
            final(self).node_value == old(self).node_value,
            final(self).top() == min_int(v as int, old(self).top()),
            forall|i: int| #[trigger] final(self).eff(i) == min_int(v as int, old(self).eff(i)),
    {
        self.lazy = merge_tag(self.lazy, v);
    }

    /// Clamps this node's value and its children's tags to at most `v`; the node's own
    /// tag must already be clear.
    fn clamp_here(&mut self, v: i32)
        requires
            old(self).wf(),
            old(self).lazy is None,
        ensures
            final(self).wf(),
            final(self).range == old(self).range,
            final(self).lazy is None,
            final(self).top() == min_int(v as int, old(self).top()),
            forall|i: int| #[trigger] final(self).eff(i) == min_int(v as int, old(self).eff(i)),
    {
        let ghost s0 = *self;
        self.node_value = min_i32(self.node_value, v);
        if self.range.0 != self.range.1 {
            let mut l = self.left.take().unwrap();
            let mut r = self.right.take().unwrap();
            let ghost l0 = *l;
            let ghost r0 = *r;
            (&mut *l).add_tag(v);
            (&mut *r).add_tag(v);
            self.left = Some(l);
            self.right = Some(r);
            proof {
                assert forall|i: int| #[trigger] self.eff(i) == min_int(v as int, s0.eff(i)) by {
                    if i <= l0.range.1 {
                        assert(self.eff(i) == l.eff(i));
                        assert(s0.eff(i) == l0.eff(i));
                    } else {
                        assert(self.eff(i) == r.eff(i));
                        assert(s0.eff(i) == r0.eff(i));
                    }
                }
            }
        }
    }

    /// Applies the pending tag to this node and hands it on to the children.
    fn push_down(&mut self)
        requires
            old(self).wf(),
        ensures
            final(self).wf(),
            final(self).range == old(self).range,
            final(self).lazy is None,
            final(self).top() == old(self).top(),
            forall|i: int| #[trigger] final(self).eff(i) == old(self).eff(i),
    {
        if let Some(z) = self.lazy {
            self.lazy = None;
            self.clamp_here(z);
        }
    }

    /// Clamps every position of `range` down to at most `value`.
    fn update(&mut self, range: (usize, usize), value: i32)
        requires
            old(self).wf(),
        ensures
            final(self).wf(),
            final(self).range == old(self).range,
            final(self).lazy is None,
            forall|i: int|
                #![trigger final(self).eff(i)]
                old(self).lo() <= i <= old(self).hi() ==> final(self).eff(i) == if range.0 <= i
                    <= range.1 {
                    min_int(old(self).eff(i), value as int)
                } else {
                    old(self).eff(i)
                },
        decreases old(self).range.1 - old(self).range.0,
    {
        self.push_down();
        if self.range.0 > range.1 || self.range.1 < range.0 {
            return;
        }
        if self.range.0 >= range.0 && self.range.1 <= range.1 {
            self.clamp_here(value);
            return;
        }
        let ghost s0 = *self;
        let mut l = self.left.take().unwrap();
        let mut r = self.right.take().unwrap();
        let ghost l0 = *l;
        let ghost r0 = *r;
        (&mut *l).update(range, value);
        (&mut *r).update(range, value);
        self.node_value = max_i32(l.node_value, r.node_value);
        self.left = Some(l);
        self.right = Some(r);
        proof {
            assert forall|i: int| s0.lo() <= i <= s0.hi() implies #[trigger] self.eff(i) == if range.0
                <= i <= range.1 {
                min_int(s0.eff(i), value as int)
            } else {
                s0.eff(i)
            } by {
                if i <= l0.range.1 {
                    assert(self.eff(i) == l.eff(i));
                    assert(s0.eff(i) == l0.eff(i));
                } else {
                    assert(self.eff(i) == r.eff(i));
                    assert(s0.eff(i) == r0.eff(i));
                }
            }
        }
    }

    /// The largest value on the positions of `range`, or `None` when `range` misses the
    /// node's positions. Pending tags met on the way are handed down; the values stay.
    fn query(&mut self, range: (usize, usize)) -> (res: Option<i32>)
        requires
            old(self).wf(),
        ensures
            final(self).wf(),
            final(self).range == old(self).range,
            final(self).top() == old(self).top(),
            forall|i: int| #[trigger] final(self).eff(i) == old(self).eff(i),
            is_max_over(
                |i: int| old(self).eff(i),
                max_int(range.0 as int, old(self).lo()),
                min_int(range.1 as int, old(self).hi()),
                res,
            ),
        decreases old(self).range.1 - old(self).range.0,
    {
        let ghost s_in = *self;
        if self.range.0 > range.1 || self.range.1 < range.0 {
            return None;
        }
        self.push_down();
        let ghost f_in = |i: int| s_in.eff(i);
        let ghost f0 = |i: int| self.eff(i);
        if self.range.0 >= range.0 && self.range.1 <= range.1 {
            proof {
                self.lemma_top_is_max();
                lemma_max_transfer(f0, f_in, self.lo(), self.hi(), Some(self.node_value));
            }
            return Some(self.node_value);
        }
        let mid = self.range.0 + (self.range.1 - self.range.0) / 2;
        let ghost s0 = *self;
        let mut l = self.left.take().unwrap();
        let mut r = self.right.take().unwrap();
        let ghost l0 = *l;
        let ghost r0 = *r;
        let ghost fl = |i: int| l0.eff(i);
        let ghost fr = |i: int| r0.eff(i);
        proof {
            assert(s0.mid() == mid);
            assert forall|i: int| s0.lo() <= i <= mid implies fl(i) == #[trigger] f_in(i) by {
                assert(s0.eff(i) == l0.eff(i));
            }
            assert forall|i: int| mid < i <= s0.hi() implies fr(i) == #[trigger] f_in(i) by {
                assert(s0.eff(i) == r0.eff(i));
            }
        }
        let res = if range.1 <= mid {
            let x = (&mut *l).query(range);
            proof {
                lemma_max_transfer(fl, f_in, max_int(range.0 as int, l0.lo()), min_int(range.1 as int, l0.hi()), x);
            }
            x
        } else if range.0 > mid {
            let y = (&mut *r).query(range);
            proof {
                lemma_max_transfer(fr, f_in, max_int(range.0 as int, r0.lo()), min_int(range.1 as int, r0.hi()), y);
            }
            y
        } else {
            let x = (&mut *l).query((range.0, mid));
            let y = (&mut *r).query((mid + 1, range.1));
            proof {
                let a = max_int(range.0 as int, s0.lo());
                let b = min_int(range.1 as int, s0.hi());
                lemma_max_transfer(fl, f_in, a, mid as int, x);
                lemma_max_transfer(fr, f_in, mid + 1, b, y);
                lemma_max_join(f_in, a, mid as int, b, x, y);
            }
            join_max_exec(x, y)
        };
        self.left = Some(l);
        self.right = Some(r);
        proof {
            assert forall|i: int| #[trigger] self.eff(i) == s_in.eff(i) by {
                if i <= mid {
                    assert(self.eff(i) == l.eff(i));
                    assert(s0.eff(i) == l0.eff(i));
                } else {
                    assert(self.eff(i) == r.eff(i));
                    assert(s0.eff(i) == r0.eff(i));
                }
            }
        }
        res
    }
}

/// A range-chmin / range-max segment tree over the positions of a closed range.
pub struct SegmentTree {
    root: Option<Box<Node>>,
}

impl SegmentTree {
    /// The first position the tree covers.
    pub closed spec fn lo(self) -> int {
        match self.root {
            Some(n) => n.lo(),
            None => 0,
        }
    }

    /// The last position the tree covers; below `lo()` when the tree is empty.
    pub closed spec fn hi(self) -> int {
        match self.root {
            Some(n) => n.hi(),
            None => -1,
        }
    }

    /// The current value at position `i`, every clamp so far applied.
    pub closed spec fn value_at(self, i: int) -> int {
        match self.root {
            Some(n) => n.eff(i),
            None => 0,
        }
    }

    pub closed spec fn wf(self) -> bool {
        match self.root {
            Some(n) => n.wf(),
            None => true,
        }
    }

    /// `after` is `before` with every position of `range` clamped down to at most `value`.
    pub open spec fn updated(before: Self, after: Self, range: (usize, usize), value: i32) -> bool {
        &&& after.wf()
        &&& after.lo() == before.lo()
        &&& after.hi() == before.hi()
        &&& forall|i: int|
            #![trigger after.value_at(i)]
            before.lo() <= i <= before.hi() ==> after.value_at(i) == if range.0 <= i <= range.1 {
                min_int(before.value_at(i), value as int)
            } else {
                before.value_at(i)
            }
    }

    /// `res` is the maximum of `before` over `range`, and `after` holds the same values.
    pub open spec fn answered(before: Self, after: Self, range: (usize, usize), res: Option<i32>) -> bool {
        &&& after.wf()
        &&& after.lo() == before.lo()
        &&& after.hi() == before.hi()
        &&& forall|i: int| #[trigger] after.value_at(i) == before.value_at(i)
        &&& is_max_over(
            |i: int| before.value_at(i),
            max_int(range.0 as int, before.lo()),
            min_int(range.1 as int, before.hi()),
            res,
        )
    }

    /// Builds the tree over the positions of `range`, holding the values of `arr` there.
    /// An empty `range` (start after end) gives an empty tree.
    pub fn new(arr: &[i32], range: (usize, usize)) -> (r: Self)
        requires
            range.0 <= range.1 ==> range.1 < arr@.len(),
        ensures
            r.wf(),
            range.0 <= range.1 ==> r.lo() == range.0 && r.hi() == range.1,
            range.0 > range.1 ==> r.hi() < r.lo(),
            forall|i: int| r.lo() <= i <= r.hi() ==> #[trigger] r.value_at(i) == arr@[i] as int,
    {
        Self { root: Node::build(arr, range) }
    }

    /// The maximum value on the positions of `range`, or `None` when no position of
    /// `range` is covered.
    pub fn query(&mut self, range: (usize, usize)) -> (res: Option<i32>)
        requires
            old(self).wf(),
        ensures
            Self::answered(*old(self), *final(self), range, res),
    {
        match self.root.take() {
            Some(mut node) => {
                let ghost n0 = *node;
                let ghost t0 = Self { root: Some(Box::new(n0)) };
                let res = (&mut *node).query(range);
                self.root = Some(node);
                proof {
                    lemma_max_transfer(
                        |i: int| n0.eff(i),
                        |i: int| t0.value_at(i),
                        max_int(range.0 as int, n0.lo()),
                        min_int(range.1 as int, n0.hi()),
                        res,
                    );
                }
                res
            },
            None => None,
        }
    }

    /// Clamps every position of `range` down to at most `value`.
    pub fn update(&mut self, range: (usize, usize), value: i32)
        requires
            old(self).wf(),
            old(self).lo() <= range.0 <= range.1 <= old(self).hi(),
        ensures
            Self::updated(*old(self), *final(self), range, value),
    {
        match self.root.take() {
            Some(mut node) => {
                (&mut *node).update(range, value);
                self.root = Some(node);
            },
            None => {},
        }
    }
}

/// The values with every position of `a..=b` clamped down to at most `v`.
pub open spec fn chmin_range(s: Seq<int>, a: int, b: int, v: int) -> Seq<int> {
    Seq::new(
        s.len(),
        |i: int|
            if a <= i <= b {
                min_int(s[i], v)
            } else {
                s[i]
            },
    )
}

/// The values after each clamp of `ups`, one after another in order, applied position by
/// position.
pub open spec fn replay(s: Seq<int>, ups: Seq<((usize, usize), i32)>) -> Seq<int>
    decreases ups.len(),
{
    if ups.len() == 0 {
        s
    } else {
        let u = ups.last();
        chmin_range(replay(s, ups.drop_last()), u.0.0 as int, u.0.1 as int, u.1 as int)
    }
}

/// After the updates `ups`, in order, on a tree holding `a`, every position holds what
/// the same clamps leave in the array.
pub proof fn lemma_replay_values(a: Seq<i32>, ups: Seq<((usize, usize), i32)>, states: Seq<SegmentTree>)
    requires
        a.len() >= 1,
        states.len() == ups.len() + 1,
        states[0].lo() == 0,
        states[0].hi() == a.len() - 1,
        forall|i: int| 0 <= i < a.len() ==> #[trigger] states[0].value_at(i) == a[i] as int,
        forall|k: int|
            0 <= k < ups.len() ==> #[trigger] SegmentTree::updated(
                states[k],
                states[k + 1],
                ups[k].0,
                ups[k].1,
            ),
    ensures
        states.last().lo() == 0,
        states.last().hi() == a.len() - 1,
        replay(a.map_values(|x: i32| x as int), ups).len() == a.len(),
        forall|i: int|
            0 <= i < a.len() ==> #[trigger] states.last().value_at(i) == replay(
                a.map_values(|x: i32| x as int),
                ups,
            )[i],
    decreases ups.len(),
{
    let base = a.map_values(|x: i32| x as int);
    if ups.len() == 0 {
        assert forall|i: int| 0 <= i < a.len() implies #[trigger] states.last().value_at(i)
            == replay(base, ups)[i] by {
            assert(states.last() == states[0]);
            assert(replay(base, ups) == base);
            assert(base[i] == a[i] as int);
        }
    } else {
        let n = ups.len() - 1;
        let ups0 = ups.drop_last();
        let states0 = states.drop_last();
        assert forall|k: int| 0 <= k < ups0.len() implies #[trigger] SegmentTree::updated(
            states0[k],
            states0[k + 1],
            ups0[k].0,
            ups0[k].1,
        ) by {
            assert(SegmentTree::updated(states[k], states[k + 1], ups[k].0, ups[k].1));
        }
        assert(states0[0] == states[0]);
        lemma_replay_values(a, ups0, states0);
        assert(SegmentTree::updated(states[n], states[n + 1], ups[n].0, ups[n].1));
        assert(states0.last() == states[n]);
        assert forall|i: int| 0 <= i < a.len() implies #[trigger] states.last().value_at(i)
            == replay(base, ups)[i] by {
            assert(states0.last().value_at(i) == replay(base, ups0)[i]);
            assert(states.last() == states[n + 1]);
        }
    }
}

/// Replaying clamps on a tree built from `a` agrees with applying them to the array itself:
/// after the updates `ups`, in order, a query answers the maximum of the clamped array over
/// the query range.
pub proof fn lemma_replay_matches_brute_force(
    a: Seq<i32>,
    ups: Seq<((usize, usize), i32)>,
    states: Seq<SegmentTree>,
    range: (usize, usize),
    after: SegmentTree,
    res: Option<i32>,
)
    requires
        a.len() >= 1,
        states.len() == ups.len() + 1,
        states[0].lo() == 0,
        states[0].hi() == a.len() - 1,
        forall|i: int| 0 <= i < a.len() ==> #[trigger] states[0].value_at(i) == a[i] as int,
        forall|k: int|
            0 <= k < ups.len() ==> #[trigger] SegmentTree::updated(
                states[k],
                states[k + 1],
                ups[k].0,
                ups[k].1,
            ),
        SegmentTree::answered(states.last(), after, range, res),
    ensures
        is_max_over(
            |i: int| replay(a.map_values(|x: i32| x as int), ups)[i],
            max_int(range.0 as int, 0),
            min_int(range.1 as int, a.len() - 1),
            res,
        ),
{
    let base = a.map_values(|x: i32| x as int);
    lemma_replay_values(a, ups, states);
    let last = states.last();
    lemma_max_transfer(
        |i: int| last.value_at(i),
        |i: int| replay(base, ups)[i],
        max_int(range.0 as int, 0),
        min_int(range.1 as int, a.len() - 1),
        res,
    );
}

/// A query leaves the values as they were, so asking the same query twice in a row gives
/// the same answer.
pub proof fn lemma_query_twice(
    t0: SegmentTree,
    t1: SegmentTree,
    t2: SegmentTree,
    range: (usize, usize),
    r1: Option<i32>,
    r2: Option<i32>,
)
    requires
        SegmentTree::answered(t0, t1, range, r1),
        SegmentTree::answered(t1, t2, range, r2),
    ensures
        r1 == r2,
        forall|i: int| #[trigger] t2.value_at(i) == t0.value_at(i),
{
    let a = max_int(range.0 as int, t0.lo());
    let b = min_int(range.1 as int, t0.hi());
    lemma_max_transfer(|i: int| t1.value_at(i), |i: int| t0.value_at(i), a, b, r2);
    lemma_max_unique(|i: int| t0.value_at(i), a, b, r1, r2);
}

proof fn lemma_max_unique(f: spec_fn(int) -> int, a: int, b: int, r1: Option<i32>, r2: Option<i32>)
    requires
        is_max_over(f, a, b, r1),
        is_max_over(f, a, b, r2),
    ensures
        r1 == r2,
{
    if let Some(x) = r1 {
        if let Some(y) = r2 {
            let w1 = choose|i: int| a <= i <= b && #[trigger] f(i) == x;
            let w2 = choose|i: int| a <= i <= b && #[trigger] f(i) == y;
            assert(f(w1) <= y);
            assert(f(w2) <= x);
        }
    }
}

} // verus!
