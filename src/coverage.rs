use vstd::prelude::*;

verus! {

/// How many of `segs` contain position `p`.
pub open spec fn coverage(segs: Seq<(usize, usize)>, p: int) -> int
    decreases segs.len(),
{
    if segs.len() == 0 {
        0
    } else {
        coverage(segs.drop_last(), p) + if segs.last().0 <= p <= segs.last().1 {
            1int
        } else {
            0int
        }
    }
}

/// A position is covered by between none and all of the segments.
pub proof fn lemma_coverage_bounds(segs: Seq<(usize, usize)>, p: int)
    ensures
        0 <= coverage(segs, p) <= segs.len(),
    decreases segs.len(),
{
    if segs.len() > 0 {
        lemma_coverage_bounds(segs.drop_last(), p);
    }
}

/// Taking one segment out of the list lowers the coverage of the positions it contains by one.
pub proof fn lemma_coverage_remove(segs: Seq<(usize, usize)>, j: int, p: int)
    requires
        0 <= j < segs.len(),
    ensures
        coverage(segs, p) == coverage(segs.remove(j), p) + if segs[j].0 <= p <= segs[j].1 {
            1int
        } else {
            0int
        },
    decreases segs.len(),
{
    if j == segs.len() - 1 {
        assert(segs.remove(j) =~= segs.drop_last());
    } else {
        lemma_coverage_remove(segs.drop_last(), j, p);
        assert(segs.remove(j).drop_last() =~= segs.drop_last().remove(j));
        assert(segs.remove(j).last() == segs.last());
    }
}

/// Coverage does not depend on the order in which the segments are added: two lists that
/// hold the same segments, each as often, give every position the same coverage.
pub proof fn lemma_coverage_order_independent(s1: Seq<(usize, usize)>, s2: Seq<(usize, usize)>, p: int)
    requires
        s1.to_multiset() == s2.to_multiset(),
    ensures
        coverage(s1, p) == coverage(s2, p),
    decreases s1.len(),
{
    broadcast use vstd::seq_lib::group_to_multiset_ensures;

    if s1.len() == 0 {
        assert(s2.to_multiset().len() == 0);
        assert(s2.len() == 0);
    } else {
        let x = s1.last();
        let rest = s1.drop_last();
        assert(rest.push(x) =~= s1);
        assert(s1.to_multiset().count(x) > 0);
        assert(s2.contains(x));
        let j = choose|j: int| 0 <= j < s2.len() && s2[j] == x;
        assert(s2.remove(j).to_multiset() == s2.to_multiset().remove(x));
        assert(rest.to_multiset() =~= s1.to_multiset().remove(x));
        lemma_coverage_order_independent(rest, s2.remove(j), p);
        lemma_coverage_remove(s2, j, p);
    }
}

/// A coverage count as the tree keeps it: counts past `k` are dropped (-1).
pub open spec fn capped(c: int, k: int) -> int {
    if c <= k {
        c
    } else {
        -1
    }
}

/// Some position of `a..=b` has coverage exactly `k`.
pub open spec fn has_level(segs: Seq<(usize, usize)>, a: int, b: int, k: int) -> bool {
    exists|p: int| a <= p <= b && #[trigger] coverage(segs, p) == k
}

/// How many positions `p` of `a..b` have `f(p) == c`.
pub open spec fn num_at(f: spec_fn(int) -> int, c: int, a: int, b: int) -> int
    decreases b - a,
{
    if a >= b {
        0
    } else {
        num_at(f, c, a, b - 1) + if f(b - 1) == c {
            1int
        } else {
            0int
        }
    }
}

/// Raising every value by `d` moves the positions at level `c` to level `c + d`.
pub proof fn lemma_num_shift(f: spec_fn(int) -> int, g: spec_fn(int) -> int, c: int, d: int, a: int, b: int)
    requires
        forall|p: int| a <= p < b ==> #[trigger] g(p) == f(p) + d,
    ensures
        num_at(g, c + d, a, b) == num_at(f, c, a, b),
    decreases b - a,
{
    if a < b {
        lemma_num_shift(f, g, c, d, a, b - 1);
        assert(g(b - 1) == f(b - 1) + d);
    }
}

/// Counting over `a..b` is counting over `a..m` and over `m..b`.
pub proof fn lemma_num_split(f: spec_fn(int) -> int, c: int, a: int, m: int, b: int)
    requires
        a <= m <= b,
    ensures
        num_at(f, c, a, b) == num_at(f, c, a, m) + num_at(f, c, m, b),
    decreases b - m,
{
    if m < b {
        lemma_num_split(f, c, a, m, b - 1);
    }
}

/// Some position is counted exactly when some position takes the value.
pub proof fn lemma_num_presence(f: spec_fn(int) -> int, c: int, a: int, b: int)
    ensures
        0 <= num_at(f, c, a, b),
        a <= b ==> num_at(f, c, a, b) <= b - a,
        num_at(f, c, a, b) > 0 <==> exists|p: int| a <= p < b && #[trigger] f(p) == c,
    decreases b - a,
{
    if a < b {
        lemma_num_presence(f, c, a, b - 1);
        if exists|p: int| a <= p < b && #[trigger] f(p) == c {
            let w = choose|p: int| a <= p < b && #[trigger] f(p) == c;
            if w < b - 1 {
                assert(a <= w < b - 1 && f(w) == c);
            }
        }
        if exists|p: int| a <= p < b - 1 && #[trigger] f(p) == c {
            let w = choose|p: int| a <= p < b - 1 && #[trigger] f(p) == c;
            assert(a <= w < b && f(w) == c);
        }
    }
}

/// The sum of the counts of the levels `0..k`.
pub open spec fn counted_below(f: spec_fn(int) -> int, k: int, a: int, b: int) -> int
    decreases k,
{
    if k <= 0 {
        0
    } else {
        counted_below(f, k - 1, a, b) + num_at(f, k - 1, a, b)
    }
}

/// How many positions `p` of `a..b` have `0 <= f(p) < k`.
pub open spec fn num_in(f: spec_fn(int) -> int, k: int, a: int, b: int) -> int
    decreases b - a,
{
    if a >= b {
        0
    } else {
        num_in(f, k, a, b - 1) + if 0 <= f(b - 1) < k {
            1int
        } else {
            0int
        }
    }
}

/// Adding up the counts of the levels `0..k` counts the positions whose level lies there.
pub proof fn lemma_counted_below(f: spec_fn(int) -> int, k: int, a: int, b: int)
    requires
        k >= 0,
    ensures
        counted_below(f, k, a, b) == num_in(f, k, a, b),
    decreases b - a, k,
{
    if a < b {
        lemma_counted_below(f, k, a, b - 1);
        lemma_counted_step(f, k, a, b);
    } else {
        lemma_counted_empty(f, k, a, b);
    }
}

proof fn lemma_counted_empty(f: spec_fn(int) -> int, k: int, a: int, b: int)
    requires
        a >= b,
        k >= 0,
    ensures
        counted_below(f, k, a, b) == 0,
    decreases k,
{
    if k > 0 {
        lemma_counted_empty(f, k - 1, a, b);
    }
}

proof fn lemma_counted_step(f: spec_fn(int) -> int, k: int, a: int, b: int)
    requires
        a < b,
        k >= 0,
    ensures
        counted_below(f, k, a, b) == counted_below(f, k, a, b - 1) + if 0 <= f(b - 1) < k {
            1int
        } else {
            0int
        },
    decreases k,
{
    if k > 0 {
        lemma_counted_step(f, k - 1, a, b);
    }
}

/// When every value lies in `0..k`, every position is counted.
pub proof fn lemma_num_in_all(f: spec_fn(int) -> int, k: int, a: int, b: int)
    requires
        a <= b,
        forall|p: int| a <= p < b ==> 0 <= #[trigger] f(p) < k,
    ensures
        num_in(f, k, a, b) == b - a,
    decreases b - a,
{
    if a < b {
        lemma_num_in_all(f, k, a, b - 1);
        assert(0 <= f(b - 1) < k);
    }
}

/// A position's level after adding `d` to it: a level that would leave `0..=k`, or one
/// already dropped (below zero), is dropped (-1).
pub open spec fn add_level(l: int, d: int, k: int) -> int {
    if l < 0 || l + d < 0 || l + d > k {
        -1
    } else {
        l + d
    }
}

/// A pending run of deltas: their sum, and the lowest and highest of their running sums
/// (counting the empty run as zero).
#[derive(Clone, Copy)]
struct Tag {
    shift: i64,
    low: i64,
    high: i64,
}

/// A level `l` (or -1 for dropped) after the run of deltas `t`, within `0..=k`.
spec fn apply_tag(t: Tag, l: int, k: int) -> int {
    if l < 0 || l + t.low < 0 || l + t.high > k {
        -1
    } else {
        l + t.shift
    }
}

spec fn tag_ok(t: Tag, k: int) -> bool {
    &&& t.low <= 0 <= t.high
    &&& t.low <= t.shift <= t.high
    &&& -(k + 1) <= t.low
    &&& t.high <= k + 1
}

spec fn is_identity(t: Tag) -> bool {
    t.shift == 0 && t.low == 0 && t.high == 0
}

/// `t` followed by `u`, a run whose spread passes `k` collapsed into one that drops all.
spec fn compose(t: Tag, u: Tag, k: int) -> Tag {
    let shift = t.shift + u.shift;
    let low: int = if t.low <= t.shift + u.low { t.low as int } else { t.shift + u.low };
    let high: int = if t.high >= t.shift + u.high { t.high as int } else { t.shift + u.high };
    if high - low > k {
        Tag { shift: 0, low: -(k + 1) as i64, high: 0 }
    } else {
        Tag { shift: shift as i64, low: low as i64, high: high as i64 }
    }
}

proof fn lemma_compose(t: Tag, u: Tag, k: int, l: int)
    requires
        0 <= k < i32::MAX,
        tag_ok(t, k),
        tag_ok(u, k),
        -1 <= l <= k,
    ensures
        tag_ok(compose(t, u, k), k),
        apply_tag(compose(t, u, k), l, k) == apply_tag(u, apply_tag(t, l, k), k),
{
    let low: int = if t.low <= t.shift + u.low { t.low as int } else { t.shift + u.low };
    let high: int = if t.high >= t.shift + u.high { t.high as int } else { t.shift + u.high };
    let r = compose(t, u, k);
    if high - low > k {
        assert(r.low == -(k + 1));
        assert(r.shift == 0 && r.high == 0);
        assert(apply_tag(r, l, k) == -1);
    } else {
        assert(r.low == low && r.high == high && r.shift == t.shift + u.shift);
    }
}

proof fn lemma_apply_range(t: Tag, l: int, k: int)
    requires
        tag_ok(t, k),
        -1 <= l <= k,
    ensures
        -1 <= apply_tag(t, l, k) <= k,
        is_identity(t) ==> apply_tag(t, l, k) == l,
{
}

fn identity_tag() -> (t: Tag)
    ensures
        is_identity(t),
{
    Tag { shift: 0, low: 0, high: 0 }
}

fn compose_exec(t: Tag, u: Tag, k: usize) -> (r: Tag)
    requires
        k < i32::MAX,
        tag_ok(t, k as int),
        tag_ok(u, k as int),
    ensures
        r == compose(t, u, k as int),
{
    let shift = t.shift + u.shift;
    let low = if t.low <= t.shift + u.low { t.low } else { t.shift + u.low };
    let high = if t.high >= t.shift + u.high { t.high } else { t.shift + u.high };
    if high - low > k as i64 {
        Tag { shift: 0, low: -(k as i64 + 1), high: 0 }
    } else {
        Tag { shift, low, high }
    }
}

/// The run made of the single delta `d`.
fn single_tag(d: i32, k: usize) -> (r: Tag)
    requires
        k < i32::MAX,
    ensures
        tag_ok(r, k as int),
        forall|l: int| -1 <= l <= k ==> #[trigger] apply_tag(r, l, k as int) == add_level(l, d as int, k as int),
{
    let low: i64 = if d < 0 { d as i64 } else { 0 };
    let high: i64 = if d > 0 { d as i64 } else { 0 };
    if high - low > k as i64 {
        Tag { shift: 0, low: -(k as i64 + 1), high: 0 }
    } else {
        Tag { shift: d as i64, low, high }
    }
}

/// Where the level `c` goes under `t`: the positions at level `c2` after `t` are those at
/// level `c2 - t.shift` before it, if that level survives `t`.
spec fn survives(t: Tag, c: int, k: int) -> bool {
    0 <= c && c + t.low >= 0 && c + t.high <= k
}

proof fn lemma_num_apply(f: spec_fn(int) -> int, g: spec_fn(int) -> int, t: Tag, k: int, c: int, a: int, b: int)
    requires
        tag_ok(t, k),
        0 <= c <= k,
        forall|p: int| a <= p < b ==> -1 <= #[trigger] f(p) <= k,
        forall|p: int| a <= p < b ==> #[trigger] g(p) == apply_tag(t, f(p), k),
    ensures
        num_at(g, c, a, b) == if survives(t, c - t.shift, k) {
            num_at(f, c - t.shift, a, b)
        } else {
            0
        },
    decreases b - a,
{
    if a < b {
        lemma_num_apply(f, g, t, k, c, a, b - 1);
        assert(-1 <= f(b - 1) <= k);
        assert(g(b - 1) == apply_tag(t, f(b - 1), k));
    }
}

/// Two signed adds to a position commute whenever the position survives both orders: a
/// drop is the only thing that can tell the orders apart.
pub proof fn lemma_adds_commute(l: int, d1: int, d2: int, k: int)
    requires
        -1 <= l <= k,
        add_level(add_level(l, d1, k), d2, k) >= 0,
        add_level(add_level(l, d2, k), d1, k) >= 0,
    ensures
        add_level(add_level(l, d1, k), d2, k) == add_level(add_level(l, d2, k), d1, k),
        add_level(add_level(l, d1, k), d2, k) == l + d1 + d2,
{
}

/// Once dropped, a position stays dropped whatever is added to it.
pub proof fn lemma_dropped_stays(d: int, k: int)
    ensures
        add_level(-1, d, k) == -1,
{
}

/// A node of the coverage-count tree over the closed positions `range`. `counts[c]` tells
/// how many positions of the range sit at coverage level `c`, for `c` up to the largest
/// level kept, before the node's own pending run of deltas `tag` is applied. A position
/// whose level left `0..=max_k` is dropped and sits in no slot.
pub struct NodeSegments {
    range: (usize, usize),
    counts: Vec<usize>,
    tag: Tag,
    left: Option<Box<NodeSegments>>,
    right: Option<Box<NodeSegments>>,
    base: Ghost<int>,
}

impl NodeSegments {
    pub closed spec fn lo(self) -> int {
        self.range.0 as int
    }

    pub closed spec fn hi(self) -> int {
        self.range.1 as int
    }

    pub closed spec fn mid(self) -> int {
        (self.range.0 as int + self.range.1 as int) / 2
    }

    /// The largest coverage level the node keeps count of.
    pub closed spec fn max_k(self) -> int {
        self.counts@.len() - 1
    }

    /// The level of position `p` (-1 once dropped) without this node's own pending deltas.
    pub closed spec fn below(self, p: int) -> int
        decreases self,
    {
        match self.left {
            Some(l) => match self.right {
                Some(r) => if p <= l.range.1 {
                    apply_tag(l.tag, l.below(p), l.max_k())
                } else {
                    apply_tag(r.tag, r.below(p), r.max_k())
                },
                None => self.base@,
            },
            None => self.base@,
        }
    }

    /// The levels of the positions, without this node's own pending deltas.
    pub closed spec fn levels(self) -> spec_fn(int) -> int {
        |p: int| self.below(p)
    }

    /// The coverage level of position `p` (-1 once dropped), every delta that reached this
    /// node applied.
    pub closed spec fn level(self, p: int) -> int {
        apply_tag(self.tag, self.below(p), self.max_k())
    }

    /// No delta is pending at this node.
    pub closed spec fn is_settled(self) -> bool {
        is_identity(self.tag)
    }

    pub closed spec fn wf(self) -> bool
        decreases self,
    {
        &&& self.range.0 <= self.range.1 < usize::MAX
        &&& self.counts@.len() >= 1
        &&& self.max_k() < i32::MAX
        &&& tag_ok(self.tag, self.max_k())
        &&& forall|c: int|
            0 <= c < self.counts@.len() ==> #[trigger] self.counts@[c] == num_at(
                self.levels(),
                c,
                self.lo(),
                self.hi() + 1,
            )
        &&& if self.range.0 == self.range.1 {
            self.left is None && self.right is None && -1 <= self.base@ <= self.max_k()
        } else {
            match self.left {
                Some(l) => match self.right {
                    Some(r) => {
                        &&& l.range.0 == self.range.0
                        &&& l.range.1 == self.mid()
                        &&& r.range.0 == self.mid() + 1
                        &&& r.range.1 == self.range.1
                        &&& l.counts@.len() == self.counts@.len()
                        &&& r.counts@.len() == self.counts@.len()
                        &&& l.wf()
                        &&& r.wf()
                    },
                    None => false,
                },
                None => false,
            }
        }
    }

    /// Levels stay in `0..=max_k`, or are -1 once dropped.
    proof fn lemma_below_range(self)
        requires
            self.wf(),
        ensures
            forall|p: int| self.lo() <= p <= self.hi() ==> -1 <= #[trigger] self.below(p) <= self.max_k(),
            forall|p: int| self.lo() <= p <= self.hi() ==> -1 <= #[trigger] self.level(p) <= self.max_k(),
        decreases self,
    {
        if self.range.0 != self.range.1 {
            let l = *self.left.unwrap();
            let r = *self.right.unwrap();
            assert(l.wf() && r.wf());
            l.lemma_below_range();
            r.lemma_below_range();
            assert forall|p: int| self.lo() <= p <= self.hi() implies -1 <= #[trigger] self.below(p)
                <= self.max_k() by {
                if p <= l.range.1 {
                    assert(-1 <= l.level(p) <= l.max_k());
                } else {
                    assert(-1 <= r.level(p) <= r.max_k());
                }
            }
        }
        assert forall|p: int| self.lo() <= p <= self.hi() implies -1 <= #[trigger] self.level(p) <= self.max_k() by {
            lemma_apply_range(self.tag, self.below(p), self.max_k());
        }
    }

    /// How many positions of the node's range the histogram puts at level `c`.
    pub closed spec fn count_at(self, c: int) -> int {
        self.counts@[c] as int
    }

    /// The histogram of a well-formed node is clamped to the levels `0..=max_k`: slot `c`
    /// counts exactly the positions of the range at level `c` (before the node's own
    /// pending deltas), so it is nonzero exactly when one sits there. Every level lies in
    /// `0..=max_k` or is dropped (-1), and a dropped position shows in no slot.
    pub proof fn lemma_histogram_clamped(self, c: int)
        requires
            self.wf(),
            0 <= c <= self.max_k(),
        ensures
            self.count_at(c) == num_at(self.levels(), c, self.lo(), self.hi() + 1),
            0 <= self.count_at(c) <= self.hi() - self.lo() + 1,
            self.count_at(c) > 0 <==> exists|p: int|
                self.lo() <= p <= self.hi() && #[trigger] self.below(p) == c,
            forall|p: int| self.lo() <= p <= self.hi() ==> -1 <= #[trigger] self.below(p) <= self.max_k(),
    {
        self.lemma_below_range();
        lemma_num_presence(self.levels(), c, self.lo(), self.hi() + 1);
        if self.count_at(c) > 0 {
            let w = choose|p: int| self.lo() <= p < self.hi() + 1 && #[trigger] self.levels()(p) == c;
            assert(self.below(w) == c);
        }
        if exists|p: int| self.lo() <= p <= self.hi() && #[trigger] self.below(p) == c {
            let w = choose|p: int| self.lo() <= p <= self.hi() && #[trigger] self.below(p) == c;
            assert(self.levels()(w) == c);
        }
    }

    /// The sum of the histogram's slots `0..k`.
    pub closed spec fn counts_upto(self, k: int) -> int
        decreases k,
    {
        if k <= 0 {
            0
        } else {
            self.counts_upto(k - 1) + self.count_at(k - 1)
        }
    }

    proof fn lemma_counts_upto(self, k: int)
        requires
            self.wf(),
            0 <= k <= self.counts@.len(),
        ensures
            self.counts_upto(k) == counted_below(self.levels(), k, self.lo(), self.hi() + 1),
        decreases k,
    {
        if k > 0 {
            self.lemma_counts_upto(k - 1);
            assert(self.counts@[k - 1] == num_at(self.levels(), k - 1, self.lo(), self.hi() + 1));
        }
    }

    /// The histogram of every well-formed node adds up to the number of positions of its
    /// range that were not dropped: the size of the range, as long as no position's level
    /// ever left `0..=max_k`.
    pub proof fn lemma_counts_add_up(self)
        requires
            self.wf(),
        ensures
            self.counts_upto(self.max_k() + 1) == num_in(
                self.levels(),
                self.max_k() + 1,
                self.lo(),
                self.hi() + 1,
            ),
            (forall|p: int| self.lo() <= p <= self.hi() ==> #[trigger] self.below(p) >= 0)
                ==> self.counts_upto(self.max_k() + 1) == self.hi() - self.lo() + 1,
    {
        self.lemma_counts_upto(self.max_k() + 1);
        lemma_counted_below(self.levels(), self.max_k() + 1, self.lo(), self.hi() + 1);
        self.lemma_below_range();
        if forall|p: int| self.lo() <= p <= self.hi() ==> #[trigger] self.below(p) >= 0 {
            assert forall|p: int| self.lo() <= p < self.hi() + 1 implies 0 <= #[trigger] self.levels()(p)
                < self.max_k() + 1 by {
                assert(self.below(p) >= 0);
            }
            lemma_num_in_all(self.levels(), self.max_k() + 1, self.lo(), self.hi() + 1);
        }
    }

    /// Two nodes with the same levels on the same range count the same.
    proof fn lemma_same_levels(self, other: Self, c: int)
        requires
            self.range == other.range,
            forall|p: int| self.lo() <= p <= self.hi() ==> #[trigger] other.below(p) == self.below(p),
        ensures
            num_at(other.levels(), c, other.lo(), other.hi() + 1) == num_at(self.levels(), c, self.lo(), self.hi() + 1),
    {
        assert forall|p: int| self.lo() <= p < self.hi() + 1 implies #[trigger] other.levels()(p) == self.levels()(p) + 0 by {
            assert(other.below(p) == self.below(p));
        }
        lemma_num_shift(self.levels(), other.levels(), c, 0, self.lo(), self.hi() + 1);
    }

    /// The histogram of a node whose children hold no pending deltas is the sum of theirs.
    proof fn lemma_join_counts(self, c: int)
        requires
            self.range.0 < self.range.1,
            self.left is Some,
            self.right is Some,
            self.left.unwrap().wf(),
            self.right.unwrap().wf(),
            self.left.unwrap().is_settled(),
            self.right.unwrap().is_settled(),
            self.left.unwrap().range.0 == self.range.0,
            self.right.unwrap().range.1 == self.range.1,
            self.right.unwrap().range.0 == self.left.unwrap().range.1 + 1,
            0 <= c < self.left.unwrap().counts@.len(),
            0 <= c < self.right.unwrap().counts@.len(),
        ensures
            num_at(self.levels(), c, self.lo(), self.hi() + 1) == self.left.unwrap().counts@[c]
                + self.right.unwrap().counts@[c],
    {
        let l = *self.left.unwrap();
        let r = *self.right.unwrap();
        assert(l.wf() && r.wf());
        l.lemma_below_range();
        r.lemma_below_range();
        let m = l.range.1 + 1;
        lemma_num_split(self.levels(), c, self.lo(), m, self.hi() + 1);
        assert forall|p: int| self.lo() <= p < m implies #[trigger] self.levels()(p) == l.levels()(p) + 0 by {
            lemma_apply_range(l.tag, l.below(p), l.max_k());
        }
        lemma_num_shift(l.levels(), self.levels(), c, 0, self.lo(), m);
        assert forall|p: int| m <= p < self.hi() + 1 implies #[trigger] self.levels()(p) == r.levels()(p) + 0 by {
            lemma_apply_range(r.tag, r.below(p), r.max_k());
        }
        lemma_num_shift(r.levels(), self.levels(), c, 0, m, self.hi() + 1);
    }

    fn new(range: (usize, usize), max_k: usize) -> (r: Self)
        requires
            max_k < usize::MAX,
        ensures
            r.range == range,
            r.counts@ == Seq::new((max_k + 1) as nat, |c: int| 0usize),
            is_identity(r.tag),
            r.left is None,
            r.right is None,
            r.base@ == 0,
    {
        Self {
            range,
            counts: zeros(max_k + 1),
            tag: identity_tag(),
            left: None,
            right: None,
            base: Ghost(0),
        }
    }

    /// Builds the subtree over `range`, every position at coverage level 0, keeping count
    /// of the levels `0..=max_k`.
    pub fn build(range: (usize, usize), max_k: usize) -> (r: Option<Box<Self>>)
        requires
            max_k < i32::MAX,
            range.1 < usize::MAX,
        ensures
            range.0 > range.1 ==> r is None,
            range.0 <= range.1 ==> {
                &&& r is Some
                &&& r.unwrap().wf()
                &&& r.unwrap().lo() == range.0
                &&& r.unwrap().hi() == range.1
                &&& r.unwrap().is_settled()
                &&& r.unwrap().max_k() == max_k
                &&& forall|p: int| range.0 <= p <= range.1 ==> #[trigger] r.unwrap().below(p) == 0
            },
        decreases range.1 - range.0,
    {
        if range.0 > range.1 {
            return None;
        }
        let mut node = Self::new(range, max_k);
        if range.0 < range.1 {
            let mid = range.0 + (range.1 - range.0) / 2;
            let left = Self::build((range.0, mid), max_k);
            let right = Self::build((mid + 1, range.1), max_k);
            proof {
                let l = *left.unwrap();
                let r = *right.unwrap();
                assert(l.wf() && r.wf());
                assert(l.counts@[0] == num_at(l.levels(), 0, l.lo(), l.hi() + 1));
                assert(r.counts@[0] == num_at(r.levels(), 0, r.lo(), r.hi() + 1));
                lemma_num_presence(l.levels(), 0, l.lo(), l.hi() + 1);
                lemma_num_presence(r.levels(), 0, r.lo(), r.hi() + 1);
            }
            let c0 = left.as_ref().unwrap().counts[0] + right.as_ref().unwrap().counts[0];
            node.counts.set(0, c0);
            node.left = left;
            node.right = right;
            proof {
                assert(node.mid() == mid);
                let l = *left.unwrap();
                let r = *right.unwrap();
                assert forall|p: int| range.0 <= p <= range.1 implies #[trigger] node.below(p) == 0 by {
                    if p <= mid {
                        assert(l.below(p) == 0);
                    } else {
                        assert(r.below(p) == 0);
                    }
                }
                assert forall|c: int| 0 <= c < node.counts@.len() implies #[trigger] node.counts@[c]
                    == num_at(node.levels(), c, node.lo(), node.hi() + 1) by {
                    if c > 0 {
                        lemma_num_presence(l.levels(), c, l.lo(), l.hi() + 1);
                        lemma_num_presence(r.levels(), c, r.lo(), r.hi() + 1);
                        if l.counts@[c] > 0 {
                            let w = choose|p: int| l.lo() <= p < l.hi() + 1 && #[trigger] l.levels()(p) == c;
                            assert(l.below(w) == 0);
                        }
                        if r.counts@[c] > 0 {
                            let w = choose|p: int| r.lo() <= p < r.hi() + 1 && #[trigger] r.levels()(p) == c;
                            assert(r.below(w) == 0);
                        }
                    }
                    node.lemma_join_counts(c);
                }
            }
        } else {
            node.counts.set(0, 1);
            proof {
                assert(node.below(range.0 as int) == 0);
                assert forall|c: int| 0 <= c < node.counts@.len() implies #[trigger] node.counts@[c]
                    == num_at(node.levels(), c, node.lo(), node.hi() + 1) by {
                    assert(num_at(node.levels(), c, node.lo(), node.lo()) == 0);
                    assert(node.levels()(node.lo()) == 0);
                }
            }
        }
        Some(Box::new(node))
    }

    /// Appends the run `u` to this node's pending deltas.
    fn add_tag(&mut self, u: Tag)
        requires
            old(self).wf(),
            tag_ok(u, old(self).max_k()),
        ensures
            final(self).wf(),
            final(self).range == old(self).range,
            final(self).counts@.len() == old(self).counts@.len(),
            forall|p: int| #[trigger] final(self).below(p) == old(self).below(p),
            forall|p: int|
                old(self).lo() <= p <= old(self).hi() ==> #[trigger] final(self).level(p)
                    == apply_tag(u, old(self).level(p), old(self).max_k()),
    {
        let ghost s0 = *self;
        let k = self.counts.len() - 1;
        self.tag = compose_exec(self.tag, u, k);
        proof {
            s0.lemma_below_range();
            lemma_compose(s0.tag, u, k as int, s0.below(s0.lo()));
            assert forall|p: int| s0.lo() <= p <= s0.hi() implies #[trigger] self.level(p)
                == apply_tag(u, s0.level(p), s0.max_k()) by {
                lemma_compose(s0.tag, u, k as int, s0.below(p));
            }
            assert forall|c: int| 0 <= c < self.counts@.len() implies #[trigger] self.counts@[c]
                == num_at(self.levels(), c, self.lo(), self.hi() + 1) by {
                s0.lemma_same_levels(*self, c);
            }
        }
    }

    /// Applies the run `t` to every level below this node; the node's own deltas must be
    /// settled.
    fn apply_here(&mut self, t: Tag)
        requires
            old(self).wf(),
            old(self).is_settled(),
            tag_ok(t, old(self).max_k()),
        ensures
            final(self).wf(),
            final(self).is_settled(),
            final(self).range == old(self).range,
            final(self).counts@.len() == old(self).counts@.len(),
            forall|p: int|
                old(self).lo() <= p <= old(self).hi() ==> #[trigger] final(self).below(p)
                    == apply_tag(t, old(self).below(p), old(self).max_k()),
    {
        let ghost s0 = *self;
        let k = self.counts.len() - 1;
        proof {
            s0.lemma_below_range();
        }
        self.counts = apply_counts(&self.counts, t, k);
        if self.range.0 != self.range.1 {
            let mut l = self.left.take().unwrap();
            let mut r = self.right.take().unwrap();
            let ghost l0 = *l;
            let ghost r0 = *r;
            proof {
                assert(l0.wf() && r0.wf());
            }
            (&mut *l).add_tag(t);
            (&mut *r).add_tag(t);
            self.left = Some(l);
            self.right = Some(r);
            proof {
                assert forall|p: int| s0.lo() <= p <= s0.hi() implies #[trigger] self.below(p)
                    == apply_tag(t, s0.below(p), s0.max_k()) by {
                    if p <= l0.range.1 {
                        assert(self.below(p) == l.level(p));
                        assert(s0.below(p) == l0.level(p));
                    } else {
                        assert(self.below(p) == r.level(p));
                        assert(s0.below(p) == r0.level(p));
                    }
                }
            }
        } else {
            self.base = Ghost(apply_tag(t, self.base@, k as int));
            proof {
                assert(self.below(self.lo()) == apply_tag(t, s0.below(s0.lo()), s0.max_k()));
                lemma_apply_range(t, s0.base@, k as int);
            }
        }
        proof {
            assert forall|p: int| s0.lo() <= p < s0.hi() + 1 implies #[trigger] self.levels()(p)
                == apply_tag(t, s0.levels()(p), k as int) by {
                assert(self.below(p) == apply_tag(t, s0.below(p), s0.max_k()));
            }
            assert forall|p: int| s0.lo() <= p < s0.hi() + 1 implies -1 <= #[trigger] s0.levels()(p) <= k by {
                assert(-1 <= s0.below(p) <= s0.max_k());
            }
            assert forall|c: int| 0 <= c < self.counts@.len() implies #[trigger] self.counts@[c]
                == num_at(self.levels(), c, self.lo(), self.hi() + 1) by {
                lemma_num_apply(s0.levels(), self.levels(), t, k as int, c, s0.lo(), s0.hi() + 1);
                if survives(t, c - t.shift, k as int) {
                    assert(s0.counts@[c - t.shift] == num_at(s0.levels(), c - t.shift, s0.lo(), s0.hi() + 1));
                }
            }
        }
    }

    /// Applies the pending deltas to this node and hands them on to the children.
    fn push_down(&mut self)
        requires
            old(self).wf(),
        ensures
            final(self).wf(),
            final(self).is_settled(),
            final(self).range == old(self).range,
            final(self).counts@.len() == old(self).counts@.len(),
            forall|p: int|
                old(self).lo() <= p <= old(self).hi() ==> #[trigger] final(self).level(p)
                    == old(self).level(p),
    {
        if !(self.tag.shift == 0 && self.tag.low == 0 && self.tag.high == 0) {
            let t = self.tag;
            let ghost s0 = *self;
            self.tag = identity_tag();
            proof {
                assert forall|c: int| 0 <= c < self.counts@.len() implies #[trigger] self.counts@[c]
                    == num_at(self.levels(), c, self.lo(), self.hi() + 1) by {
                    s0.lemma_same_levels(*self, c);
                }
                assert(self.wf());
            }
            let ghost s1 = *self;
            self.apply_here(t);
            proof {
                self.lemma_below_range();
                assert forall|p: int| s0.lo() <= p <= s0.hi() implies #[trigger] self.level(p)
                    == s0.level(p) by {
                    lemma_apply_range(self.tag, self.below(p), self.max_k());
                    assert(s1.below(p) == s0.below(p));
                }
            }
        } else {
            proof {
                assert(self.is_settled());
            }
        }
    }

    /// Adds the signed `value` to the coverage level of every position of `range`; a
    /// position whose level would leave `0..=max_k` is dropped, and stays dropped.
    pub fn update(&mut self, range: (usize, usize), value: i32)
        requires
            old(self).wf(),
        ensures
            final(self).wf(),
            final(self).is_settled(),
            final(self).lo() == old(self).lo(),
            final(self).hi() == old(self).hi(),
            final(self).max_k() == old(self).max_k(),
            forall|p: int|
                old(self).lo() <= p <= old(self).hi() ==> #[trigger] final(self).level(p)
                    == if range.0 <= p <= range.1 {
                    add_level(old(self).level(p), value as int, old(self).max_k())
                } else {
                    old(self).level(p)
                },
        decreases old(self).hi() - old(self).lo(),
    {
        let ghost s_in = *self;
        self.push_down();
        if self.range.0 > range.1 || self.range.1 < range.0 {
            return;
        }
        let k = self.counts.len() - 1;
        if self.range.0 >= range.0 && self.range.1 <= range.1 {
            let t = single_tag(value, k);
            let ghost s1 = *self;
            proof {
                s1.lemma_below_range();
            }
            self.apply_here(t);
            proof {
                self.lemma_below_range();
                assert forall|p: int| s_in.lo() <= p <= s_in.hi() implies #[trigger] self.level(p)
                    == add_level(s_in.level(p), value as int, s_in.max_k()) by {
                    lemma_apply_range(self.tag, self.below(p), self.max_k());
                    lemma_apply_range(s1.tag, s1.below(p), s1.max_k());
                    assert(s1.level(p) == s_in.level(p));
                    assert(self.below(p) == apply_tag(t, s1.below(p), k as int));
                }
            }
            return;
        }
        let ghost s0 = *self;
        let mut l = self.left.take().unwrap();
        let mut r = self.right.take().unwrap();
        let ghost l0 = *l;
        let ghost r0 = *r;
        proof {
            assert(l0.wf() && r0.wf());
            assert(s0.mid() == l0.range.1);
        }
        (&mut *l).update(range, value);
        (&mut *r).update(range, value);
        proof {
            assert(l.wf() && r.wf());
            assert forall|c: int| 0 <= c < l.counts@.len() implies #[trigger] l.counts@[c]
                + r.counts@[c] <= usize::MAX by {
                lemma_num_presence(l.levels(), c, l.lo(), l.hi() + 1);
                lemma_num_presence(r.levels(), c, r.lo(), r.hi() + 1);
                assert(l.counts@[c] == num_at(l.levels(), c, l.lo(), l.hi() + 1));
                assert(r.counts@[c] == num_at(r.levels(), c, r.lo(), r.hi() + 1));
            }
        }
        self.counts = sum_counts(&l.counts, &r.counts);
        self.left = Some(l);
        self.right = Some(r);
        proof {
            s0.lemma_below_range();
            assert forall|p: int| s0.lo() <= p <= s0.hi() implies #[trigger] self.level(p)
                == if range.0 <= p <= range.1 {
                add_level(s_in.level(p), value as int, s_in.max_k())
            } else {
                s_in.level(p)
            } by {
                assert(s0.level(p) == s_in.level(p));
                lemma_apply_range(s0.tag, s0.below(p), s0.max_k());
                assert(s0.level(p) == s0.below(p));
                assert(is_identity(self.tag));
                if p <= l0.range.1 {
                    l.lemma_below_range();
                    assert(self.below(p) == l.level(p));
                    assert(s0.below(p) == l0.level(p));
                    assert(l.level(p) == if range.0 <= p <= range.1 {
                        add_level(l0.level(p), value as int, l0.max_k())
                    } else {
                        l0.level(p)
                    });
                    assert(-1 <= self.below(p) <= self.max_k());
                    lemma_apply_range(self.tag, self.below(p), self.max_k());
                } else {
                    r.lemma_below_range();
                    assert(self.below(p) == r.level(p));
                    assert(s0.below(p) == r0.level(p));
                    assert(r.level(p) == if range.0 <= p <= range.1 {
                        add_level(r0.level(p), value as int, r0.max_k())
                    } else {
                        r0.level(p)
                    });
                    assert(-1 <= self.below(p) <= self.max_k());
                    lemma_apply_range(self.tag, self.below(p), self.max_k());
                }
            }
            assert forall|c: int| 0 <= c < self.counts@.len() implies #[trigger] self.counts@[c]
                == num_at(self.levels(), c, self.lo(), self.hi() + 1) by {
                self.lemma_join_counts(c);
            }
            assert(self.wf());
        }
    }

    /// `res` tells whether some position of `range` sits at level `k` in `before`, and
    /// `after` holds the same levels, with nothing pending at its root.
    pub open spec fn answered(before: Self, after: Self, range: (usize, usize), k: usize, res: bool) -> bool {
        &&& after.wf()
        &&& after.is_settled()
        &&& after.lo() == before.lo()
        &&& after.hi() == before.hi()
        &&& after.max_k() == before.max_k()
        &&& forall|p: int| before.lo() <= p <= before.hi() ==> #[trigger] after.level(p) == before.level(p)
        &&& res == exists|p: int|
            range.0 <= p <= range.1 && before.lo() <= p <= before.hi() && #[trigger] before.level(p) == k
    }

    /// A query leaves every level as it was, so asking the same query twice in a row gives
    /// the same answer.
    pub proof fn lemma_query_twice(
        t0: Self,
        t1: Self,
        t2: Self,
        range: (usize, usize),
        k: usize,
        r1: bool,
        r2: bool,
    )
        requires
            Self::answered(t0, t1, range, k, r1),
            Self::answered(t1, t2, range, k, r2),
        ensures
            r1 == r2,
            forall|p: int| t0.lo() <= p <= t0.hi() ==> #[trigger] t2.level(p) == t0.level(p),
    {
        if r1 {
            let w = choose|p: int| range.0 <= p <= range.1 && t0.lo() <= p <= t0.hi() && #[trigger] t0.level(p) == k;
            assert(t1.level(w) == k);
        }
        if r2 {
            let w = choose|p: int| range.0 <= p <= range.1 && t1.lo() <= p <= t1.hi() && #[trigger] t1.level(p) == k;
            assert(t0.level(w) == t1.level(w));
        }
        assert forall|p: int| t0.lo() <= p <= t0.hi() implies #[trigger] t2.level(p) == t0.level(p) by {
            assert(t1.level(p) == t0.level(p));
        }
    }

    /// Whether some position of `range` has coverage level exactly `k`.
    pub fn query(&mut self, range: (usize, usize), k: usize) -> (res: bool)
        requires
            old(self).wf(),
            k <= old(self).max_k(),
        ensures
            Self::answered(*old(self), *final(self), range, k, res),
        decreases old(self).hi() - old(self).lo(),
    {
        let ghost s_in = *self;
        self.push_down();
        if self.range.0 > range.1 || self.range.1 < range.0 {
            return false;
        }
        if self.range.0 >= range.0 && self.range.1 <= range.1 {
            let res = self.counts[k] > 0;
            proof {
                self.lemma_histogram_clamped(k as int);
                self.lemma_below_range();
                if res {
                    let w = choose|p: int| self.lo() <= p <= self.hi() && #[trigger] self.below(p) == k;
                    lemma_apply_range(self.tag, self.below(w), self.max_k());
                    assert(s_in.level(w) == self.level(w));
                }
                if exists|p: int| range.0 <= p <= range.1 && s_in.lo() <= p <= s_in.hi()
                    && #[trigger] s_in.level(p) == k {
                    let w = choose|p: int| range.0 <= p <= range.1 && s_in.lo() <= p <= s_in.hi()
                        && #[trigger] s_in.level(p) == k;
                    assert(self.level(w) == s_in.level(w));
                    lemma_apply_range(self.tag, self.below(w), self.max_k());
                    assert(self.below(w) == k);
                }
            }
            return res;
        }
        let ghost s0 = *self;
        let mut l = self.left.take().unwrap();
        let mut r = self.right.take().unwrap();
        let ghost l0 = *l;
        let ghost r0 = *r;
        proof {
            assert(l0.wf() && r0.wf());
            s0.lemma_below_range();
        }
        let a = (&mut *l).query(range, k);
        let b = (&mut *r).query(range, k);
        self.left = Some(l);
        self.right = Some(r);
        proof {
            assert forall|p: int| s0.lo() <= p <= s0.hi() implies #[trigger] self.below(p)
                == s0.below(p) by {
                if p <= l0.range.1 {
                    assert(self.below(p) == l.level(p));
                    assert(s0.below(p) == l0.level(p));
                } else {
                    assert(self.below(p) == r.level(p));
                    assert(s0.below(p) == r0.level(p));
                }
            }
            assert forall|p: int| s0.lo() <= p <= s0.hi() implies #[trigger] self.level(p)
                == s_in.level(p) by {
                assert(s0.level(p) == s_in.level(p));
                assert(self.below(p) == s0.below(p));
            }
            if a {
                let w = choose|p: int| range.0 <= p <= range.1 && l0.lo() <= p <= l0.hi()
                    && #[trigger] l0.level(p) == k;
                assert(s0.below(w) == l0.level(w));
                lemma_apply_range(s0.tag, s0.below(w), s0.max_k());
                assert(s0.level(w) == s_in.level(w));
            }
            if b {
                let w = choose|p: int| range.0 <= p <= range.1 && r0.lo() <= p <= r0.hi()
                    && #[trigger] r0.level(p) == k;
                assert(s0.below(w) == r0.level(w));
                lemma_apply_range(s0.tag, s0.below(w), s0.max_k());
                assert(s0.level(w) == s_in.level(w));
            }
            if exists|p: int| range.0 <= p <= range.1 && s_in.lo() <= p <= s_in.hi()
                && #[trigger] s_in.level(p) == k {
                let w = choose|p: int| range.0 <= p <= range.1 && s_in.lo() <= p <= s_in.hi()
                    && #[trigger] s_in.level(p) == k;
                assert(s0.level(w) == s_in.level(w));
                lemma_apply_range(s0.tag, s0.below(w), s0.max_k());
                if w <= l0.range.1 {
                    assert(s0.below(w) == l0.level(w));
                } else {
                    assert(s0.below(w) == r0.level(w));
                }
            }
            assert forall|c: int| 0 <= c < self.counts@.len() implies #[trigger] self.counts@[c]
                == num_at(self.levels(), c, self.lo(), self.hi() + 1) by {
                s0.lemma_same_levels(*self, c);
            }
            assert(self.wf());
        }
        a || b
    }

    /// For each query `(i, j, k)`, whether some position of `i..=j` is covered by exactly
    /// `k` of the segments, over the positions `0..n`.
    pub fn is_there(n: usize, segments: Vec<(usize, usize)>, queries: Vec<(usize, usize, usize)>) -> (res: Vec<bool>)
        requires
            1 <= n < i32::MAX,
            forall|s: int| 0 <= s < segments@.len() ==> #[trigger] segments@[s].0 <= segments@[s].1 < n,
            forall|q: int|
                0 <= q < queries@.len() ==> #[trigger] queries@[q].0 <= queries@[q].1 < n
                    && queries@[q].2 <= n,
        ensures
            res@.len() == queries@.len(),
            forall|q: int|
                0 <= q < queries@.len() ==> #[trigger] res@[q] == has_level(
                    segments@,
                    queries@[q].0 as int,
                    queries@[q].1 as int,
                    queries@[q].2 as int,
                ),
    {
        let mut tree = Self::build((0, n - 1), n).unwrap();
        let mut i: usize = 0;
        while i < segments.len()
            invariant
                i <= segments@.len(),
                1 <= n < i32::MAX,
                tree.wf(),
                tree.range == (0usize, (n - 1) as usize),
                tree.max_k() == n,
                forall|p: int|
                    0 <= p < n ==> #[trigger] tree.level(p) == capped(coverage(segments@.take(i as int), p), n as int),
            decreases segments@.len() - i,
        {
            let ghost t0 = *tree;
            (&mut *tree).update(segments[i], 1);
            proof {
                assert forall|p: int| 0 <= p < n implies #[trigger] tree.level(p) == capped(
                    coverage(segments@.take(i + 1), p),
                    n as int,
                ) by {
                    assert(segments@.take(i + 1).drop_last() =~= segments@.take(i as int));
                    lemma_coverage_bounds(segments@.take(i as int), p);
                    assert(t0.level(p) == capped(coverage(segments@.take(i as int), p), n as int));
                }
            }
            i = i + 1;
        }
        proof {
            assert(segments@.take(segments@.len() as int) =~= segments@);
        }
        let mut results: Vec<bool> = Vec::new();
        let mut q: usize = 0;
        while q < queries.len()
            invariant
                q <= queries@.len(),
                1 <= n < i32::MAX,
                forall|x: int|
                    0 <= x < queries@.len() ==> #[trigger] queries@[x].0 <= queries@[x].1 < n
                        && queries@[x].2 <= n,
                tree.wf(),
                tree.range == (0usize, (n - 1) as usize),
                tree.max_k() == n,
                forall|p: int| 0 <= p < n ==> #[trigger] tree.level(p) == capped(coverage(segments@, p), n as int),
                results@.len() == q,
                forall|x: int|
                    0 <= x < q ==> #[trigger] results@[x] == has_level(
                        segments@,
                        queries@[x].0 as int,
                        queries@[x].1 as int,
                        queries@[x].2 as int,
                    ),
            decreases queries@.len() - q,
        {
            let (a, b, k) = queries[q];
            proof {
                assert(queries@[q as int].2 <= n);
            }
            let ghost t0 = *tree;
            let found = (&mut *tree).query((a, b), k);
            proof {
                if found {
                    let w = choose|p: int| a <= p <= b && t0.lo() <= p <= t0.hi() && #[trigger] t0.level(p) == k;
                    lemma_coverage_bounds(segments@, w);
                    assert(coverage(segments@, w) == k);
                }
                if has_level(segments@, a as int, b as int, k as int) {
                    let w = choose|p: int| a <= p <= b && #[trigger] coverage(segments@, p) == k;
                    assert(t0.level(w) == k);
                }
            }
            results.push(found);
            q = q + 1;
        }
        results
    }
}

/// The two histograms added level by level.
fn sum_counts(a: &Vec<usize>, b: &Vec<usize>) -> (r: Vec<usize>)
    requires
        a@.len() == b@.len(),
        forall|c: int| 0 <= c < a@.len() ==> #[trigger] a@[c] + b@[c] <= usize::MAX,
    ensures
        r@.len() == a@.len(),
        forall|c: int| 0 <= c < r@.len() ==> #[trigger] r@[c] == a@[c] + b@[c],
{
    let mut r: Vec<usize> = Vec::new();
    let mut c: usize = 0;
    while c < a.len()
        invariant
            c <= a@.len(),
            a@.len() == b@.len(),
            forall|j: int| 0 <= j < a@.len() ==> #[trigger] a@[j] + b@[j] <= usize::MAX,
            r@.len() == c,
            forall|j: int| 0 <= j < c ==> #[trigger] r@[j] == a@[j] + b@[j],
        decreases a@.len() - c,
    {
        r.push(a[c] + b[c]);
        c = c + 1;
    }
    r
}

/// The histogram after the run `t`: each level's count moves by the run's sum, or is
/// dropped when the level does not survive the run.
fn apply_counts(counts: &Vec<usize>, t: Tag, k: usize) -> (r: Vec<usize>)
    requires
        counts@.len() == k + 1,
        k < i32::MAX,
        tag_ok(t, k as int),
    ensures
        r@.len() == counts@.len(),
        forall|c: int| 0 <= c < r@.len() ==> #[trigger] r@[c] == if survives(t, c - t.shift, k as int) {
            counts@[c - t.shift]
        } else {
            0usize
        },
{
    let mut r: Vec<usize> = Vec::new();
    let mut c: usize = 0;
    while c < counts.len()
        invariant
            counts@.len() == k + 1,
            k < i32::MAX,
            tag_ok(t, k as int),
            c <= counts@.len(),
            r@.len() == c,
            forall|j: int| 0 <= j < c ==> #[trigger] r@[j] == if survives(t, j - t.shift, k as int) {
                counts@[j - t.shift]
            } else {
                0usize
            },
        decreases counts@.len() - c,
    {
        let src: i64 = c as i64 - t.shift;
        if 0 <= src && src + t.low >= 0 && src + t.high <= k as i64 {
            r.push(counts[src as usize]);
        } else {
            r.push(0);
        }
        c = c + 1;
    }
    r
}

fn zeros(n: usize) -> (r: Vec<usize>)
    ensures
        r@ == Seq::new(n as nat, |c: int| 0usize),
{
    let mut v: Vec<usize> = Vec::new();
    let mut i: usize = 0;
    while i < n
        invariant
            i <= n,
            v@ == Seq::new(i as nat, |c: int| 0usize),
        decreases n - i,
    {
        v.push(0);
        i = i + 1;
    }
    v
}

} // verus!
