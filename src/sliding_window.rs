use vstd::prelude::*;
use crate::max_tree::is_max_over;
use std::collections::VecDeque;

verus! {

/// The values of `v` as integers, position by position.
pub open spec fn as_ints(v: Seq<i32>) -> spec_fn(int) -> int {
    |j: int| v[j] as int
}

/// `r` holds, for each window of `k` consecutive positions of `v` from left to right, the
/// largest value in it; there is no window when `k` exceeds the length.
pub open spec fn sliding_max(v: Seq<i32>, k: int, r: Seq<i32>) -> bool {
    &&& r.len() == if k <= v.len() {
        v.len() - k + 1
    } else {
        0
    }
    &&& forall|i: int|
        0 <= i < r.len() ==> is_max_over(as_ints(v), i, i + k - 1, Some(#[trigger] r[i]))
}

/// The largest value on the positions `a..=b` of `v`.
fn max_of(v: &Vec<i32>, a: usize, b: usize) -> (m: i32)
    requires
        a <= b < v@.len(),
    ensures
        is_max_over(as_ints(v@), a as int, b as int, Some(m)),
{
    let mut m = v[a];
    let mut j: usize = a;
    proof {
        assert(as_ints(v@)(a as int) == m);
    }
    while j < b
        invariant
            a <= j <= b,
            b < v@.len(),
            is_max_over(as_ints(v@), a as int, j as int, Some(m)),
        decreases b - j,
    {
        j = j + 1;
        let ghost m0 = m;
        if v[j] > m {
            m = v[j];
        }
        proof {
            let f = as_ints(v@);
            assert(f(j as int) == v@[j as int] as int);
            assert forall|x: int| a <= x <= j implies #[trigger] f(x) <= m by {
                if x < j {
                    assert(f(x) <= m0);
                }
            }
            if m == v[j as int] {
                assert(f(j as int) == m);
            } else {
                let w = choose|x: int| a <= x <= j - 1 && #[trigger] f(x) == m;
                assert(f(w) == m);
            }
        }
    }
    m
}

/// The maximum of every window of `k` consecutive values, each window scanned in full.
pub fn brute_force(v: &Vec<i32>, k: usize) -> (r: Vec<i32>)
    requires
        k >= 1,
    ensures
        sliding_max(v@, k as int, r@),
{
    let mut r: Vec<i32> = Vec::new();
    if k > v.len() {
        return r;
    }
    let mut i: usize = 0;
    while i < v.len() - k + 1
        invariant
            k >= 1,
            k <= v@.len(),
            i <= v@.len() - k + 1,
            r@.len() == i,
            forall|x: int| 0 <= x < i ==> is_max_over(as_ints(v@), x, x + k - 1, Some(#[trigger] r@[x])),
        decreases v@.len() - i,
    {
        let m = max_of(v, i, i + k - 1);
        r.push(m);
        i = i + 1;
    }
    r
}

/// `q` holds increasing positions of `lo..=hi` whose values never increase along `q`, and
/// each position of `lo..=hi` has a position in `q` at or after it with a value at least
/// as large.
spec fn mono_queue(v: Seq<i32>, q: Seq<usize>, lo: int, hi: int) -> bool {
    &&& hi < v.len()
    &&& forall|t: int| 0 <= t < q.len() ==> lo <= #[trigger] q[t] <= hi
    &&& forall|t1: int, t2: int|
        0 <= t1 < t2 < q.len() ==> #[trigger] q[t1] < #[trigger] q[t2] && v[q[t1] as int]
            >= v[q[t2] as int]
    &&& forall|j: int| lo <= j <= hi ==> #[trigger] has_cover(v, q, j)
}

/// Some position of `q` at or after `j` has a value at least position `j`'s.
spec fn has_cover(v: Seq<i32>, q: Seq<usize>, j: int) -> bool {
    exists|t: int| 0 <= t < q.len() && j <= #[trigger] q[t] && v[q[t] as int] >= v[j]
}

proof fn lemma_front_is_max(v: Seq<i32>, q: Seq<usize>, lo: int, hi: int)
    requires
        mono_queue(v, q, lo, hi),
        lo <= hi,
    ensures
        q.len() >= 1,
        is_max_over(as_ints(v), lo, hi, Some(v[q[0] as int])),
{
    let f = as_ints(v);
    assert(has_cover(v, q, lo));
    assert(q.len() >= 1);
    assert(f(q[0] as int) == v[q[0] as int]);
    assert forall|j: int| lo <= j <= hi implies #[trigger] f(j) <= v[q[0] as int] by {
        assert(has_cover(v, q, j));
        let t = choose|t: int| 0 <= t < q.len() && j <= #[trigger] q[t] && v[q[t] as int] >= v[j];
        if t > 0 {
            assert(q[0] < q[t]);
        }
    }
}

/// Drops from the back of `q` the positions whose values are below position `i`'s, then
/// adds `i`.
fn push_candidate(q: &mut VecDeque<usize>, nums: &Vec<i32>, lo: Ghost<int>, i: usize)
    requires
        mono_queue(nums@, old(q)@, lo@, i - 1),
        0 <= lo@ <= i < nums@.len(),
    ensures
        mono_queue(nums@, final(q)@, lo@, i as int),
        final(q)@.len() >= 1,
{
    let ghost q0 = q@;
    while q.len() > 0 && nums[i] > nums[q[q.len() - 1]]
        invariant
            q@.len() <= q0.len(),
            q@ == q0.subrange(0, q@.len() as int),
            forall|t: int| q@.len() <= t < q0.len() ==> nums@[#[trigger] q0[t] as int] < nums@[i as int],
            mono_queue(nums@, q0, lo@, i - 1),
            0 <= lo@ <= i < nums@.len(),
        decreases q@.len(),
    {
        q.pop_back();
    }
    let ghost len = q@.len();
    q.push_back(i);
    proof {
        let v = nums@;
        let q1 = q@;
        assert forall|t: int| 0 <= t < q1.len() implies lo@ <= #[trigger] q1[t] <= i by {
            if t < len {
                assert(q1[t] == q0[t]);
            }
        }
        assert forall|t1: int, t2: int| 0 <= t1 < t2 < q1.len() implies #[trigger] q1[t1] < #[trigger] q1[t2]
            && v[q1[t1] as int] >= v[q1[t2] as int] by {
            assert(q1[t1] == q0[t1]);
            if t2 < len {
                assert(q1[t2] == q0[t2]);
            } else {
                assert(q1[t2] == i);
                if t1 < len - 1 {
                    assert(q0[t1] < q0[len - 1] && v[q0[t1] as int] >= v[q0[len - 1] as int]);
                }
            }
        }
        assert forall|j: int| lo@ <= j <= i implies has_cover(v, q1, j) by {
            if j == i {
                assert(q1[len as int] == i);
            } else {
                assert(has_cover(v, q0, j));
                let t = choose|t: int| 0 <= t < q0.len() && j <= #[trigger] q0[t] && v[q0[t] as int] >= v[j];
                if t < len {
                    assert(q1[t] == q0[t]);
                } else {
                    assert(q1[len as int] == i);
                    assert(v[q0[t] as int] < v[i as int]);
                }
            }
        }
    }
}

/// Drops from the front of `q` the positions before `new_lo`.
fn evict(q: &mut VecDeque<usize>, nums: &Vec<i32>, lo: Ghost<int>, hi: Ghost<int>, new_lo: usize)
    requires
        mono_queue(nums@, old(q)@, lo@, hi@),
        lo@ <= new_lo,
    ensures
        mono_queue(nums@, final(q)@, new_lo as int, hi@),
{
    let ghost q0 = q@;
    let ghost mut s: int = 0;
    while q.len() > 0 && q[0] < new_lo
        invariant
            0 <= s <= q0.len(),
            q@ == q0.subrange(s, q0.len() as int),
            forall|t: int| 0 <= t < s ==> #[trigger] q0[t] < new_lo,
            mono_queue(nums@, q0, lo@, hi@),
            lo@ <= new_lo,
        decreases q@.len(),
    {
        proof {
            assert(q@[0] == q0[s]);
        }
        q.pop_front();
        proof {
            s = s + 1;
        }
    }
    proof {
        let v = nums@;
        let q1 = q@;
        assert forall|t: int| 0 <= t < q1.len() implies new_lo <= #[trigger] q1[t] <= hi@ by {
            assert(q1[t] == q0[t + s]);
            if t > 0 {
                assert(q0[s] < q0[t + s]);
            }
            assert(q1[0] == q0[s]);
        }
        assert forall|t1: int, t2: int| 0 <= t1 < t2 < q1.len() implies #[trigger] q1[t1] < #[trigger] q1[t2]
            && v[q1[t1] as int] >= v[q1[t2] as int] by {
            assert(q1[t1] == q0[t1 + s]);
            assert(q1[t2] == q0[t2 + s]);
        }
        assert forall|j: int| new_lo <= j <= hi@ implies has_cover(v, q1, j) by {
            assert(has_cover(v, q0, j));
            let t = choose|t: int| 0 <= t < q0.len() && j <= #[trigger] q0[t] && v[q0[t] as int] >= v[j];
            assert(t >= s);
            assert(q1[t - s] == q0[t]);
        }
    }
}

/// The maximum of every window of `k` consecutive values, keeping a queue of the positions
/// that can still be a window's maximum.
pub fn linear(nums: &Vec<i32>, k: usize) -> (r: Vec<i32>)
    requires
        k >= 1,
    ensures
        sliding_max(nums@, k as int, r@),
{
    let n = nums.len();
    if k > n {
        return Vec::<i32>::new();
    }
    let mut q: VecDeque<usize> = VecDeque::new();
    let mut maxs: Vec<i32> = Vec::new();
    let mut i: usize = 0;
    while i < k
        invariant
            1 <= k <= n == nums@.len(),
            i <= k,
            mono_queue(nums@, q@, 0, i - 1),
        decreases k - i,
    {
        push_candidate(&mut q, nums, Ghost(0), i);
        i = i + 1;
    }
    proof {
        lemma_front_is_max(nums@, q@, 0, k - 1);
    }
    maxs.push(nums[q[0]]);
    let mut i: usize = k;
    while i < n
        invariant
            1 <= k <= i <= n == nums@.len(),
            mono_queue(nums@, q@, i - k, i - 1),
            maxs@.len() == i - k + 1,
            forall|x: int| 0 <= x < maxs@.len() ==> is_max_over(as_ints(nums@), x, x + k - 1, Some(#[trigger] maxs@[x])),
        decreases n - i,
    {
        evict(&mut q, nums, Ghost(i - k), Ghost(i - 1), i + 1 - k);
        push_candidate(&mut q, nums, Ghost(i + 1 - k), i);
        proof {
            lemma_front_is_max(nums@, q@, i + 1 - k, i as int);
        }
        maxs.push(nums[q[0]]);
        i = i + 1;
    }
    maxs
}

/// Some pair of `h` carries position `j`.
spec fn holds_pos(h: Seq<(i32, usize)>, j: int) -> bool {
    exists|t: int| 0 <= t < h.len() && #[trigger] h[t].1 == j
}

/// The position in `h` of its largest pair, comparing values first and then positions.
fn top_index(h: &Vec<(i32, usize)>) -> (r: usize)
    requires
        h@.len() >= 1,
    ensures
        r < h@.len(),
        forall|t: int|
            0 <= t < h@.len() ==> (#[trigger] h@[t]).0 < h@[r as int].0 || (h@[t].0 == h@[r as int].0
                && h@[t].1 <= h@[r as int].1),
{
    let mut r: usize = 0;
    let mut t: usize = 1;
    while t < h.len()
        invariant
            1 <= t <= h@.len(),
            r < t,
            forall|x: int|
                0 <= x < t ==> (#[trigger] h@[x]).0 < h@[r as int].0 || (h@[x].0 == h@[r as int].0
                    && h@[x].1 <= h@[r as int].1),
        decreases h@.len() - t,
    {
        if h[t].0 > h[r].0 || (h[t].0 == h[r].0 && h[t].1 > h[r].1) {
            r = t;
        }
        t = t + 1;
    }
    r
}

/// The maximum of every window of `k` consecutive values, keeping the (value, position)
/// pairs seen so far and dropping the largest one while it lies before the window.
pub fn heap(nums: &Vec<i32>, k: usize) -> (r: Vec<i32>)
    requires
        k >= 1,
    ensures
        sliding_max(nums@, k as int, r@),
{
    let n = nums.len();
    if k > n {
        return Vec::<i32>::new();
    }
    let mut heap: Vec<(i32, usize)> = Vec::new();
    let mut i: usize = 0;
    while i < k - 1
        invariant
            1 <= k <= n == nums@.len(),
            i <= k - 1,
            forall|t: int|
                0 <= t < heap@.len() ==> (#[trigger] heap@[t]).1 < i && heap@[t].0 == nums@[heap@[t].1 as int],
            forall|j: int| 0 <= j < i ==> #[trigger] holds_pos(heap@, j),
        decreases k - 1 - i,
    {
        let ghost h0 = heap@;
        heap.push((nums[i], i));
        proof {
            assert forall|j: int| 0 <= j < i + 1 implies holds_pos(heap@, j) by {
                if j == i {
                    assert(heap@[heap@.len() - 1].1 == j);
                } else {
                    assert(holds_pos(h0, j));
                    let t = choose|t: int| 0 <= t < h0.len() && #[trigger] h0[t].1 == j;
                    assert(heap@[t] == h0[t]);
                }
            }
        }
        i = i + 1;
    }
    let mut maxs: Vec<i32> = Vec::new();
    let mut i: usize = k - 1;
    while i < n
        invariant
            1 <= k <= n == nums@.len(),
            k - 1 <= i <= n,
            forall|t: int|
                0 <= t < heap@.len() ==> (#[trigger] heap@[t]).1 < i && heap@[t].0 == nums@[heap@[t].1 as int],
            forall|j: int|
                i + 1 - k <= j < i ==> #[trigger] holds_pos(heap@, j),
            maxs@.len() == i + 1 - k,
            forall|x: int|
                0 <= x < maxs@.len() ==> is_max_over(as_ints(nums@), x, x + k - 1, Some(#[trigger] maxs@[x])),
        decreases n - i,
    {
        let ghost h0 = heap@;
        heap.push((nums[i], i));
        let lo: usize = i + 1 - k;
        proof {
            assert forall|j: int| lo <= j <= i implies holds_pos(heap@, j) by {
                if j == i {
                    assert(heap@[heap@.len() - 1].1 == j);
                } else {
                    assert(holds_pos(h0, j));
                    let t = choose|t: int| 0 <= t < h0.len() && #[trigger] h0[t].1 == j;
                    assert(heap@[t] == h0[t]);
                }
            }
        }
        let mut top = top_index(&heap);
        while heap[top].1 < lo
            invariant
                1 <= k <= n == nums@.len(),
                k - 1 <= i < n,
                lo == i + 1 - k,
                top < heap@.len(),
                forall|t: int|
                    0 <= t < heap@.len() ==> (#[trigger] heap@[t]).0 < heap@[top as int].0 || (heap@[t].0
                        == heap@[top as int].0 && heap@[t].1 <= heap@[top as int].1),
                forall|t: int|
                    0 <= t < heap@.len() ==> (#[trigger] heap@[t]).1 <= i && heap@[t].0 == nums@[heap@[t].1 as int],
                forall|j: int| lo <= j <= i ==> #[trigger] holds_pos(heap@, j),
            decreases heap@.len(),
        {
            let ghost h0 = heap@;
            heap.swap_remove(top);
            proof {
                assert forall|j: int| lo <= j <= i implies holds_pos(heap@, j) by {
                    assert(holds_pos(h0, j));
                    let t = choose|t: int| 0 <= t < h0.len() && #[trigger] h0[t].1 == j;
                    if t == h0.len() - 1 {
                        assert(heap@[top as int].1 == j);
                    } else {
                        assert(heap@[t].1 == j);
                    }
                }
                assert forall|t: int| 0 <= t < heap@.len() implies (#[trigger] heap@[t]).1 <= i
                    && heap@[t].0 == nums@[heap@[t].1 as int] by {
                    if t == top {
                        assert(heap@[t] == h0[h0.len() - 1]);
                    } else {
                        assert(heap@[t] == h0[t]);
                    }
                }
                assert(holds_pos(heap@, i as int));
            }
            top = top_index(&heap);
        }
        let m = heap[top].0;
        proof {
            let f = as_ints(nums@);
            let p = heap@[top as int].1 as int;
            assert(f(p) == m);
            assert forall|j: int| lo <= j <= i implies #[trigger] f(j) <= m by {
                assert(holds_pos(heap@, j));
                let t = choose|t: int| 0 <= t < heap@.len() && #[trigger] heap@[t].1 == j;
                assert(heap@[t].0 <= m);
            }
        }
        maxs.push(m);
        i = i + 1;
    }
    maxs
}

/// The maximum of every window of `k` consecutive values, keeping the window's
/// (value, position) pairs in order and the window's maximum, and rescanning the window
/// only when its maximum leaves it.
pub fn bst(nums: &Vec<i32>, k: usize) -> (r: Vec<i32>)
    requires
        k >= 1,
    ensures
        sliding_max(nums@, k as int, r@),
{
    let n = nums.len();
    if k > n {
        return Vec::<i32>::new();
    }
    let mut maxs: Vec<i32> = Vec::new();
    let mut set: Vec<(i32, usize)> = Vec::new();
    let mut max_sf = nums[0];
    let mut i: usize = 0;
    while i < n
        invariant
            1 <= k <= n == nums@.len(),
            i <= n,
            set@.len() == i - (if i >= k { i - k } else { 0 }),
            forall|t: int|
                0 <= t < set@.len() ==> #[trigger] set@[t] == (
                    nums@[(if i >= k { i - k } else { 0 }) + t],
                    ((if i >= k { i - k } else { 0 }) + t) as usize,
                ),
            i >= 1 ==> is_max_over(as_ints(nums@), if i >= k { i - k } else { 0 }, i - 1, Some(max_sf)),
            i == 0 ==> max_sf == nums@[0],
            maxs@.len() == if i >= k { i + 1 - k } else { 0 },
            forall|x: int|
                0 <= x < maxs@.len() ==> is_max_over(as_ints(nums@), x, x + k - 1, Some(#[trigger] maxs@[x])),
        decreases n - i,
    {
        let v = nums[i];
        let ghost lo0: int = if i >= k { i - k } else { 0 };
        let ghost m0 = max_sf;
        set.push((v, i));
        if v > max_sf {
            max_sf = v;
        }
        proof {
            let f = as_ints(nums@);
            assert(f(i as int) == v);
            if i == 0 {
                assert(max_sf == v);
            } else {
                assert forall|x: int| lo0 <= x <= i implies #[trigger] f(x) <= max_sf by {
                    if x < i {
                        assert(f(x) <= m0);
                    }
                }
                if max_sf != v {
                    let w = choose|x: int| lo0 <= x <= i - 1 && #[trigger] f(x) == m0;
                    assert(f(w) == max_sf);
                }
            }
            assert forall|t: int| 0 <= t < set@.len() implies #[trigger] set@[t] == (
                nums@[lo0 + t],
                (lo0 + t) as usize,
            ) by {}
            assert(is_max_over(f, lo0, i as int, Some(max_sf)));
        }
        let ghost m1 = max_sf;
        if i >= k {
            let ghost s0 = set@;
            set.remove(0);
            let gone = nums[i - k];
            if max_sf == gone {
                max_sf = largest_first(&set);
            }
            proof {
                let f = as_ints(nums@);
                let lo = i + 1 - k;
                assert forall|t: int| 0 <= t < set@.len() implies #[trigger] set@[t] == (
                    nums@[lo + t],
                    (lo + t) as usize,
                ) by {
                    assert(set@[t] == s0[t + 1]);
                }
                if m1 == gone {
                    let w = choose|t: int| 0 <= t < set@.len() && #[trigger] set@[t].0 == max_sf;
                    assert(set@[w].0 == f(lo + w));
                    assert(f(lo + w) == max_sf);
                    assert forall|x: int| lo <= x <= i implies #[trigger] f(x) <= max_sf by {
                        assert(set@[x - lo].0 == f(x));
                    }
                } else {
                    assert(f(i - k) == gone);
                    let w = choose|x: int| lo0 <= x <= i && #[trigger] f(x) == m1;
                    assert(w != i - k);
                    assert(f(w) == max_sf);
                    assert forall|x: int| lo <= x <= i implies #[trigger] f(x) <= max_sf by {
                        assert(f(x) <= m1);
                    }
                }
                assert(is_max_over(f, lo, i as int, Some(max_sf)));
            }
        }
        if i + 1 >= k {
            maxs.push(max_sf);
        }
        i = i + 1;
    }
    maxs
}

/// The largest first component among the pairs of `set`.
fn largest_first(set: &Vec<(i32, usize)>) -> (m: i32)
    requires
        set@.len() >= 1,
    ensures
        exists|t: int| 0 <= t < set@.len() && #[trigger] set@[t].0 == m,
        forall|t: int| 0 <= t < set@.len() ==> #[trigger] set@[t].0 <= m,
{
    let top = top_index(set);
    set[top].0
}

} // verus!
