use vstd::prelude::*;

verus! {

pub open spec fn max_of2(a: int, b: int) -> int {
    if a >= b {
        a
    } else {
        b
    }
}

/// The highest bar among positions `0..=i`.
pub open spec fn highest_left(h: Seq<i32>, i: int) -> int
    decreases i,
{
    if i <= 0 {
        h[0] as int
    } else {
        max_of2(highest_left(h, i - 1), h[i] as int)
    }
}

/// The highest bar among positions `i..` to the end.
pub open spec fn highest_right(h: Seq<i32>, i: int) -> int
    decreases h.len() - i,
{
    if i >= h.len() - 1 {
        h[h.len() - 1] as int
    } else {
        max_of2(highest_right(h, i + 1), h[i] as int)
    }
}

/// The water standing above position `i`: up to the lower of the highest bars on either
/// side, including the position itself.
pub open spec fn cell(h: Seq<i32>, i: int) -> int {
    let l = highest_left(h, i);
    let r = highest_right(h, i);
    (if l <= r {
        l
    } else {
        r
    }) - h[i]
}

/// The water standing above positions `a..b`.
pub open spec fn water_between(h: Seq<i32>, a: int, b: int) -> int
    decreases b - a,
{
    if a >= b {
        0
    } else {
        cell(h, a) + water_between(h, a + 1, b)
    }
}

/// All the water the elevation map `h` traps.
pub open spec fn trapped(h: Seq<i32>) -> int {
    water_between(h, 0, h.len() as int)
}

proof fn lemma_left_max_mono(h: Seq<i32>, i: int, j: int)
    requires
        0 <= i <= j < h.len(),
    ensures
        highest_left(h, i) <= highest_left(h, j),
        h[j] as int <= highest_left(h, j),
    decreases j - i,
{
    if i < j {
        lemma_left_max_mono(h, i, j - 1);
    }
}

proof fn lemma_right_max_mono(h: Seq<i32>, i: int, j: int)
    requires
        0 <= i <= j < h.len(),
    ensures
        highest_right(h, j) <= highest_right(h, i),
        h[i] as int <= highest_right(h, i),
    decreases j - i,
{
    if i < j {
        lemma_right_max_mono(h, i + 1, j);
    }
}

proof fn lemma_water_append(h: Seq<i32>, a: int, b: int)
    requires
        a <= b,
    ensures
        water_between(h, a, b + 1) == water_between(h, a, b) + cell(h, b),
    decreases b - a,
{
    if a < b {
        lemma_water_append(h, a + 1, b);
    } else {
        assert(water_between(h, b + 1, b + 1) == 0);
        assert(water_between(h, a, b) == 0);
    }
}

proof fn lemma_water_split(h: Seq<i32>, a: int, m: int, b: int)
    requires
        a <= m <= b,
        0 <= a,
        b <= h.len(),
    ensures
        water_between(h, a, b) == water_between(h, a, m) + water_between(h, m, b),
        water_between(h, a, m) >= 0,
    decreases m - a,
{
    if a < m {
        lemma_right_max_mono(h, a, a);
        lemma_left_max_mono(h, a, a);
        lemma_water_split(h, a + 1, m, b);
    }
}

/// How much water the elevation map `height` traps after raining, each bar one wide.
pub fn trap(height: Vec<i32>) -> (water: i32)
    requires
        height@.len() >= 1,
        forall|i: int| 0 <= i < height@.len() ==> #[trigger] height@[i] >= 0,
        trapped(height@) <= i32::MAX,
    ensures
        water == trapped(height@),
{
    let ghost h = height@;
    let ghost n = h.len() as int;
    let mut left: usize = 0;
    let mut right: usize = height.len() - 1;
    let mut left_max = height[left];
    let mut right_max = height[right];
    let mut water: i32 = 0;
    proof {
        lemma_left_max_mono(h, 0, 0);
        lemma_right_max_mono(h, n - 1, n - 1);
        assert(water_between(h, 1, 1) == 0);
        assert(water_between(h, n, n) == 0);
        assert(water_between(h, 0, 1) == cell(h, 0));
        assert(water_between(h, n - 1, n) == cell(h, n - 1));
        lemma_left_max_mono(h, 0, n - 1);
        lemma_right_max_mono(h, 0, n - 1);
    }
    while left < right
        invariant
            h == height@,
            n == h.len(),
            forall|i: int| 0 <= i < n ==> #[trigger] h[i] >= 0,
            trapped(h) <= i32::MAX,
            0 <= left <= right < n,
            left_max == highest_left(h, left as int),
            right_max == highest_right(h, right as int),
            left_max < right_max ==> height@[right as int] == right_max,
            left_max >= right_max ==> height@[left as int] == left_max,
            water == water_between(h, 0, left + 1) + water_between(h, right as int, n) - (if left
                == right {
                cell(h, left as int)
            } else {
                0
            }),
        decreases right - left,
    {
        if left_max < right_max {
            left = left + 1;
            let ghost lm0 = left_max;
            if height[left] > left_max {
                left_max = height[left];
            }
            proof {
                lemma_right_max_mono(h, left as int, right as int);
                lemma_left_max_mono(h, left as int, left as int);
                lemma_water_append(h, 0, left as int);
                lemma_water_split(h, 0, left + 1, n);
                if left < right {
                    lemma_water_split(h, left + 1, right as int, n);
                } else {
                    assert(left_max == h[left as int]);
                    assert(water_between(h, right as int, n) == cell(h, right as int) + water_between(h, right + 1, n));
                }
            }
            water = water + (left_max - height[left]);
        } else {
            right = right - 1;
            if height[right] > right_max {
                right_max = height[right];
            }
            proof {
                lemma_left_max_mono(h, left as int, right as int);
                lemma_right_max_mono(h, right as int, right as int);
                lemma_water_split(h, 0, left + 1, n);
                if left < right {
                    lemma_water_split(h, left + 1, right as int, n);
                } else {
                    assert(right_max == h[right as int]);
                }
            }
            water = water + (right_max - height[right]);
        }
    }
    proof {
        lemma_water_split(h, 0, left + 1, n);
        assert(water_between(h, left as int, n) == cell(h, left as int) + water_between(h, left + 1, n));
    }
    water
}

} // verus!
