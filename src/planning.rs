use vstd::prelude::*;

verus! {

/// The attractions of the first `k` days spent in a city.
pub open spec fn prefix(city: Seq<usize>, k: int) -> int
    decreases k,
{
    if k <= 0 {
        0
    } else {
        prefix(city, k - 1) + city[k - 1]
    }
}

/// The attractions of every day in the first `c` cities.
pub open spec fn total(cs: Seq<Seq<usize>>, c: int) -> int
    decreases c,
{
    if c <= 0 {
        0
    } else {
        total(cs, c - 1) + prefix(cs[c - 1], cs[c - 1].len() as int)
    }
}

/// The most days one can spend in city `c - 1` out of `d`.
pub open spec fn cap(cs: Seq<Seq<usize>>, c: int, d: int) -> int {
    if c <= 0 {
        0
    } else if cs[c - 1].len() <= d {
        cs[c - 1].len() as int
    } else {
        d
    }
}

/// The most attractions in `d` days among the first `c` cities, spending at most `k` days
/// in city `c - 1` (each city's days taken from its first day on).
pub open spec fn opt(cs: Seq<Seq<usize>>, c: int, d: int, k: int) -> int
    decreases c, k,
{
    if c <= 0 {
        0
    } else if k <= 0 {
        opt(cs, c - 1, d, cap(cs, c - 1, d))
    } else {
        let skip = opt(cs, c, d, k - 1);
        let take = opt(cs, c - 1, d - k, cap(cs, c - 1, d - k)) + prefix(cs[c - 1], k);
        if skip >= take {
            skip
        } else {
            take
        }
    }
}

/// The most attractions in `d` days among the first `c` cities.
pub open spec fn best(cs: Seq<Seq<usize>>, c: int, d: int) -> int {
    opt(cs, c, d, cap(cs, c, d))
}

/// The attractions of the plan that spends `ks[i]` days (from the first on) in city `i`,
/// for each of the first `ks.len()` cities.
pub open spec fn plan_value(cs: Seq<Seq<usize>>, ks: Seq<int>) -> int
    decreases ks.len(),
{
    if ks.len() == 0 {
        0
    } else {
        plan_value(cs, ks.drop_last()) + prefix(cs[ks.len() - 1], ks.last())
    }
}

/// The days the plan `ks` takes.
pub open spec fn plan_days(ks: Seq<int>) -> int
    decreases ks.len(),
{
    if ks.len() == 0 {
        0
    } else {
        plan_days(ks.drop_last()) + ks.last()
    }
}

/// `ks` plans the first `c` cities within `d` days.
pub open spec fn plan_ok(cs: Seq<Seq<usize>>, c: int, d: int, ks: Seq<int>) -> bool {
    &&& ks.len() == c
    &&& forall|i: int| 0 <= i < c ==> 0 <= #[trigger] ks[i] <= cs[i].len()
    &&& plan_days(ks) <= d
}

proof fn lemma_plan_days_nonneg(cs: Seq<Seq<usize>>, ks: Seq<int>)
    requires
        forall|i: int| 0 <= i < ks.len() ==> 0 <= #[trigger] ks[i] <= cs[i].len(),
    ensures
        plan_days(ks) >= 0,
    decreases ks.len(),
{
    if ks.len() > 0 {
        let r = ks.drop_last();
        assert forall|i: int| 0 <= i < r.len() implies 0 <= #[trigger] r[i] <= cs[i].len() by {
            assert(r[i] == ks[i]);
        }
        lemma_plan_days_nonneg(cs, r);
        assert(ks[ks.len() - 1] >= 0);
    }
}

/// `opt` is the best over the days `j <= k` spent in city `c - 1`.
proof fn lemma_opt_choice(cs: Seq<Seq<usize>>, c: int, d: int, k: int)
    requires
        1 <= c,
        0 <= k,
    ensures
        forall|j: int|
            0 <= j <= k ==> #[trigger] best(cs, c - 1, d - j) + prefix(cs[c - 1], j) <= opt(cs, c, d, k),
        exists|j: int| 0 <= j <= k && #[trigger] best(cs, c - 1, d - j) + prefix(cs[c - 1], j) == opt(cs, c, d, k),
    decreases k,
{
    if k == 0 {
        assert(best(cs, c - 1, d - 0) + prefix(cs[c - 1], 0) == opt(cs, c, d, 0));
    } else {
        lemma_opt_choice(cs, c, d, k - 1);
        assert(best(cs, c - 1, d - k) + prefix(cs[c - 1], k) <= opt(cs, c, d, k));
        if opt(cs, c, d, k) != opt(cs, c, d, k - 1) {
            assert(best(cs, c - 1, d - k) + prefix(cs[c - 1], k) == opt(cs, c, d, k));
        }
    }
}

/// The planning value is a true optimum: no plan of the first `c` cities within `d` days
/// sees more attractions than `best(cs, c, d)`, and some plan sees exactly that many.
pub proof fn lemma_best_is_optimal(cs: Seq<Seq<usize>>, c: int, d: int)
    requires
        0 <= c <= cs.len(),
        0 <= d,
    ensures
        forall|ks: Seq<int>| #[trigger] plan_ok(cs, c, d, ks) ==> plan_value(cs, ks) <= best(cs, c, d),
        exists|ks: Seq<int>| #[trigger] plan_ok(cs, c, d, ks) && plan_value(cs, ks) == best(cs, c, d),
    decreases c,
{
    if c == 0 {
        let e = Seq::<int>::empty();
        assert(plan_ok(cs, 0, d, e));
        assert forall|ks: Seq<int>| #[trigger] plan_ok(cs, c, d, ks) implies plan_value(cs, ks) <= best(cs, c, d) by {
            assert(ks.len() == 0);
        }
    } else {
        let cap_k = cap(cs, c, d);
        lemma_opt_choice(cs, c, d, cap_k);
        assert forall|ks: Seq<int>| #[trigger] plan_ok(cs, c, d, ks) implies plan_value(cs, ks) <= best(cs, c, d) by {
            let j = ks.last();
            let r = ks.drop_last();
            assert forall|i: int| 0 <= i < r.len() implies 0 <= #[trigger] r[i] <= cs[i].len() by {
                assert(r[i] == ks[i]);
            }
            lemma_plan_days_nonneg(cs, r);
            assert(0 <= ks[c - 1] <= cs[c - 1].len());
            assert(plan_ok(cs, c - 1, d - j, r));
            lemma_best_is_optimal(cs, c - 1, d - j);
            assert(plan_value(cs, r) <= best(cs, c - 1, d - j));
            assert(j <= cap_k);
            assert(best(cs, c - 1, d - j) + prefix(cs[c - 1], j) <= opt(cs, c, d, cap_k));
        }
        let j = choose|j: int| 0 <= j <= cap_k && #[trigger] best(cs, c - 1, d - j) + prefix(cs[c - 1], j)
            == opt(cs, c, d, cap_k);
        lemma_best_is_optimal(cs, c - 1, d - j);
        let r = choose|ks: Seq<int>| #[trigger] plan_ok(cs, c - 1, d - j, ks) && plan_value(cs, ks) == best(cs, c - 1, d - j);
        let ks = r.push(j);
        assert(ks.drop_last() =~= r);
        assert forall|i: int| 0 <= i < c implies 0 <= #[trigger] ks[i] <= cs[i].len() by {
            if i < c - 1 {
                assert(ks[i] == r[i]);
            }
        }
        assert(plan_ok(cs, c, d, ks));
    }
}

/// The cities' days as plain sequences.
pub open spec fn days_of(cities: Seq<Vec<usize>>) -> Seq<Seq<usize>> {
    cities.map_values(|v: Vec<usize>| v@)
}

proof fn lemma_prefix_mono(city: Seq<usize>, k: int, j: int)
    requires
        0 <= k <= j <= city.len(),
    ensures
        0 <= prefix(city, k) <= prefix(city, j),
    decreases j - k,
{
    if k < j {
        lemma_prefix_mono(city, k, j - 1);
    } else {
        lemma_prefix_nonneg(city, k);
    }
}

proof fn lemma_prefix_nonneg(city: Seq<usize>, k: int)
    ensures
        0 <= prefix(city, k),
    decreases k,
{
    if k > 0 {
        lemma_prefix_nonneg(city, k - 1);
    }
}

proof fn lemma_total_nonneg(cs: Seq<Seq<usize>>, c: int)
    ensures
        0 <= total(cs, c),
    decreases c,
{
    if c > 0 {
        lemma_total_nonneg(cs, c - 1);
        lemma_prefix_nonneg(cs[c - 1], cs[c - 1].len() as int);
    }
}

proof fn lemma_total_mono(cs: Seq<Seq<usize>>, c: int, e: int)
    requires
        0 <= c <= e <= cs.len(),
    ensures
        0 <= total(cs, c) <= total(cs, e),
    decreases e - c,
{
    if c < e {
        lemma_total_mono(cs, c, e - 1);
        lemma_prefix_mono(cs[e - 1], 0, cs[e - 1].len() as int);
    } else {
        lemma_total_nonneg(cs, c);
    }
}

proof fn lemma_opt_bounds(cs: Seq<Seq<usize>>, c: int, d: int, k: int)
    requires
        0 <= c <= cs.len(),
        k <= cap(cs, c, d),
    ensures
        0 <= opt(cs, c, d, k) <= total(cs, c),
    decreases c, k,
{
    if c > 0 {
        lemma_total_mono(cs, c - 1, c);
        if k <= 0 {
            lemma_opt_bounds(cs, c - 1, d, cap(cs, c - 1, d));
        } else {
            lemma_opt_bounds(cs, c, d, k - 1);
            lemma_opt_bounds(cs, c - 1, d - k, cap(cs, c - 1, d - k));
            lemma_prefix_mono(cs[c - 1], k, cs[c - 1].len() as int);
        }
    }
}

/// The sums of the first `k` days of `city`, for every `k` from 0 to its length.
fn prefix_sums(city: &Vec<usize>, bound: Ghost<int>) -> (ps: Vec<usize>)
    requires
        prefix(city@, city@.len() as int) <= bound@,
        bound@ <= usize::MAX,
    ensures
        ps@.len() == city@.len() + 1,
        forall|k: int| 0 <= k < ps@.len() ==> #[trigger] ps@[k] == prefix(city@, k),
{
    let mut ps: Vec<usize> = Vec::new();
    ps.push(0);
    let mut day: usize = 0;
    while day < city.len()
        invariant
            day <= city@.len(),
            prefix(city@, city@.len() as int) <= bound@ <= usize::MAX,
            ps@.len() == day + 1,
            forall|k: int| 0 <= k < ps@.len() ==> #[trigger] ps@[k] == prefix(city@, k),
        decreases city@.len() - day,
    {
        proof {
            lemma_prefix_mono(city@, day + 1, city@.len() as int);
        }
        let next = ps[day] + city[day];
        ps.push(next);
        day = day + 1;
    }
    ps
}

/// The most attractions one can visit in `days` days, spending in each city some number of
/// days from its first day on and seeing that day's attractions.
pub fn holiday_planning(cities: Vec<Vec<usize>>, days: usize) -> (r: usize)
    requires
        days < usize::MAX,
        total(days_of(cities@), cities@.len() as int) <= usize::MAX,
    ensures
        r == best(days_of(cities@), cities@.len() as int, days as int),
        forall|ks: Seq<int>|
            #[trigger] plan_ok(days_of(cities@), cities@.len() as int, days as int, ks) ==> plan_value(
                days_of(cities@),
                ks,
            ) <= r,
        exists|ks: Seq<int>|
            #[trigger] plan_ok(days_of(cities@), cities@.len() as int, days as int, ks) && plan_value(
                days_of(cities@),
                ks,
            ) == r,
{
    let ghost cs = days_of(cities@);
    let ghost n = cities@.len() as int;
    let mut table: Vec<usize> = Vec::new();
    let mut i: usize = 0;
    while i <= days
        invariant
            i <= days + 1,
            days < usize::MAX,
            table@.len() == i,
            forall|d: int| 0 <= d < i ==> #[trigger] table@[d] == 0,
        decreases days + 1 - i,
    {
        table.push(0);
        i = i + 1;
    }
    let mut c: usize = 0;
    while c < cities.len()
        invariant
            cs == days_of(cities@),
            n == cities@.len(),
            c <= n,
            days < usize::MAX,
            total(cs, n) <= usize::MAX,
            table@.len() == days + 1,
            forall|d: int| 0 <= d <= days ==> #[trigger] table@[d] == best(cs, c as int, d),
        decreases n - c,
    {
        let city = &cities[c];
        proof {
            assert(city@ == cs[c as int]);
            lemma_total_mono(cs, c + 1, n);
            lemma_total_mono(cs, c as int, c + 1);
        }
        let prefix_sum = prefix_sums(city, Ghost(total(cs, n)));
        let mut d: usize = days + 1;
        while d > 0
            invariant
                cs == days_of(cities@),
                n == cities@.len(),
                c < n,
                city@ == cs[c as int],
                days < usize::MAX,
                total(cs, c + 1) <= total(cs, n) <= usize::MAX,
                d <= days + 1,
                prefix_sum@.len() == city@.len() + 1,
                forall|k: int| 0 <= k < prefix_sum@.len() ==> #[trigger] prefix_sum@[k] == prefix(city@, k),
                table@.len() == days + 1,
                forall|x: int| d <= x <= days ==> #[trigger] table@[x] == best(cs, c + 1, x),
                forall|x: int| 0 <= x < d ==> #[trigger] table@[x] == best(cs, c as int, x),
            decreases d,
        {
            d = d - 1;
            let lim = if city.len() <= d {
                city.len()
            } else {
                d
            };
            let mut k: usize = 1;
            while k <= lim
                invariant
                    cs == days_of(cities@),
                    n == cities@.len(),
                    c < n,
                    city@ == cs[c as int],
                    total(cs, c + 1) <= usize::MAX,
                    d <= days < usize::MAX,
                    lim == cap(cs, c + 1, d as int),
                    lim <= d,
                    1 <= k <= lim + 1,
                    prefix_sum@.len() == city@.len() + 1,
                    forall|j: int| 0 <= j < prefix_sum@.len() ==> #[trigger] prefix_sum@[j] == prefix(city@, j),
                    table@.len() == days + 1,
                    table@[d as int] == opt(cs, c + 1, d as int, k - 1),
                    forall|x: int| d < x <= days ==> #[trigger] table@[x] == best(cs, c + 1, x),
                    forall|x: int| 0 <= x < d ==> #[trigger] table@[x] == best(cs, c as int, x),
                decreases lim + 1 - k,
            {
                proof {
                    assert(table@[d - k] == best(cs, c as int, d - k));
                    lemma_opt_bounds(cs, c as int, d - k, cap(cs, c as int, d - k));
                    lemma_prefix_mono(city@, k as int, city@.len() as int);
                }
                let cand = table[d - k] + prefix_sum[k];
                if cand > table[d] {
                    table.set(d, cand);
                }
                k = k + 1;
            }
        }
        c = c + 1;
    }
    proof {
        lemma_best_is_optimal(cs, n, days as int);
    }
    table[days]
}

/// `a` comes no later than `b` when ordering topics by beauty, then by difficulty.
pub open spec fn topic_le(a: (usize, usize), b: (usize, usize)) -> bool {
    a.0 < b.0 || (a.0 == b.0 && a.1 <= b.1)
}

pub open spec fn sorted_topics(s: Seq<(usize, usize)>) -> bool {
    forall|i: int, j: int| 0 <= i < j < s.len() ==> topic_le(#[trigger] s[i], #[trigger] s[j])
}

/// `idx` picks positions of `d` below `n`, in increasing order, whose values strictly
/// increase.
pub open spec fn increasing_pick(d: Seq<usize>, n: int, idx: Seq<int>) -> bool {
    &&& forall|t: int| 0 <= t < idx.len() ==> 0 <= #[trigger] idx[t] < n
    &&& forall|t: int|
        0 <= t < idx.len() - 1 ==> #[trigger] idx[t] < idx[t + 1] && d[idx[t]] < d[idx[t + 1]]
}

/// `r` is the length of a longest strictly increasing subsequence of `d`.
pub open spec fn is_lis_len(d: Seq<usize>, r: int) -> bool {
    &&& exists|idx: Seq<int>| #[trigger] increasing_pick(d, d.len() as int, idx) && idx.len() == r
    &&& forall|idx: Seq<int>| #[trigger] increasing_pick(d, d.len() as int, idx) ==> idx.len() <= r
}

/// The difficulties of the topics, in order.
pub open spec fn difficulties(s: Seq<(usize, usize)>) -> Seq<usize> {
    s.map_values(|t: (usize, usize)| t.1)
}

/// The topics ordered by beauty, then by difficulty.
fn sort_topics(topics: &Vec<(usize, usize)>) -> (r: Vec<(usize, usize)>)
    ensures
        sorted_topics(r@),
        r@.to_multiset() == topics@.to_multiset(),
{
    broadcast use vstd::seq_lib::group_to_multiset_ensures;

    let mut r: Vec<(usize, usize)> = Vec::new();
    let mut i: usize = 0;
    while i < topics.len()
        invariant
            i <= topics@.len(),
            sorted_topics(r@),
            r@.to_multiset() == topics@.subrange(0, i as int).to_multiset(),
        decreases topics@.len() - i,
    {
        let x = topics[i];
        let mut pos: usize = 0;
        while pos < r.len() && (r[pos].0 < x.0 || (r[pos].0 == x.0 && r[pos].1 <= x.1))
            invariant
                pos <= r@.len(),
                forall|t: int| 0 <= t < pos ==> topic_le(#[trigger] r@[t], x),
            decreases r@.len() - pos,
        {
            pos = pos + 1;
        }
        let ghost r0 = r@;
        r.insert(pos, x);
        proof {
            assert(r@ == r0.insert(pos as int, x));
            assert forall|a: int, b: int| 0 <= a < b < r@.len() implies topic_le(#[trigger] r@[a], #[trigger] r@[b]) by {
                if b < pos {
                    assert(r@[a] == r0[a] && r@[b] == r0[b]);
                } else if b == pos {
                    assert(r@[a] == r0[a]);
                } else if a < pos {
                    assert(r@[a] == r0[a] && r@[b] == r0[b - 1]);
                    assert(!topic_le(r0[pos as int], x));
                    if b - 1 > pos {
                        assert(topic_le(r0[pos as int], r0[b - 1]));
                    }
                } else if a == pos {
                    assert(r@[b] == r0[b - 1]);
                    assert(!topic_le(r0[pos as int], x));
                    if b - 1 > pos {
                        assert(topic_le(r0[pos as int], r0[b - 1]));
                    }
                } else {
                    assert(r@[a] == r0[a - 1] && r@[b] == r0[b - 1]);
                }
            }
            vstd::seq_lib::to_multiset_insert(r0, pos as int, x);
            assert(topics@.subrange(0, i + 1) =~= topics@.subrange(0, i as int).push(x));
            vstd::seq_lib::to_multiset_build(topics@.subrange(0, i as int), x);
        }
        i = i + 1;
    }
    proof {
        assert(topics@.subrange(0, topics@.len() as int) =~= topics@);
    }
    r
}

/// Where `x` belongs in the strictly increasing `table`: the first position whose value is
/// at least `x`, and whether that value is `x`.
fn search(table: &Vec<usize>, x: usize) -> (r: (bool, usize))
    requires
        forall|a: int, b: int| 0 <= a < b < table@.len() ==> #[trigger] table@[a] < #[trigger] table@[b],
    ensures
        r.1 <= table@.len(),
        forall|t: int| 0 <= t < r.1 ==> #[trigger] table@[t] < x,
        forall|t: int| r.1 <= t < table@.len() ==> #[trigger] table@[t] >= x,
        r.0 == (r.1 < table@.len() && table@[r.1 as int] == x),
{
    let mut lo: usize = 0;
    let mut hi: usize = table.len();
    while lo < hi
        invariant
            lo <= hi <= table@.len(),
            forall|a: int, b: int| 0 <= a < b < table@.len() ==> #[trigger] table@[a] < #[trigger] table@[b],
            forall|t: int| 0 <= t < lo ==> #[trigger] table@[t] < x,
            forall|t: int| hi <= t < table@.len() ==> #[trigger] table@[t] >= x,
        decreases hi - lo,
    {
        let mid = lo + (hi - lo) / 2;
        if table[mid] < x {
            lo = mid + 1;
        } else {
            hi = mid;
        }
    }
    (lo < table.len() && table[lo] == x, lo)
}

/// The most topics a course can cover, taking them in order of beauty (then difficulty)
/// with strictly increasing difficulty.
pub fn design_course(topics: Vec<(usize, usize)>) -> (r: usize)
    ensures
        exists|s: Seq<(usize, usize)>|
            sorted_topics(s) && s.to_multiset() == topics@.to_multiset() && is_lis_len(
                #[trigger] difficulties(s),
                r as int,
            ),
{
    let sorted = sort_topics(&topics);
    let ghost d = difficulties(sorted@);
    let mut table: Vec<usize> = Vec::new();
    let ghost mut chains: Seq<Seq<int>> = Seq::empty();
    let mut i: usize = 0;
    proof {
        assert forall|idx: Seq<int>| #[trigger] increasing_pick(d, 0, idx) && idx.len() >= 1 implies
            table@.len() >= idx.len() && table@[idx.len() - 1] <= d[idx.last()] by {
            lemma_no_pick_before_start(d, idx);
        }
    }
    while i < sorted.len()
        invariant
            d == difficulties(sorted@),
            i <= sorted@.len(),
            strictly_increasing(table@),
            chains_ok(d, i as int, table@, chains),
            table_bounds(d, i as int, table@),
        decreases sorted@.len() - i,
    {
        let difficulty = sorted[i].1;
        let ghost t0 = table@;
        let ghost c0 = chains;
        let (found, pos) = search(&table, difficulty);
        proof {
            assert(d[i as int] == difficulty);
        }
        if !found {
            if pos == table.len() {
                table.push(difficulty);
            } else {
                table.set(pos, difficulty);
            }
        }
        proof {
            assert(step_pre(d, i as int, t0, table@, pos as int, found));
            chains = lemma_step(d, i as int, t0, c0, table@, pos as int, found);
        }
        i = i + 1;
    }
    proof {
        let n = d.len() as int;
        assert(d.len() == sorted@.len());
        if table@.len() > 0 {
            let w = chains[table@.len() - 1];
            assert(increasing_pick(d, n, w));
        } else {
            let w = Seq::<int>::empty();
            assert(increasing_pick(d, n, w));
        }
        assert forall|idx: Seq<int>| #[trigger] increasing_pick(d, n, idx) implies idx.len() <= table@.len() by {
            if idx.len() >= 1 {
                assert(increasing_pick(d, i as int, idx));
            }
        }
        assert(is_lis_len(difficulties(sorted@), table@.len() as int));
    }
    table.len()
}

pub open spec fn strictly_increasing(t: Seq<usize>) -> bool {
    forall|a: int, b: int| 0 <= a < b < t.len() ==> #[trigger] t[a] < #[trigger] t[b]
}

/// Slot `j` of the table ends a strictly increasing pick of length `j + 1` among the first
/// `n` positions, as witnessed by `chains[j]`.
pub open spec fn chains_ok(d: Seq<usize>, n: int, table: Seq<usize>, chains: Seq<Seq<int>>) -> bool {
    &&& chains.len() == table.len()
    &&& forall|j: int|
        0 <= j < table.len() ==> increasing_pick(d, n, #[trigger] chains[j]) && chains[j].len() == j
            + 1 && d[chains[j].last()] == table[j]
}

/// Every strictly increasing pick among the first `n` positions is no longer than the
/// table, and the table's slot for its length holds at most its last value.
pub open spec fn table_bounds(d: Seq<usize>, n: int, table: Seq<usize>) -> bool {
    forall|idx: Seq<int>|
        #[trigger] increasing_pick(d, n, idx) && idx.len() >= 1 ==> table.len() >= idx.len()
            && table[idx.len() - 1] <= d[idx.last()]
}

/// The facts about a search for `d[i]` in the table `t0` and the table `t1` after it.
pub open spec fn step_pre(d: Seq<usize>, i: int, t0: Seq<usize>, t1: Seq<usize>, pos: int, found: bool) -> bool {
    &&& 0 <= i < d.len()
    &&& strictly_increasing(t0)
    &&& 0 <= pos <= t0.len()
    &&& forall|t: int| 0 <= t < pos ==> #[trigger] t0[t] < d[i]
    &&& forall|t: int| pos <= t < t0.len() ==> #[trigger] t0[t] >= d[i]
    &&& found == (pos < t0.len() && t0[pos] == d[i])
    &&& t1 == if found {
        t0
    } else if pos == t0.len() {
        t0.push(d[i])
    } else {
        t0.update(pos, d[i])
    }
}

/// One step of the table: position `i` placed at `pos`, the first slot not below it.
proof fn lemma_step(
    d: Seq<usize>,
    i: int,
    t0: Seq<usize>,
    c0: Seq<Seq<int>>,
    t1: Seq<usize>,
    pos: int,
    found: bool,
) -> (c1: Seq<Seq<int>>)
    requires
        step_pre(d, i, t0, t1, pos, found),
        chains_ok(d, i, t0, c0),
        table_bounds(d, i, t0),
    ensures
        strictly_increasing(t1),
        chains_ok(d, i + 1, t1, c1),
        table_bounds(d, i + 1, t1),
{
    lemma_step_increasing(d, i, t0, t1, pos, found);
    let c1 = lemma_step_chains(d, i, t0, c0, t1, pos, found);
    lemma_step_bounds(d, i, t0, t1, pos, found);
    c1
}

proof fn lemma_step_increasing(d: Seq<usize>, i: int, t0: Seq<usize>, t1: Seq<usize>, pos: int, found: bool)
    requires
        step_pre(d, i, t0, t1, pos, found),
    ensures
        strictly_increasing(t1),
{
    assert forall|a: int, b: int| 0 <= a < b < t1.len() implies #[trigger] t1[a] < #[trigger] t1[b] by {
        if !found {
            if a != pos && b != pos {
                assert(t1[a] == t0[a] && t1[b] == t0[b]);
            } else if a == pos {
                assert(t1[b] == t0[b]);
            } else {
                assert(t1[a] == t0[a]);
            }
        }
    }
}

#[verifier::rlimit(60)]
proof fn lemma_step_chains(
    d: Seq<usize>,
    i: int,
    t0: Seq<usize>,
    c0: Seq<Seq<int>>,
    t1: Seq<usize>,
    pos: int,
    found: bool,
) -> (c1: Seq<Seq<int>>)
    requires
        step_pre(d, i, t0, t1, pos, found),
        chains_ok(d, i, t0, c0),
    ensures
        chains_ok(d, i + 1, t1, c1),
{
    let chain = if pos == 0 {
        seq![i]
    } else {
        c0[pos - 1].push(i)
    };
    if pos > 0 {
        let c = c0[pos - 1];
        assert(increasing_pick(d, i, c));
        assert forall|t: int| 0 <= t < chain.len() implies 0 <= #[trigger] chain[t] < i + 1 by {
            if t < c.len() {
                assert(chain[t] == c[t]);
            }
        }
        assert forall|t: int| 0 <= t < chain.len() - 1 implies #[trigger] chain[t] < chain[t + 1]
            && d[chain[t]] < d[chain[t + 1]] by {
            if t < c.len() - 1 {
                assert(chain[t] == c[t] && chain[t + 1] == c[t + 1]);
            } else {
                assert(chain[t] == c.last());
                assert(t0[pos - 1] < d[i]);
            }
        }
    }
    assert(increasing_pick(d, i + 1, chain));
    let c1 = if found {
        c0
    } else if pos == t0.len() {
        c0.push(chain)
    } else {
        c0.update(pos, chain)
    };
    assert forall|j: int| 0 <= j < t1.len() implies increasing_pick(d, i + 1, #[trigger] c1[j])
        && c1[j].len() == j + 1 && d[c1[j].last()] == t1[j] by {
        if found || j != pos {
            let c = c0[j];
            assert(c1[j] == c);
            assert(increasing_pick(d, i, c));
            assert forall|t: int| 0 <= t < c.len() implies 0 <= #[trigger] c[t] < i + 1 by {}
            assert(t1[j] == t0[j]);
        }
    }
    c1
}

#[verifier::rlimit(60)]
proof fn lemma_step_bounds(d: Seq<usize>, i: int, t0: Seq<usize>, t1: Seq<usize>, pos: int, found: bool)
    requires
        step_pre(d, i, t0, t1, pos, found),
        table_bounds(d, i, t0),
    ensures
        table_bounds(d, i + 1, t1),
{
    assert forall|idx: Seq<int>| #[trigger] increasing_pick(d, i + 1, idx) && idx.len() >= 1 implies
        t1.len() >= idx.len() && t1[idx.len() - 1] <= d[idx.last()] by {
        let l = idx.len() as int;
        if idx.last() < i {
            assert forall|t: int| 0 <= t < idx.len() implies 0 <= #[trigger] idx[t] < i by {
                if t < l - 1 {
                    lemma_pick_increasing(d, i + 1, idx, t, l - 1);
                }
            }
            assert(increasing_pick(d, i, idx));
            assert(t0[l - 1] <= d[idx.last()]);
        } else {
            lemma_step_bounds_ending(d, i, t0, t1, pos, found, idx);
        }
    }
}

proof fn lemma_step_bounds_ending(
    d: Seq<usize>,
    i: int,
    t0: Seq<usize>,
    t1: Seq<usize>,
    pos: int,
    found: bool,
    idx: Seq<int>,
)
    requires
        step_pre(d, i, t0, t1, pos, found),
        table_bounds(d, i, t0),
        increasing_pick(d, i + 1, idx),
        idx.len() >= 1,
        idx.last() == i,
    ensures
        t1.len() >= idx.len() && t1[idx.len() - 1] <= d[idx.last()],
{
    let l = idx.len() as int;
    if l >= 2 {
        let prev = idx.drop_last();
        assert(idx[l - 2] < idx[l - 1]);
        assert forall|t: int| 0 <= t < prev.len() implies 0 <= #[trigger] prev[t] < i by {
            assert(prev[t] == idx[t]);
            lemma_pick_increasing(d, i + 1, idx, t, l - 2);
        }
        assert forall|t: int| 0 <= t < prev.len() - 1 implies #[trigger] prev[t] < prev[t + 1]
            && d[prev[t]] < d[prev[t + 1]] by {
            assert(prev[t] == idx[t] && prev[t + 1] == idx[t + 1]);
        }
        assert(increasing_pick(d, i, prev));
        assert(t0[l - 2] <= d[prev.last()]);
        assert(prev.last() == idx[l - 2]);
        assert(d[idx[l - 2]] < d[idx[l - 1]]);
        assert(pos >= l - 1);
    }
}

/// No nonempty pick lies among zero positions.
proof fn lemma_no_pick_before_start(d: Seq<usize>, idx: Seq<int>)
    requires
        increasing_pick(d, 0, idx),
    ensures
        idx.len() == 0,
{
    if idx.len() > 0 {
        let x = idx[0];
        assert(0 <= x < 0);
    }
}

/// Positions picked later are larger.
proof fn lemma_pick_increasing(d: Seq<usize>, n: int, idx: Seq<int>, a: int, b: int)
    requires
        increasing_pick(d, n, idx),
        0 <= a <= b < idx.len(),
    ensures
        idx[a] <= idx[b],
    decreases b - a,
{
    if a < b {
        lemma_pick_increasing(d, n, idx, a, b - 1);
        assert(idx[b - 1] < idx[b]);
    }
}

} // verus!
