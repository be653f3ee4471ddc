//! Distributing candies: boxes of given capacities receive a sequence of range
//! updates, each clamped to the box's capacity.
use vstd::prelude::*;
use vstd::math::{min, max};

pub mod segtree;

use segtree::{
    SegTree, INF, iabs, load_limit, lemma_root_extremes, range_min, range_max, suffix_min, suffix_max, wide, last_wide, last_wide_upto,
    lemma_range_min_split, lemma_suffix_split, lemma_suffix_mono, lemma_suffix_bounds,
    lemma_last_wide_upto_le,
};

verus! {

/// `x` clamped to `0..=c`.
pub open spec fn clamp(x: int, c: int) -> int {
    if x < 0 {
        0
    } else if x > c {
        c
    } else {
        x
    }
}

/// A box of capacity `c` that holds `s` at time `a` and whose content moves by
/// `p[t] - p[t - 1]` at each later time `t`, clamped to `0..=c`: its content at time `k`.
pub open spec fn walk(p: Seq<int>, c: int, a: int, s: int, k: int) -> int
    decreases k - a,
{
    if k <= a {
        s
    } else {
        clamp(walk(p, c, a, s, k - 1) + p[k] - p[k - 1], c)
    }
}

proof fn lemma_walk_range(p: Seq<int>, c: int, a: int, s: int, k: int)
    requires
        0 <= s <= c,
    ensures
        0 <= walk(p, c, a, s, k) <= c,
    decreases k - a,
{
    if k > a {
        lemma_walk_range(p, c, a, s, k - 1);
    }
}

proof fn lemma_walk_compose(p: Seq<int>, c: int, x: int, k: int)
    requires
        0 <= x <= k,
    ensures
        walk(p, c, 0, 0, k) == walk(p, c, x, walk(p, c, 0, 0, x), k),
    decreases k,
{
    if k > x {
        lemma_walk_compose(p, c, x, k - 1);
    }
}

proof fn lemma_range_last(v: Seq<int>, a: int, k: int)
    requires
        a < k,
    ensures
        range_min(v, a, k) == min(range_min(v, a, k - 1), v[k]),
        range_max(v, a, k) == max(range_max(v, a, k - 1), v[k]),
{
    lemma_range_min_split(v, a, k - 1, k);
}

/// Bounds on every value of a range bound its minimum and maximum.
proof fn lemma_range_within(v: Seq<int>, a: int, b: int, lo: int, hi: int)
    requires
        a <= b,
        forall|t: int| a <= t <= b ==> lo <= #[trigger] v[t] <= hi,
    ensures
        lo <= range_min(v, a, b) <= hi,
        lo <= range_max(v, a, b) <= hi,
    decreases b - a,
{
    if a < b {
        lemma_range_within(v, a + 1, b, lo, hi);
    }
}

proof fn lemma_suffix_contains(v: Seq<int>, a: int, t: int)
    requires
        0 <= a <= t < v.len(),
    ensures
        suffix_min(v, a) <= v[t] <= suffix_max(v, a),
    decreases t - a,
{
    if a < t {
        lemma_suffix_contains(v, a + 1, t);
    }
}

/// Starting from `0` while the values never spread over more than `c`, the box holds
/// the rise of `p` above its running minimum.
proof fn lemma_walk_unclamped(p: Seq<int>, c: int, k: int)
    requires
        0 <= k < p.len(),
        forall|t: int| 0 <= t <= k ==> p[t] - #[trigger] range_min(p, 0, t) <= c,
    ensures
        walk(p, c, 0, 0, k) == p[k] - range_min(p, 0, k),
    decreases k,
{
    if k > 0 {
        lemma_walk_unclamped(p, c, k - 1);
        lemma_range_last(p, 0, k);
        assert(p[k] - range_min(p, 0, k) <= c);
    }
}

/// From a time `x` at which `p` is at its lowest for the rest of `x..=hi`, and after
/// which it spreads over less than `c`, the box rises with `p` until it is full and
/// then follows `p` down from the running maximum.
proof fn lemma_walk_from_low(p: Seq<int>, c: int, x: int, s: int, k: int, hi: int)
    requires
        0 <= x <= k <= hi < p.len(),
        0 <= s <= c,
        forall|t: int| x <= t <= hi ==> p[x] <= #[trigger] p[t],
        forall|t: int, u: int| x < t <= hi && x < u <= hi ==> #[trigger] p[t] - #[trigger] p[u] < c,
    ensures
        walk(p, c, x, s, k) == if s + range_max(p, x, k) - p[x] < c {
            s + p[k] - p[x]
        } else {
            c - (range_max(p, x, k) - p[k])
        },
    decreases k - x,
{
    if k > x {
        lemma_walk_from_low(p, c, x, s, k - 1, hi);
        lemma_range_last(p, x, k);
        assert(p[x] <= p[k]);
        let r = range_max(p, x, k - 1);
        if s + r - p[x] >= c && r > p[k] {
            // The running maximum lies after `x`.
            if x < k - 1 {
                lemma_range_min_split(p, x, x, k - 1);
                if range_max(p, x + 1, k - 1) < r {
                    assert(r == p[x]);
                } else {
                    lemma_range_within(p, x + 1, k - 1, p[k] - c + 1, p[k] + c);
                    assert forall|t: int| x + 1 <= t <= k - 1 implies p[k] - c + 1 <= #[trigger] p[t] <= p[k] + c by {
                        assert(p[t] - p[k] < c);
                        assert(p[k] - p[t] < c);
                    }
                    lemma_range_within(p, x + 1, k - 1, p[k] - c + 1, p[k] + c - 1);
                }
            }
        }
    }
}

/// The mirror image of `lemma_walk_from_low`: from a time at which `p` is at its
/// highest, the box falls with `p` until it is empty and then follows `p` up from the
/// running minimum.
proof fn lemma_walk_from_high(p: Seq<int>, c: int, x: int, s: int, k: int, hi: int)
    requires
        0 <= x <= k <= hi < p.len(),
        0 <= s <= c,
        forall|t: int| x <= t <= hi ==> #[trigger] p[t] <= p[x],
        forall|t: int, u: int| x < t <= hi && x < u <= hi ==> #[trigger] p[t] - #[trigger] p[u] < c,
    ensures
        walk(p, c, x, s, k) == if s - (p[x] - range_min(p, x, k)) > 0 {
            s - (p[x] - p[k])
        } else {
            p[k] - range_min(p, x, k)
        },
    decreases k - x,
{
    if k > x {
        lemma_walk_from_high(p, c, x, s, k - 1, hi);
        lemma_range_last(p, x, k);
        assert(p[k] <= p[x]);
        let l = range_min(p, x, k - 1);
        if s - (p[x] - l) <= 0 && p[k] >= l {
            if x < k - 1 {
                lemma_range_min_split(p, x, x, k - 1);
                if range_min(p, x + 1, k - 1) > l {
                    assert(l == p[x]);
                } else {
                    assert forall|t: int| x + 1 <= t <= k - 1 implies p[k] - c + 1 <= #[trigger] p[t] <= p[k] + c - 1 by {
                        assert(p[t] - p[k] < c);
                        assert(p[k] - p[t] < c);
                    }
                    lemma_range_within(p, x + 1, k - 1, p[k] - c + 1, p[k] + c - 1);
                }
            }
        }
    }
}

/// Every `y` above the result of `last_wide_upto` up to `x` is not wide.
proof fn lemma_last_wide_upto_max(v: Seq<int>, d: int, x: int, y: int)
    requires
        last_wide_upto(v, d, x) < y <= x,
    ensures
        !wide(v, y, d),
    decreases x,
{
    if x > 0 && !wide(v, x, d) && y < x {
        lemma_last_wide_upto_max(v, d, x - 1, y);
    }
}

proof fn lemma_last_wide_upto_is_wide(v: Seq<int>, d: int, x: int)
    requires
        last_wide_upto(v, d, x) > 0,
    ensures
        wide(v, last_wide_upto(v, d, x), d),
    decreases x,
{
    if x > 0 && !wide(v, x, d) {
        lemma_last_wide_upto_is_wide(v, d, x - 1);
    }
}

/// What a box of capacity `c` holds after following `p` from `0`, in terms of the
/// rightmost suffix of `p` that spreads over at least `c`.
pub proof fn lemma_walk_outcome(p: Seq<int>, c: int)
    requires
        p.len() >= 1,
        c >= 0,
        forall|t: int| 0 <= t < p.len() ==> -INF < #[trigger] p[t] < INF,
    ensures
        ({
            let q = p.len() - 1;
            let w = walk(p, c, 0, 0, q);
            let x = last_wide(p, c);
            if suffix_max(p, 0) - suffix_min(p, 0) <= c {
                w == p[q] - suffix_min(p, 0)
            } else {
                &&& 0 <= x <= q
                &&& p[x] == suffix_min(p, x) || p[x] == suffix_max(p, x)
                &&& p[x] == suffix_min(p, x) ==> w == p[q] - suffix_max(p, x) + c
                &&& p[x] != suffix_min(p, x) ==> w == p[q] - suffix_min(p, x)
            }
        }),
{
    let q = p.len() - 1;
    lemma_suffix_split(p, 0, q);
    if suffix_max(p, 0) - suffix_min(p, 0) <= c {
        assert forall|t: int| 0 <= t <= q implies p[t] - #[trigger] range_min(p, 0, t) <= c by {
            lemma_suffix_split(p, 0, t);
            lemma_suffix_contains(p, 0, t);
        }
        lemma_walk_unclamped(p, c, q);
    } else {
        let x = last_wide(p, c);
        lemma_last_wide_upto_le(p, c, q);
        assert(wide(p, x, c)) by {
            if x > 0 {
                lemma_last_wide_upto_is_wide(p, c, q);
            } else {
                assert(wide(p, 0, c));
            }
        }
        // Past `x`, the values spread over less than `c`.
        let not_wide_next = x < q ==> !wide(p, x + 1, c);
        if x < q {
            lemma_last_wide_upto_max(p, c, q, x + 1);
        }
        assert forall|t: int, u: int| x < t <= q && x < u <= q implies #[trigger] p[t]
            - #[trigger] p[u] < c by {
            lemma_suffix_contains(p, x + 1, t);
            lemma_suffix_contains(p, x + 1, u);
        }
        assert(p[x] == suffix_min(p, x) || p[x] == suffix_max(p, x)) by {
            if x == q {
                assert(suffix_min(p, q + 1) == INF);
            }
        }
        let s = walk(p, c, 0, 0, x);
        lemma_walk_range(p, c, 0, 0, x);
        lemma_walk_compose(p, c, x, q);
        lemma_suffix_split(p, x, q);
        if x < q {
        } else {
            assert(suffix_min(p, q + 1) == INF);
            assert(suffix_max(p, q + 1) == -INF);
        }
        if p[x] == suffix_min(p, x) {
            assert forall|t: int| x <= t <= q implies p[x] <= #[trigger] p[t] by {
                lemma_suffix_contains(p, x, t);
            }
            lemma_walk_from_low(p, c, x, s, q, q);
        } else {
            assert forall|t: int| x <= t <= q implies #[trigger] p[t] <= p[x] by {
                lemma_suffix_contains(p, x, t);
            }
            lemma_walk_from_high(p, c, x, s, q, q);
        }
    }
}


/// One day's operation `(l, r, v)`: add `v` to boxes `l..=r`.
pub type Day = (i32, i32, i32);

/// How much day `day` asks to add to box `i`.
pub open spec fn effect(day: Day, i: int) -> int {
    if day.0 <= i <= day.1 {
        day.2 as int
    } else {
        0
    }
}

/// The candies in box `i`, of capacity `c`, after the first `t` days: each day adds
/// its amount and the result is clamped to `0..=c`.
pub open spec fn candies_after(c: int, days: Seq<Day>, i: int, t: int) -> int
    decreases t,
{
    if t <= 0 {
        0
    } else {
        clamp(candies_after(c, days, i, t - 1) + effect(days[t - 1], i), c)
    }
}

/// The days whose range covers box `i`, in order, each moved onto box 0 alone.
pub open spec fn days_at(days: Seq<Day>, i: int) -> Seq<Day>
    decreases days.len(),
{
    if days.len() == 0 {
        Seq::empty()
    } else {
        let rest = days_at(days.drop_last(), i);
        let d = days.last();
        if d.0 <= i <= d.1 {
            rest.push((0i32, 0i32, d.2))
        } else {
            rest
        }
    }
}

proof fn lemma_candies_range(c: int, days: Seq<Day>, i: int, t: int)
    requires
        c >= 0,
    ensures
        0 <= candies_after(c, days, i, t) <= c,
    decreases t,
{
    if t > 0 {
        lemma_candies_range(c, days, i, t - 1);
    }
}

/// The first `t` days alone decide the candies after `t` days.
proof fn lemma_candies_prefix(c: int, days: Seq<Day>, more: Seq<Day>, i: int, t: int)
    requires
        0 <= t <= days.len(),
        t <= more.len(),
        forall|k: int| 0 <= k < t ==> #[trigger] days[k] == more[k],
    ensures
        candies_after(c, days, i, t) == candies_after(c, more, i, t),
    decreases t,
{
    if t > 0 {
        lemma_candies_prefix(c, days, more, i, t - 1);
    }
}

/// Each box goes its own way: the candies in box `i` after all the days are those
/// of a lone box of the same capacity given only the days that cover `i`, in order.
pub proof fn law_box_alone(c: int, days: Seq<Day>, i: int)
    requires
        c >= 0,
    ensures
        candies_after(c, days, i, days.len() as int) == candies_after(c, days_at(days, i), 0, days_at(days, i).len() as int),
    decreases days.len(),
{
    if days.len() > 0 {
        let rest = days.drop_last();
        law_box_alone(c, rest, i);
        lemma_candies_prefix(c, rest, days, i, rest.len() as int);
        let d = days.last();
        let a = days_at(rest, i);
        if d.0 <= i <= d.1 {
            let b = a.push((0i32, 0i32, d.2));
            lemma_candies_prefix(c, a, b, 0, a.len() as int);
        } else {
            lemma_candies_range(c, rest, i, rest.len() as int);
        }
    }
}

/// Sum of `|v|` over the first `k` days.
pub open spec fn abs_total(days: Seq<Day>, k: int) -> int
    decreases k,
{
    if k <= 0 {
        0
    } else {
        abs_total(days, k - 1) + iabs(days[k - 1].2 as int)
    }
}

/// Every day's range `l..=r` lies within the `n` boxes.
pub open spec fn days_within(days: Seq<Day>, n: int) -> bool {
    forall|t: int| 0 <= t < days.len() ==> 0 <= #[trigger] days[t].0 <= days[t].1 < n
}

// Bookkeeping for the sweep over boxes: `started[t]` and `ended[t]` tell whether
// day `t`'s amount has been added to, and taken back from, the tree.

spec fn day_share(days: Seq<Day>, started: Seq<bool>, ended: Seq<bool>, t: int) -> int {
    (if started[t] { days[t].2 as int } else { 0 }) - (if ended[t] { days[t].2 as int } else { 0 })
}

spec fn level(days: Seq<Day>, started: Seq<bool>, ended: Seq<bool>, k: int) -> int
    decreases k,
{
    if k <= 0 {
        0
    } else {
        level(days, started, ended, k - 1) + day_share(days, started, ended, k - 1)
    }
}

spec fn spent(days: Seq<Day>, started: Seq<bool>, ended: Seq<bool>, k: int) -> int
    decreases k,
{
    if k <= 0 {
        0
    } else {
        spent(days, started, ended, k - 1) + (if started[k - 1] {
            iabs(days[k - 1].2 as int)
        } else {
            0
        }) + (if ended[k - 1] {
            iabs(days[k - 1].2 as int)
        } else {
            0
        })
    }
}

spec fn levels(days: Seq<Day>, started: Seq<bool>, ended: Seq<bool>) -> Seq<int> {
    Seq::new((days.len() + 1) as nat, |k: int| level(days, started, ended, k))
}

proof fn lemma_start_day(days: Seq<Day>, st: Seq<bool>, en: Seq<bool>, t: int, k: int)
    requires
        0 <= t < st.len(),
        k <= st.len(),
        !st[t],
    ensures
        level(days, st.update(t, true), en, k) == level(days, st, en, k) + if k > t {
            days[t].2 as int
        } else {
            0
        },
        spent(days, st.update(t, true), en, k) == spent(days, st, en, k) + if k > t {
            iabs(days[t].2 as int)
        } else {
            0
        },
    decreases k,
{
    if k > 0 {
        lemma_start_day(days, st, en, t, k - 1);
        let st2 = st.update(t, true);
        assert(st2[k - 1] == if k - 1 == t { true } else { st[k - 1] });
        assert(level(days, st2, en, k) == level(days, st2, en, k - 1) + day_share(days, st2, en, k - 1));
        assert(spent(days, st2, en, k) == spent(days, st2, en, k - 1) + (if st2[k - 1] {
            iabs(days[k - 1].2 as int)
        } else {
            0
        }) + (if en[k - 1] {
            iabs(days[k - 1].2 as int)
        } else {
            0
        }));
    }
}

proof fn lemma_end_day(days: Seq<Day>, st: Seq<bool>, en: Seq<bool>, t: int, k: int)
    requires
        0 <= t < en.len(),
        k <= en.len(),
        !en[t],
    ensures
        level(days, st, en.update(t, true), k) == level(days, st, en, k) - if k > t {
            days[t].2 as int
        } else {
            0
        },
        spent(days, st, en.update(t, true), k) == spent(days, st, en, k) + if k > t {
            iabs(days[t].2 as int)
        } else {
            0
        },
    decreases k,
{
    if k > 0 {
        lemma_end_day(days, st, en, t, k - 1);
        let en2 = en.update(t, true);
        assert(en2[k - 1] == if k - 1 == t { true } else { en[k - 1] });
        assert(level(days, st, en2, k) == level(days, st, en2, k - 1) + day_share(days, st, en2, k - 1));
        assert(spent(days, st, en2, k) == spent(days, st, en2, k - 1) + (if st[k - 1] {
            iabs(days[k - 1].2 as int)
        } else {
            0
        }) + (if en2[k - 1] {
            iabs(days[k - 1].2 as int)
        } else {
            0
        }));
    }
}

proof fn lemma_spent_bound(days: Seq<Day>, st: Seq<bool>, en: Seq<bool>, k: int)
    ensures
        spent(days, st, en, k) <= 2 * abs_total(days, k),
        abs_total(days, k) >= 0,
    decreases k,
{
    if k > 0 {
        lemma_spent_bound(days, st, en, k - 1);
    }
}

proof fn lemma_abs_total_mono(days: Seq<Day>, j: int, k: int)
    requires
        j <= k,
    ensures
        abs_total(days, j) <= abs_total(days, k),
    decreases k - j,
{
    if j < k {
        lemma_abs_total_mono(days, j, k - 1);
    }
}

proof fn lemma_level_bound(days: Seq<Day>, st: Seq<bool>, en: Seq<bool>, k: int)
    requires
        k <= st.len(),
        k <= en.len(),
        forall|t: int| 0 <= t < k && #[trigger] en[t] ==> st[t],
    ensures
        iabs(level(days, st, en, k)) <= abs_total(days, k),
    decreases k,
{
    if k > 0 {
        lemma_level_bound(days, st, en, k - 1);
    }
}

/// Once exactly the days whose range covers box `i` are active, the levels are the
/// running sums of what the days ask of box `i`, and the clamped walk along them is
/// the box's content.
proof fn lemma_levels_follow_box(
    days: Seq<Day>,
    st: Seq<bool>,
    en: Seq<bool>,
    c: int,
    i: int,
    k: int,
)
    requires
        0 <= k <= days.len(),
        st.len() == days.len(),
        en.len() == days.len(),
        forall|t: int| 0 <= t < days.len() ==> #[trigger] st[t] == (days[t].0 <= i) && en[t] == (days[t].1 < i),
        forall|t: int| 0 <= t < days.len() ==> #[trigger] days[t].0 <= days[t].1,
    ensures
        walk(levels(days, st, en), c, 0, 0, k) == candies_after(c, days, i, k),
    decreases k,
{
    if k > 0 {
        lemma_levels_follow_box(days, st, en, c, i, k - 1);
        assert(st[k - 1] == (days[k - 1].0 <= i));
        assert(en[k - 1] == (days[k - 1].1 < i));
        let lv = levels(days, st, en);
        assert(lv[k] == level(days, st, en, k));
        assert(lv[k - 1] == level(days, st, en, k - 1));
        assert(level(days, st, en, k) == level(days, st, en, k - 1) + day_share(days, st, en, k - 1));
        assert(lv[k] - lv[k - 1] == effect(days[k - 1], i));
    }
}

/// The start buckets: `b[p]` lists, in increasing order, the days before `upto` whose
/// range starts at box `p`.
spec fn start_buckets(b: Seq<Vec<usize>>, days: Seq<Day>, upto: int) -> bool {
    &&& forall|p: int, j: int|
        0 <= p < b.len() && 0 <= j < b[p].len() ==> #[trigger] b[p]@[j] < upto && days[b[p]@[j] as int].0 == p
    &&& forall|p: int, j1: int, j2: int|
        0 <= p < b.len() && 0 <= j1 < j2 < b[p].len() ==> #[trigger] b[p]@[j1] < #[trigger] b[p]@[j2]
    &&& forall|t: int| 0 <= t < upto ==> #[trigger] b[days[t].0 as int]@.contains(t as usize)
}

/// The end buckets: `b[p]` lists, in increasing order, the days before `upto` whose
/// range ends just before box `p`.
spec fn end_buckets(b: Seq<Vec<usize>>, days: Seq<Day>, upto: int) -> bool {
    &&& forall|p: int, j: int|
        0 <= p < b.len() && 0 <= j < b[p].len() ==> #[trigger] b[p]@[j] < upto && days[b[p]@[j] as int].1 + 1 == p
    &&& forall|p: int, j1: int, j2: int|
        0 <= p < b.len() && 0 <= j1 < j2 < b[p].len() ==> #[trigger] b[p]@[j1] < #[trigger] b[p]@[j2]
    &&& forall|t: int| 0 <= t < upto && days[t].1 + 1 < b.len() ==> #[trigger] b[days[t].1 + 1]@.contains(t as usize)
}

/// Distributes candies: box `i` has capacity `c[i]` and starts empty; on each day
/// `(l, r, v)` every box in `l..=r` gains `v` candies (or loses `-v`), staying between
/// `0` and its capacity. Returns the final content of every box.
pub fn solve(c: Vec<i32>, days: Vec<Day>) -> (result: Vec<i32>)
    requires
        days.len() < 0x2000_0000,
        days_within(days@, c.len() as int),
        forall|i: int| 0 <= i < c.len() ==> #[trigger] c[i] >= 0,
        abs_total(days@, days.len() as int) < INF,
    ensures
        result.len() == c.len(),
        forall|i: int| 0 <= i < c.len() ==> #[trigger] result[i] as int == candies_after(c[i] as int, days@, i, days.len() as int),
{
    let n = c.len();
    let q = days.len();
    let ghost ds = days@;
    let ghost qi = q as int;

    let mut starts: Vec<Vec<usize>> = Vec::new();
    let mut ends: Vec<Vec<usize>> = Vec::new();
    while starts.len() < n
        invariant
            starts.len() == ends.len() <= n,
            forall|p: int| 0 <= p < starts.len() ==> (#[trigger] starts@[p]).len() == 0,
            forall|p: int| 0 <= p < ends.len() ==> (#[trigger] ends@[p]).len() == 0,
        decreases n - starts.len(),
    {
        starts.push(Vec::new());
        ends.push(Vec::new());
    }
    let mut day: usize = 0;
    while day < q
        invariant
            q == days.len(),
            ds == days@,
            n == c.len(),
            days_within(ds, n as int),
            starts.len() == n,
            ends.len() == n,
            day <= q,
            start_buckets(starts@, ds, day as int),
            end_buckets(ends@, ds, day as int),
        decreases q - day,
    {
        let (l, r, _v) = days[day];
        let ghost old_starts = starts@;
        starts[l as usize].push(day);
        proof {
            assert(starts@ == old_starts.update(l as int, starts@[l as int]));
            assert(starts@[l as int]@ == old_starts[l as int]@.push(day));
            assert forall|p: int, j: int|
                0 <= p < starts@.len() && 0 <= j < starts@[p].len() implies #[trigger] starts@[p]@[j] < day + 1 && ds[starts@[p]@[j] as int].0 == p by {
                if p != l as int || j < old_starts[p].len() {
                    assert(starts@[p]@[j] == old_starts[p]@[j]);
                }
            }
            assert forall|p: int, j1: int, j2: int|
                0 <= p < starts@.len() && 0 <= j1 < j2 < starts@[p].len() implies #[trigger] starts@[p]@[j1] < #[trigger] starts@[p]@[j2] by {
                if p == l as int && j2 == old_starts[p].len() {
                    assert(starts@[p]@[j1] == old_starts[p]@[j1]);
                } else {
                    assert(starts@[p]@[j1] == old_starts[p]@[j1]);
                    assert(starts@[p]@[j2] == old_starts[p]@[j2]);
                }
            }
            assert forall|t: int| 0 <= t < day + 1 implies #[trigger] starts@[ds[t].0 as int]@.contains(t as usize) by {
                if t < day {
                    let e = ds[t].0 as int;
                    assert(old_starts[e]@.contains(t as usize));
                    let j = choose|j: int| 0 <= j < old_starts[e].len() && old_starts[e]@[j] == t as usize;
                    assert(starts@[e]@[j] == t as usize);
                } else {
                    assert(starts@[l as int]@[old_starts[l as int].len() as int] == day);
                }
            }
        }
        let end = r as usize + 1;
        if end < n {
            let ghost old_ends = ends@;
            ends[end].push(day);
            proof {
                assert(ends@ == old_ends.update(end as int, ends@[end as int]));
                assert(ends@[end as int]@ == old_ends[end as int]@.push(day));
                assert forall|p: int, j: int|
                    0 <= p < ends@.len() && 0 <= j < ends@[p].len() implies #[trigger] ends@[p]@[j] < day + 1 && ds[ends@[p]@[j] as int].1 + 1 == p by {
                    if p != end as int || j < old_ends[p].len() {
                        assert(ends@[p]@[j] == old_ends[p]@[j]);
                    }
                }
                assert forall|p: int, j1: int, j2: int|
                    0 <= p < ends@.len() && 0 <= j1 < j2 < ends@[p].len() implies #[trigger] ends@[p]@[j1] < #[trigger] ends@[p]@[j2] by {
                    if p == end as int && j2 == old_ends[p].len() {
                        assert(ends@[p]@[j1] == old_ends[p]@[j1]);
                    } else {
                        assert(ends@[p]@[j1] == old_ends[p]@[j1]);
                        assert(ends@[p]@[j2] == old_ends[p]@[j2]);
                    }
                }
                assert forall|t: int| 0 <= t < day + 1 && ds[t].1 + 1 < ends@.len() implies #[trigger] ends@[ds[t].1 + 1]@.contains(t as usize) by {
                    if t < day {
                        let e = ds[t].1 + 1;
                        assert(0 <= ds[t].0 <= ds[t].1);
                        assert(old_ends[e]@.contains(t as usize));
                        let j = choose|j: int| 0 <= j < old_ends[e].len() && old_ends[e]@[j] == t as usize;
                        if e == end as int {
                            assert(ends@[e]@ == old_ends[e]@.push(day));
                        } else {
                            assert(ends@[e] == old_ends[e]);
                        }
                        assert(ends@[e]@[j] == t as usize);
                    } else {
                        assert(ends@[end as int]@[old_ends[end as int].len() as int] == day);
                    }
                }
            }
        }
        day = day + 1;
    }

    let mut t = SegTree::new(q as i32);
    let ghost mut st: Seq<bool> = Seq::new(qi as nat, |k: int| false);
    let ghost mut en: Seq<bool> = Seq::new(qi as nat, |k: int| false);
    proof {
        assert(t@ =~= levels(ds, st, en)) by {
            assert forall|k: int| 0 <= k <= qi implies level(ds, st, en, k) == 0 by {
                lemma_level_zero(ds, st, en, k);
            }
        }
        lemma_spent_zero(ds, st, en, qi);
        lemma_level_zero(ds, st, en, qi);
        assert forall|k: int| 0 <= k < qi implies #[trigger] en[k] == (ds[k].1 + 1 < 0) by {
            assert(0 <= ds[k].0 <= ds[k].1);
        }
    }
    let mut last_value: i64 = 0;
    let mut result: Vec<i32> = Vec::new();
    let mut i: usize = 0;
    while i < n
        invariant
            q == days.len(),
            ds == days@,
            qi == q,
            n == c.len(),
            q < 0x2000_0000,
            days_within(ds, n as int),
            forall|i: int| 0 <= i < c.len() ==> #[trigger] c[i] >= 0,
            abs_total(ds, qi) < INF,
            starts.len() == n,
            ends.len() == n,
            start_buckets(starts@, ds, qi),
            end_buckets(ends@, ds, qi),
            i <= n,
            st.len() == qi,
            en.len() == qi,
            forall|k: int| 0 <= k < qi ==> #[trigger] st[k] == (ds[k].0 < i),
            forall|k: int| 0 <= k < qi ==> #[trigger] en[k] == (ds[k].1 + 1 < i),
            t.wf(),
            t.n == q,
            t@ == levels(ds, st, en),
            t.load() == spent(ds, st, en, qi),
            last_value == level(ds, st, en, qi),
            result.len() == i,
            forall|j: int| 0 <= j < i ==> #[trigger] result[j] as int == candies_after(c[j] as int, ds, j, qi),
        decreases n - i,
    {
        let mut j: usize = 0;
        let bucket = &starts[i];
        proof {
            assert forall|k: int| 0 <= k < qi implies #[trigger] st[k] == (ds[k].0 < i || bucket@.subrange(0, 0).contains(k as usize)) by {
                assert(!bucket@.subrange(0, 0).contains(k as usize));
            }
        }
        while j < bucket.len()
            invariant
                q == days.len(),
                ds == days@,
                qi == q,
                n == c.len(),
                i < n,
                abs_total(ds, qi) < INF,
                bucket == starts@[i as int],
                starts.len() == n,
                start_buckets(starts@, ds, qi),
                j <= bucket.len(),
                st.len() == qi,
                en.len() == qi,
                forall|k: int| 0 <= k < qi ==> #[trigger] st[k] == (ds[k].0 < i || bucket@.subrange(0, j as int).contains(k as usize)),
                forall|k: int| 0 <= k < qi ==> #[trigger] en[k] == (ds[k].1 + 1 < i),
                t.wf(),
                t.n == q,
                t@ == levels(ds, st, en),
                t.load() == spent(ds, st, en, qi),
                last_value == level(ds, st, en, qi),
                forall|k: int| 0 <= k < qi && #[trigger] en[k] ==> st[k],
            decreases bucket.len() - j,
        {
            let d = bucket[j];
            let v = days[d].2;
            proof {
                let dd = d as int;
                assert(ds[dd].0 == i);
                assert(!st[dd]) by {
                    if bucket@.subrange(0, j as int).contains(d) {
                        let k = choose|k: int| 0 <= k < j && bucket@.subrange(0, j as int)[k] == d;
                        assert(bucket@[k] < bucket@[j as int]);
                    }
                }
                lemma_start_day(ds, st, en, dd, qi);
                lemma_spent_bound(ds, st.update(dd, true), en, qi);
                lemma_level_bound_upd(ds, st, en, dd);
            }
            t.add(d as i32 + 1, q as i32, v as i64);
            last_value = last_value + v as i64;
            proof {
                let dd = d as int;
                let sub0 = bucket@.subrange(0, j as int);
                let sub1 = bucket@.subrange(0, j + 1);
                let st2 = st.update(dd, true);
                assert forall|k: int| 0 <= k <= qi implies #[trigger] levels(ds, st2, en)[k] == t@[k] by {
                    lemma_start_day(ds, st, en, dd, k);
                }
                assert(t@ =~= levels(ds, st2, en));
                assert forall|k: int| 0 <= k < qi implies #[trigger] st2[k] == (ds[k].0 < i || sub1.contains(k as usize)) by {
                    if k == dd {
                        assert(sub1[j as int] == d);
                    } else if sub1.contains(k as usize) {
                        let m = choose|m: int| 0 <= m < j + 1 && sub1[m] == k as usize;
                        assert(sub0[m] == k as usize);
                    } else if sub0.contains(k as usize) {
                        let m = choose|m: int| 0 <= m < j && sub0[m] == k as usize;
                        assert(sub1[m] == k as usize);
                    }
                }
                st = st2;
            }
            j = j + 1;
        }
        proof {
            assert forall|k: int| 0 <= k < qi implies #[trigger] st[k] == (ds[k].0 <= i) by {
                if ds[k].0 == i {
                    assert(starts@[i as int]@.contains(k as usize));
                    let m = choose|m: int| 0 <= m < bucket.len() && bucket@[m] == k as usize;
                    assert(bucket@.subrange(0, j as int)[m] == k as usize);
                } else if bucket@.subrange(0, j as int).contains(k as usize) {
                    let m = choose|m: int| 0 <= m < j && bucket@.subrange(0, j as int)[m] == k as usize;
                    assert(bucket@[m] == k as usize);
                }
            }
        }

        let mut j: usize = 0;
        let bucket = &ends[i];
        proof {
            assert forall|k: int| 0 <= k < qi implies #[trigger] en[k] == (ds[k].1 + 1 < i || bucket@.subrange(0, 0).contains(k as usize)) by {
                assert(!bucket@.subrange(0, 0).contains(k as usize));
            }
        }
        while j < bucket.len()
            invariant
                q == days.len(),
                ds == days@,
                qi == q,
                n == c.len(),
                i < n,
                abs_total(ds, qi) < INF,
                bucket == ends@[i as int],
                ends.len() == n,
                end_buckets(ends@, ds, qi),
                j <= bucket.len(),
                st.len() == qi,
                en.len() == qi,
                forall|k: int| 0 <= k < qi ==> #[trigger] st[k] == (ds[k].0 <= i),
                forall|k: int| 0 <= k < qi ==> #[trigger] en[k] == (ds[k].1 + 1 < i || bucket@.subrange(0, j as int).contains(k as usize)),
                days_within(ds, n as int),
                t.wf(),
                t.n == q,
                t@ == levels(ds, st, en),
                t.load() == spent(ds, st, en, qi),
                last_value == level(ds, st, en, qi),
            decreases bucket.len() - j,
        {
            let d = bucket[j];
            let v = days[d].2;
            proof {
                let dd = d as int;
                assert(ds[dd].1 + 1 == i);
                assert(!en[dd]) by {
                    if bucket@.subrange(0, j as int).contains(d) {
                        let k = choose|k: int| 0 <= k < j && bucket@.subrange(0, j as int)[k] == d;
                        assert(bucket@[k] < bucket@[j as int]);
                    }
                }
                lemma_end_day(ds, st, en, dd, qi);
                lemma_spent_bound(ds, st, en.update(dd, true), qi);
                assert forall|k: int| 0 <= k < qi && #[trigger] en.update(dd, true)[k] implies st[k] by {
                    if k != dd && en[k] {
                        assert(ds[k].1 + 1 < i || bucket@.subrange(0, j as int).contains(k as usize));
                        if bucket@.subrange(0, j as int).contains(k as usize) {
                            let m = choose|m: int| 0 <= m < j && bucket@.subrange(0, j as int)[m] == k as usize;
                            assert(bucket@[m] == k as usize);
                        }
                    }
                }
                lemma_level_bound(ds, st, en.update(dd, true), qi);
            }
            t.add(d as i32 + 1, q as i32, -(v as i64));
            last_value = last_value - v as i64;
            proof {
                let dd = d as int;
                let sub0 = bucket@.subrange(0, j as int);
                let sub1 = bucket@.subrange(0, j + 1);
                let en2 = en.update(dd, true);
                assert forall|k: int| 0 <= k <= qi implies #[trigger] levels(ds, st, en2)[k] == t@[k] by {
                    lemma_end_day(ds, st, en, dd, k);
                }
                assert(t@ =~= levels(ds, st, en2));
                assert forall|k: int| 0 <= k < qi implies #[trigger] en2[k] == (ds[k].1 + 1 < i || sub1.contains(k as usize)) by {
                    if k == dd {
                        assert(sub1[j as int] == d);
                    } else if sub1.contains(k as usize) {
                        let m = choose|m: int| 0 <= m < j + 1 && sub1[m] == k as usize;
                        assert(sub0[m] == k as usize);
                    } else if sub0.contains(k as usize) {
                        let m = choose|m: int| 0 <= m < j && sub0[m] == k as usize;
                        assert(sub1[m] == k as usize);
                    }
                }
                en = en2;
            }
            j = j + 1;
        }
        let cap = c[i];
        let ghost pv = t@;
        proof {
            assert forall|k: int| 0 <= k < qi implies #[trigger] en[k] == (ds[k].1 < i) by {
                if ds[k].1 + 1 == i {
                    assert(ends@[i as int]@.contains(k as usize));
                    let m = choose|m: int| 0 <= m < bucket.len() && bucket@[m] == k as usize;
                    assert(bucket@.subrange(0, j as int)[m] == k as usize);
                } else if bucket@.subrange(0, j as int).contains(k as usize) {
                    let m = choose|m: int| 0 <= m < j && bucket@.subrange(0, j as int)[m] == k as usize;
                    assert(bucket@[m] == k as usize);
                }
            }
            assert forall|k: int| 0 <= k < pv.len() implies -INF < #[trigger] pv[k] < INF by {
                lemma_level_bound(ds, st, en, k);
                lemma_abs_total_mono(ds, k, qi);
            }
            lemma_root_extremes(&t);
            lemma_walk_outcome(pv, cap as int);
            lemma_levels_follow_box(ds, st, en, cap as int, i as int, qi);
            lemma_walk_range(pv, cap as int, 0, 0, qi);
            lemma_suffix_bounds(pv, 0);
        }
        let root = t.nodes[1];
        let value = if root.max - root.min <= cap as i64 {
            last_value - root.min
        } else {
            let (x_val, min, max) = t.find_point(cap as i64);
            proof {
                let x = last_wide(pv, cap as int);
                lemma_suffix_bounds(pv, x);
            }
            if x_val == min {
                last_value - max + cap as i64
            } else {
                last_value - min
            }
        };
        result.push(value as i32);
        i = i + 1;
    }
    result
}

proof fn lemma_level_zero(days: Seq<Day>, st: Seq<bool>, en: Seq<bool>, k: int)
    requires
        k <= st.len(),
        k <= en.len(),
        forall|t: int| 0 <= t < st.len() ==> !#[trigger] st[t],
        forall|t: int| 0 <= t < en.len() ==> !#[trigger] en[t],
    ensures
        level(days, st, en, k) == 0,
    decreases k,
{
    if k > 0 {
        lemma_level_zero(days, st, en, k - 1);
    }
}

proof fn lemma_spent_zero(days: Seq<Day>, st: Seq<bool>, en: Seq<bool>, k: int)
    requires
        k <= st.len(),
        k <= en.len(),
        forall|t: int| 0 <= t < st.len() ==> !#[trigger] st[t],
        forall|t: int| 0 <= t < en.len() ==> !#[trigger] en[t],
    ensures
        spent(days, st, en, k) == 0,
    decreases k,
{
    if k > 0 {
        lemma_spent_zero(days, st, en, k - 1);
    }
}

proof fn lemma_level_bound_upd(days: Seq<Day>, st: Seq<bool>, en: Seq<bool>, d: int)
    requires
        0 <= d < st.len(),
        st.len() == en.len(),
        forall|t: int| 0 <= t < st.len() && #[trigger] en[t] ==> st[t],
    ensures
        iabs(level(days, st.update(d, true), en, st.len() as int)) <= abs_total(days, st.len() as int),
{
    let st2 = st.update(d, true);
    assert forall|t: int| 0 <= t < st.len() && #[trigger] en[t] implies st2[t] by {}
    lemma_level_bound(days, st2, en, st.len() as int);
}

} // verus!
