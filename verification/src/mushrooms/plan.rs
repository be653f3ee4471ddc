//! The plan of the full strategy: which bit problems to run, one after the other, so
//! that the final counting phase takes as few queries as possible.
use vstd::prelude::*;
use crate::candies::segtree::pow_two;
use crate::mushrooms::bits::{BitsProblem, pow2};

verus! {

/// Mushrooms that a run of the problem of level `m` makes known: its bits and the
/// extra mushroom of each of its queries.
pub open spec fn step(bp: Seq<BitsProblem>, m: int) -> int {
    bp[m].n + pow_two(m as nat)
}

/// Known mushrooms after the first `p` problems of `plan`, starting with `from`.
pub open spec fn reach(bp: Seq<BitsProblem>, plan: Seq<usize>, from: int, p: int) -> int
    decreases p,
{
    if p <= 0 {
        from
    } else {
        reach(bp, plan, from, p - 1) + step(bp, plan[p - 1] as int)
    }
}

/// Each problem of `plan` is one of the ten levels, and when it starts at least its
/// `min_known` mushrooms are known.
pub open spec fn steps_ok(bp: Seq<BitsProblem>, plan: Seq<usize>, from: int) -> bool {
    forall|p: int|
        0 <= p < plan.len() ==> #[trigger] plan[p] <= 9 && reach(bp, plan, from, p) >= bp[plan[p] as int].min_known
}

/// Running `plan` from the three mushrooms known after the first two queries ends
/// with `best` known mushrooms.
pub open spec fn plan_ok(bp: Seq<BitsProblem>, plan: Seq<usize>, best: int) -> bool {
    &&& steps_ok(bp, plan, 3)
    &&& reach(bp, plan, 3, plan.len() as int) == best
}

/// Running `m` first and then `s` is running `s` from where `m` ends.
proof fn lemma_reach_prepend(bp: Seq<BitsProblem>, m: usize, s: Seq<usize>, from: int, p: int)
    requires
        0 <= p <= s.len(),
    ensures
        reach(bp, seq![m] + s, from, p + 1) == reach(bp, s, from + step(bp, m as int), p),
    decreases p,
{
    let t = seq![m] + s;
    if p > 0 {
        lemma_reach_prepend(bp, m, s, from, p - 1);
        assert(t[p] == s[p - 1]);
        assert(reach(bp, t, from, p + 1) == reach(bp, t, from, p) + step(bp, t[p] as int));
        assert(reach(bp, s, from + step(bp, m as int), p) == reach(bp, s, from + step(bp, m as int), p - 1) + step(bp, s[p - 1] as int));
    } else {
        assert(t[0] == m);
        assert(reach(bp, t, from, 0) == from);
        assert(reach(bp, t, from, 1) == reach(bp, t, from, 0) + step(bp, t[0] as int));
    }
}

/// Each level makes more mushrooms known than the one below it.
pub open spec fn steps_grow(bp: Seq<BitsProblem>) -> bool {
    forall|m: int| 0 <= m < 9 ==> #[trigger] step(bp, m) < step(bp, m + 1)
}

/// The cost of reaching `x` known mushrooms with level `m` run last: the queries to
/// reach `x - step(m)` and then the `2^m` of the level; 10000 where `m` cannot run
/// there.
pub open spec fn via_cost(bp: Seq<BitsProblem>, x: int, m: int) -> int {
    let i = x - step(bp, m);
    if 0 <= i < x && i >= bp[m].min_known {
        reach_cost(bp, i) + pow_two(m as nat)
    } else {
        10000
    }
}

/// The fewest queries after which `x` mushrooms are known, running bit problems from
/// the three known after the first two queries; 10000 where none reaches `x`.
pub open spec fn reach_cost(bp: Seq<BitsProblem>, x: int) -> int
    decreases x, 11int,
{
    if x < 3 {
        10000
    } else if x == 3 {
        2
    } else {
        best_via(bp, x, 0)
    }
}

/// The cheapest way to reach `x` with one of the levels `m..10` run last, and 10000.
pub open spec fn best_via(bp: Seq<BitsProblem>, x: int, m: int) -> int
    decreases x, 10 - m,
{
    if m < 0 || m >= 10 {
        10000
    } else {
        let i = x - step(bp, m);
        let c = if 0 <= i < x && i >= bp[m].min_known {
            reach_cost(bp, i) + pow_two(m as nat)
        } else {
            10000
        };
        let rest = best_via(bp, x, m + 1);
        if c < rest {
            c
        } else {
            rest
        }
    }
}

/// The highest of the levels `0..=m` that reaches `x` at the cheapest cost (0 if
/// none does).
pub open spec fn top_level(bp: Seq<BitsProblem>, x: int, m: int) -> int
    decreases m,
{
    if m <= 0 {
        0
    } else if via_cost(bp, x, m) == reach_cost(bp, x) {
        m
    } else {
        top_level(bp, x, m - 1)
    }
}

/// The levels of the cheapest way to reach `x`, in the order they run; where ways
/// tie, the one whose last level is highest.
pub open spec fn plan_to(bp: Seq<BitsProblem>, x: int) -> Seq<usize>
    decreases x,
{
    if x <= 3 || reach_cost(bp, x) >= 10000 {
        Seq::empty()
    } else {
        let m = top_level(bp, x, 9);
        let i = x - step(bp, m);
        if 0 <= i < x {
            plan_to(bp, i).push(m as usize)
        } else {
            Seq::empty()
        }
    }
}

/// Queries of the counting phase with `known` mushrooms known and `remaining` left:
/// each counts `(known + 1) / 2` of them and makes one more known.
pub open spec fn finish_steps(known: int, remaining: int) -> int
    decreases (if remaining > 0 { remaining } else { 0 }),
{
    if remaining <= 0 || known < 1 {
        0
    } else {
        1 + finish_steps(known + 1, remaining - (known + 1) / 2)
    }
}

/// All the queries: reaching `i` known mushrooms, then counting the other `n - i`.
pub open spec fn total_cost(bp: Seq<BitsProblem>, n: int, i: int) -> int {
    reach_cost(bp, i) + finish_steps(i, n - i)
}

/// Level `m` has been tried for entry `x` once the table has gone through the
/// entries before `ii` and the levels before `mm` of entry `ii`.
spec fn tried(bp: Seq<BitsProblem>, x: int, m: int, ii: int, mm: int) -> bool {
    let i = x - step(bp, m);
    i < ii || (i == ii && m < mm)
}

/// The cheapest of the tried levels among `m..10`, and 10000.
spec fn tried_best(bp: Seq<BitsProblem>, x: int, m: int, ii: int, mm: int) -> int
    decreases 10 - m,
{
    if m < 0 || m >= 10 {
        10000
    } else {
        let c = if tried(bp, x, m, ii, mm) { via_cost(bp, x, m) } else { 10000 };
        let rest = tried_best(bp, x, m + 1, ii, mm);
        if c < rest {
            c
        } else {
            rest
        }
    }
}

/// `dp_m[x]` is the highest of the tried levels that reach `x` at the cost `dp[x]`.
spec fn holder_ok(bp: Seq<BitsProblem>, dp: Seq<usize>, dp_m: Seq<usize>, x: int, ii: int, mm: int) -> bool {
    dp[x] < 10000 && x != 3 ==> {
        let k = dp_m[x] as int;
        &&& k <= 9
        &&& tried(bp, x, k, ii, mm)
        &&& via_cost(bp, x, k) == dp[x]
        &&& forall|m: int| k < m <= 9 && #[trigger] tried(bp, x, m, ii, mm) ==> via_cost(bp, x, m) > dp[x]
    }
}

/// The table holds the cheapest tried costs, and the highest levels that give them.
spec fn exact_ok(bp: Seq<BitsProblem>, dp: Seq<usize>, dp_m: Seq<usize>, ii: int, mm: int) -> bool {
    &&& forall|x: int| 0 <= x < 1000 && x != 3 ==> #[trigger] dp[x] == tried_best(bp, x, 0, ii, mm)
    &&& forall|x: int| 0 <= x < 1000 ==> #[trigger] holder_ok(bp, dp, dp_m, x, ii, mm)
}

proof fn lemma_pow_two_ge1(m: int)
    ensures
        pow_two(m as nat) >= 1,
{
    crate::candies::segtree::lemma_pow_two_pos(m as nat);
}

/// Below three known mushrooms, nothing is reached.
proof fn lemma_via_low(bp: Seq<BitsProblem>, x: int, m: int)
    requires
        x - step(bp, m) < 3,
    ensures
        via_cost(bp, x, m) >= 10000,
{
    lemma_pow_two_ge1(m);
}

/// The cheapest tried cost is at most 10000, and at most the cost of each tried level.
proof fn lemma_tried_best_le(bp: Seq<BitsProblem>, x: int, m: int, ii: int, mm: int, k: int)
    requires
        0 <= m,
    ensures
        tried_best(bp, x, m, ii, mm) <= 10000,
        m <= k < 10 && tried(bp, x, k, ii, mm) ==> tried_best(bp, x, m, ii, mm) <= via_cost(bp, x, k),
    decreases 10 - m,
{
    if m < 10 {
        lemma_tried_best_le(bp, x, m + 1, ii, mm, k);
    }
}

/// Nothing tried yet can do better than 10000, when only entries below 2 are tried.
proof fn lemma_tried_best_init(bp: Seq<BitsProblem>, x: int, m: int)
    requires
        0 <= m,
    ensures
        tried_best(bp, x, m, 2, 0) == 10000,
    decreases 10 - m,
{
    if m < 10 {
        lemma_tried_best_init(bp, x, m + 1);
        if tried(bp, x, m, 2, 0) {
            lemma_via_low(bp, x, m);
        }
    }
}

/// Trying level `mm` of entry `ii` changes only entry `ii + step(mm)`.
proof fn lemma_tried_best_step(bp: Seq<BitsProblem>, x: int, m: int, ii: int, mm: int)
    requires
        0 <= m,
        0 <= mm < 10,
    ensures
        tried_best(bp, x, m, ii, mm + 1) == if m <= mm && x - step(bp, mm) == ii {
            let a = tried_best(bp, x, m, ii, mm);
            let b = via_cost(bp, x, mm);
            if b < a { b } else { a }
        } else {
            tried_best(bp, x, m, ii, mm)
        },
    decreases 10 - m,
{
    if m < 10 {
        lemma_tried_best_step(bp, x, m + 1, ii, mm);
        lemma_tried_best_le(bp, x, m + 1, ii, mm, 0);
        lemma_tried_best_le(bp, x, m + 1, ii, mm + 1, 0);
    }
}

/// Trying all levels of entry `ii` is trying the entries before `ii + 1`.
proof fn lemma_tried_best_next(bp: Seq<BitsProblem>, x: int, m: int, ii: int)
    requires
        0 <= m,
    ensures
        tried_best(bp, x, m, ii, 10) == tried_best(bp, x, m, ii + 1, 0),
    decreases 10 - m,
{
    if m < 10 {
        lemma_tried_best_next(bp, x, m + 1, ii);
    }
}

/// Once every level is tried for `x`, the table holds the cheapest cost.
proof fn lemma_tried_best_all(bp: Seq<BitsProblem>, x: int, m: int, ii: int, mm: int)
    requires
        0 <= m,
        forall|k: int| m <= k < 10 ==> #[trigger] tried(bp, x, k, ii, mm),
    ensures
        tried_best(bp, x, m, ii, mm) == best_via(bp, x, m),
    decreases 10 - m,
{
    if m < 10 {
        assert(tried(bp, x, m, ii, mm));
        lemma_tried_best_all(bp, x, m + 1, ii, mm);
    }
}

/// The highest level at the cheapest cost.
proof fn lemma_top_level(bp: Seq<BitsProblem>, x: int, k: int, m: int)
    requires
        0 <= k <= m <= 9,
        via_cost(bp, x, k) == reach_cost(bp, x),
        forall|j: int| k < j <= m ==> #[trigger] via_cost(bp, x, j) != reach_cost(bp, x),
    ensures
        top_level(bp, x, m) == k,
    decreases m,
{
    if m > k {
        assert(via_cost(bp, x, m) != reach_cost(bp, x));
        lemma_top_level(bp, x, k, m - 1);
    }
}

/// Higher levels make more known.
proof fn lemma_steps_grow(bp: Seq<BitsProblem>, a: int, b: int)
    requires
        steps_grow(bp),
        0 <= a < b <= 9,
    ensures
        step(bp, a) < step(bp, b),
    decreases b - a,
{
    assert(step(bp, b - 1) < step(bp, b));
    if a < b - 1 {
        lemma_steps_grow(bp, a, b - 1);
    }
}

/// The whole table is exact: every entry is tried for every entry below 1000.
proof fn lemma_table_exact(bp: Seq<BitsProblem>, dp: Seq<usize>, dp_m: Seq<usize>, x: int)
    requires
        exact_ok(bp, dp, dp_m, 1000, 0),
        dp.len() == 1000,
        dp[3] == 2,
        0 <= x < 1000,
        forall|m: int| 0 <= m < 10 ==> step(bp, m) >= 1,
    ensures
        dp[x] == reach_cost(bp, x),
        4 <= x && dp[x] < 10000 ==> dp_m[x] == top_level(bp, x, 9),
{
    if x != 3 {
        assert forall|k: int| 0 <= k < 10 implies #[trigger] tried(bp, x, k, 1000, 0) by {
            assert(step(bp, k) >= 1);
        }
        lemma_tried_best_all(bp, x, 0, 1000, 0);
        if x < 3 {
            assert forall|k: int| 0 <= k < 10 implies #[trigger] via_cost(bp, x, k) >= 10000 by {
                lemma_via_low(bp, x, k);
            }
            lemma_best_via_high(bp, x, 0);
        }
        if 4 <= x && dp[x] < 10000 {
            assert(holder_ok(bp, dp, dp_m, x, 1000, 0));
            let k = dp_m[x] as int;
            assert forall|j: int| k < j <= 9 implies #[trigger] via_cost(bp, x, j) != reach_cost(bp, x) by {
                assert(tried(bp, x, j, 1000, 0));
            }
            lemma_top_level(bp, x, k, 9);
        }
    }
}

/// Where every level costs 10000 or more, so does the cheapest.
proof fn lemma_best_via_high(bp: Seq<BitsProblem>, x: int, m: int)
    requires
        0 <= m,
        forall|k: int| 0 <= k < 10 ==> #[trigger] via_cost(bp, x, k) >= 10000,
    ensures
        best_via(bp, x, m) == 10000,
    decreases 10 - m,
{
    if m < 10 {
        assert(via_cost(bp, x, m) >= 10000);
        lemma_best_via_high(bp, x, m + 1);
    }
}

/// Entry `x` of the table: where it is finite (below 10000) it is reached either at
/// the start (3 known mushrooms) or by the level `dp_m[x]` from a finite entry that
/// knows enough mushrooms for it.
pub open spec fn pred_ok(bp: Seq<BitsProblem>, dp: Seq<usize>, dp_m: Seq<usize>, x: int) -> bool {
    dp[x] < 10000 ==> {
        &&& x >= 3
        &&& x == 3 || {
            let m = dp_m[x] as int;
            &&& m <= 9
            &&& 3 <= x - step(bp, m)
            &&& dp[x - step(bp, m)] < 10000
            &&& x - step(bp, m) >= bp[m].min_known
        }
    }
}

pub open spec fn table_ok(bp: Seq<BitsProblem>, dp: Seq<usize>, dp_m: Seq<usize>) -> bool {
    &&& dp.len() == 1000
    &&& dp_m.len() == 1000
    &&& dp[3] == 2
    &&& forall|x: int| 0 <= x < 1000 ==> #[trigger] dp[x] <= 10000
    &&& forall|x: int| 0 <= x < 1000 ==> #[trigger] pred_ok(bp, dp, dp_m, x)
}

/// A vector of `len` copies of `v`.
pub(crate) fn filled(v: usize, len: usize) -> (r: Vec<usize>)
    ensures
        r.len() == len,
        forall|k: int| 0 <= k < len ==> #[trigger] r@[k] == v,
{
    let mut r: Vec<usize> = Vec::new();
    let mut k: usize = 0;
    while k < len
        invariant
            k <= len,
            r.len() == k,
            forall|j: int| 0 <= j < k ==> #[trigger] r@[j] == v,
        decreases len - k,
    {
        r.push(v);
        k = k + 1;
    }
    r
}

/// Trying level `mm` of entry `ii`, where it costs no less than what the table holds
/// for the entry it reaches, keeps the table exact.
proof fn lemma_try_keep(bp: Seq<BitsProblem>, dp: Seq<usize>, dp_m: Seq<usize>, ii: int, mm: int)
    requires
        exact_ok(bp, dp, dp_m, ii, mm),
        dp.len() == 1000,
        forall|x: int| 0 <= x < 1000 ==> #[trigger] dp[x] <= 10000,
        steps_grow(bp),
        0 <= mm < 10,
        ({
            let x = ii + step(bp, mm);
            0 <= x < 1000 && x != 3 ==> via_cost(bp, x, mm) >= dp[x]
        }),
    ensures
        exact_ok(bp, dp, dp_m, ii, mm + 1),
{
    let xx = ii + step(bp, mm);
    assert forall|x: int| 0 <= x < 1000 && x != 3 implies #[trigger] dp[x] == tried_best(bp, x, 0, ii, mm + 1) by {
        lemma_tried_best_step(bp, x, 0, ii, mm);
        assert(dp[x] == tried_best(bp, x, 0, ii, mm));
    }
    assert forall|y: int| 0 <= y < 1000 implies #[trigger] holder_ok(bp, dp, dp_m, y, ii, mm + 1) by {
        assert(holder_ok(bp, dp, dp_m, y, ii, mm));
        if dp[y] < 10000 && y != 3 {
            let k = dp_m[y] as int;
            assert forall|j: int| k < j <= 9 && #[trigger] tried(bp, y, j, ii, mm + 1) implies via_cost(bp, y, j) > dp[y] by {
                if j == mm && y - step(bp, j) == ii {
                    if k < j {
                        lemma_steps_grow(bp, k, j);
                    }
                } else {
                    assert(tried(bp, y, j, ii, mm));
                }
            }
        }
    }
}

/// Trying level `mm` of entry `ii`, where it is cheaper than what the table holds for
/// the entry it reaches, and recording it there, keeps the table exact.
proof fn lemma_try_update(bp: Seq<BitsProblem>, dp: Seq<usize>, dp_m: Seq<usize>, ii: int, mm: int, cost: int)
    requires
        exact_ok(bp, dp, dp_m, ii, mm),
        dp.len() == 1000,
        dp_m.len() == 1000,
        forall|x: int| 0 <= x < 1000 ==> #[trigger] dp[x] <= 10000,
        0 <= mm < 10,
        0 <= ii + step(bp, mm) < 1000,
        ii + step(bp, mm) != 3,
        cost == via_cost(bp, ii + step(bp, mm), mm),
        0 <= cost < dp[ii + step(bp, mm)],
    ensures
        exact_ok(bp, dp.update(ii + step(bp, mm), cost as usize), dp_m.update(ii + step(bp, mm), mm as usize), ii, mm + 1),
{
    let x = ii + step(bp, mm);
    let dp2 = dp.update(x, cost as usize);
    let dm2 = dp_m.update(x, mm as usize);
    assert forall|y: int| 0 <= y < 1000 && y != 3 implies #[trigger] dp2[y] == tried_best(bp, y, 0, ii, mm + 1) by {
        lemma_tried_best_step(bp, y, 0, ii, mm);
        assert(dp[y] == tried_best(bp, y, 0, ii, mm));
    }
    assert forall|y: int| 0 <= y < 1000 implies #[trigger] holder_ok(bp, dp2, dm2, y, ii, mm + 1) by {
        assert(holder_ok(bp, dp, dp_m, y, ii, mm));
        if y == x {
            assert(dp[x] == tried_best(bp, x, 0, ii, mm));
            assert forall|k: int| mm < k <= 9 && #[trigger] tried(bp, y, k, ii, mm + 1) implies via_cost(bp, y, k) > dp2[y] by {
                assert(tried(bp, y, k, ii, mm));
                lemma_tried_best_le(bp, y, 0, ii, mm, k);
            }
        } else {
            assert forall|k: int| 0 <= k <= 9 && #[trigger] tried(bp, y, k, ii, mm + 1) implies tried(bp, y, k, ii, mm) by {}
        }
    }
}

/// `dp[x]`: the fewest queries after which `x` mushrooms are known, running bit
/// problems from the three known after the first two queries (10000 where `x` cannot
/// be reached); `dp_m[x]`: the level run last.
fn cost_table(bp: &Vec<BitsProblem>) -> (r: (Vec<usize>, Vec<usize>))
    requires
        bp.len() == 10,
        forall|m: int| 0 <= m < 10 ==> (#[trigger] bp@[m]).n <= 5120,
        steps_grow(bp@),
    ensures
        table_ok(bp@, r.0@, r.1@),
        forall|x: int| 0 <= x < 1000 ==> #[trigger] r.0@[x] == reach_cost(bp@, x),
        forall|x: int| 4 <= x < 1000 && #[trigger] r.0@[x] < 10000 ==> r.1@[x] == top_level(bp@, x, 9),
{
    let mut dp = filled(10000, 1000);
    let mut dp_m = filled(0, 1000);
    dp.set(3, 2);
    proof {
        assert forall|x: int| 0 <= x < 1000 implies #[trigger] pred_ok(bp@, dp@, dp_m@, x) by {}
        assert forall|x: int| 0 <= x < 1000 && x != 3 implies #[trigger] dp@[x] == tried_best(bp@, x, 0, 2, 0) by {
            lemma_tried_best_init(bp@, x, 0);
        }
        assert forall|x: int| 0 <= x < 1000 implies #[trigger] holder_ok(bp@, dp@, dp_m@, x, 2, 0) by {}
    }
    let mut i: usize = 2;
    while i < 1000
        invariant
            2 <= i <= 1000,
            bp.len() == 10,
            forall|m: int| 0 <= m < 10 ==> (#[trigger] bp@[m]).n <= 5120,
            steps_grow(bp@),
            table_ok(bp@, dp@, dp_m@),
            exact_ok(bp@, dp@, dp_m@, i as int, 0),
        decreases 1000 - i,
    {
        let mut m: usize = 0;
        proof {
            assert forall|k: int| 0 <= k < 10 implies #[trigger] tried(bp@, i as int, k, i as int, 0) by {
                lemma_pow_two_ge1(k);
            }
            if i != 3 {
                lemma_tried_best_all(bp@, i as int, 0, i as int, 0);
                assert(dp@[i as int] == tried_best(bp@, i as int, 0, i as int, 0));
                if i < 3 {
                    assert forall|k: int| 0 <= k < 10 implies #[trigger] via_cost(bp@, i as int, k) >= 10000 by {
                        lemma_pow_two_ge1(k);
                        lemma_via_low(bp@, i as int, k);
                    }
                    lemma_best_via_high(bp@, i as int, 0);
                }
            }
            assert(dp@[i as int] == reach_cost(bp@, i as int));
        }
        let ghost dpi = dp@[i as int];
        while m < bp.len()
            invariant
                2 <= i < 1000,
                m <= bp.len() == 10,
                forall|m: int| 0 <= m < 10 ==> (#[trigger] bp@[m]).n <= 5120,
                steps_grow(bp@),
                table_ok(bp@, dp@, dp_m@),
                exact_ok(bp@, dp@, dp_m@, i as int, m as int),
                dp@[i as int] == dpi,
                dpi == reach_cost(bp@, i as int),
            decreases 10 - m,
        {
            let ghost old_dp = dp@;
            let ghost old_m = dp_m@;
            proof {
                crate::mushrooms::bits::lemma_pow_two_le(m as nat, 9);
                reveal_with_fuel(pow_two, 10);
                lemma_pow_two_ge1(m as int);
            }
            if i >= bp[m].min_known {
                let p = pow2(m);
                let x = i + bp[m].n + p;
                let cost: usize = dp[i] + p;
                proof {
                    assert(x < 1000 ==> via_cost(bp@, x as int, m as int) == cost);
                }
                if x < dp.len() && dp[x] > cost {
                    proof {
                        assert(pred_ok(bp@, old_dp, old_m, i as int));
                    }
                    dp.set(x, cost);
                    dp_m.set(x, m);
                    proof {
                        assert forall|y: int| 0 <= y < 1000 implies #[trigger] pred_ok(bp@, dp@, dp_m@, y) by {
                            assert(pred_ok(bp@, old_dp, old_m, y));
                            if y != x && dp@[y] < 10000 && y != 3 {
                                let z = y - step(bp@, old_m[y] as int);
                                assert(old_dp[z] < 10000);
                                assert(dp@[z] <= old_dp[z]);
                            }
                        }
                        lemma_try_update(bp@, old_dp, old_m, i as int, m as int, cost as int);
                        assert(dp@ == old_dp.update(x as int, cost));
                        assert(dp_m@ == old_m.update(x as int, m));
                    }
                } else {
                    proof {
                        lemma_try_keep(bp@, old_dp, old_m, i as int, m as int);
                    }
                }
            } else {
                proof {
                    lemma_try_keep(bp@, old_dp, old_m, i as int, m as int);
                }
            }
            m = m + 1;
        }
        proof {
            assert forall|x: int| 0 <= x < 1000 && x != 3 implies #[trigger] dp@[x] == tried_best(bp@, x, 0, i + 1, 0) by {
                lemma_tried_best_next(bp@, x, 0, i as int);
            }
            assert forall|x: int| 0 <= x < 1000 implies #[trigger] holder_ok(bp@, dp@, dp_m@, x, i + 1, 0) by {
                assert(holder_ok(bp@, dp@, dp_m@, x, i as int, 10));
                assert forall|k: int| 0 <= k <= 9 implies #[trigger] tried(bp@, x, k, i + 1, 0) == tried(bp@, x, k, i as int, 10) by {}
            }
        }
        i = i + 1;
    }
    proof {
        assert forall|k: int| 0 <= k < 10 implies step(bp@, k) >= 1 by {
            lemma_pow_two_ge1(k);
        }
        assert forall|x: int| 0 <= x < 1000 implies #[trigger] dp@[x] == reach_cost(bp@, x) by {
            lemma_table_exact(bp@, dp@, dp_m@, x);
        }
        assert forall|x: int| 4 <= x < 1000 && #[trigger] dp@[x] < 10000 implies dp_m@[x] == top_level(bp@, x, 9) by {
            lemma_table_exact(bp@, dp@, dp_m@, x);
        }
    }
    (dp, dp_m)
}

/// Queries of the final phase when `known` mushrooms are known and `remaining` are
/// left: each query counts `(known + 1) / 2` of them and makes one more known.
fn finish_cost(known: usize, remaining: usize) -> (r: usize)
    requires
        3 <= known <= 1000,
        remaining <= 20000,
    ensures
        r <= 283,
        r == finish_steps(known as int, remaining as int),
{
    let mut left: i32 = remaining as i32;
    let mut k: i32 = known as i32;
    let mut count: usize = 0;
    while left > 0
        invariant
            3 <= known <= 1000,
            remaining <= 20000,
            k == known + count,
            left <= remaining,
            4 * (remaining - left) >= count * count + 3 * count,
            count <= 283,
            count + finish_steps(k as int, left as int) == finish_steps(known as int, remaining as int),
        decreases left + 1000,
    {
        proof {
            assert(count * count + 3 * count < 80000);
            assert(count <= 281) by (nonlinear_arith)
                requires
                    count * count + 3 * count < 80000,
            ;
        }
        let d = (k + 1) / 2;
        proof {
            assert(d >= 2);
            assert(4 * d >= 2 * k);
            assert(4 * (remaining - (left - d)) >= (count + 1) * (count + 1) + 3 * (count + 1)) by (nonlinear_arith)
                requires
                    4 * (remaining - left) >= count * count + 3 * count,
                    4 * d >= 2 * k,
                    k == known + count,
                    known >= 3,
            ;
        }
        left = left - d;
        k = k + 1;
        count = count + 1;
    }
    count
}

/// One more problem at the front of the plan, the one that reaches `j`: the plan
/// then runs from where that problem starts.
#[verifier::rlimit(60)]
proof fn lemma_prepend_step(bp: Seq<BitsProblem>, dp: Seq<usize>, dp_m: Seq<usize>, j: int, m: usize, old_plan: Seq<usize>, best_i: int)
    requires
        table_ok(bp, dp, dp_m),
        bp.len() == 10,
        3 < j < 1000,
        dp[j] < 10000,
        m == dp_m[j],
        steps_ok(bp, old_plan, j),
        reach(bp, old_plan, j, old_plan.len() as int) == best_i,
        forall|x: int| 0 <= x < 1000 ==> #[trigger] dp[x] == reach_cost(bp, x),
        forall|x: int| 4 <= x < 1000 && #[trigger] dp[x] < 10000 ==> dp_m[x] == top_level(bp, x, 9),
        plan_to(bp, best_i) == plan_to(bp, j) + old_plan,
    ensures
        3 <= j - step(bp, m as int) < j,
        dp[j - step(bp, m as int)] < 10000,
        steps_ok(bp, seq![m] + old_plan, j - step(bp, m as int)),
        reach(bp, seq![m] + old_plan, j - step(bp, m as int), old_plan.len() + 1 as int) == best_i,
        plan_to(bp, best_i) == plan_to(bp, j - step(bp, m as int)) + (seq![m] + old_plan),
{
    let prev = j - step(bp, m as int);
    let plan = seq![m] + old_plan;
    assert(pred_ok(bp, dp, dp_m, j));
    crate::candies::segtree::lemma_pow_two_pos(m as nat);
    assert(dp[j] == reach_cost(bp, j) && m == top_level(bp, j, 9));
    lemma_reach_prepend(bp, m, old_plan, prev, old_plan.len() as int);
    assert forall|p: int| 0 <= p < plan.len() implies #[trigger] plan[p] <= 9 && reach(bp, plan, prev, p) >= bp[plan[p] as int].min_known by {
        if p > 0 {
            lemma_reach_prepend(bp, m, old_plan, prev, p - 1);
            assert(plan[p] == old_plan[p - 1]);
            assert(old_plan[p - 1] <= 9);
        }
    }
    assert(pred_ok(bp, dp, dp_m, prev));
    assert(plan_to(bp, j) == plan_to(bp, prev).push(m));
    assert(plan_to(bp, prev) + plan =~= plan_to(bp, j) + old_plan);
}

/// Chooses how many mushrooms to make known with bit problems before counting the
/// rest, and the levels to run to get there: the number that minimises the total
/// number of queries (the smallest such number), among those below `n` and 1000.
pub fn choose_plan(bp: &Vec<BitsProblem>, n: usize) -> (r: (usize, Vec<usize>))
    requires
        4 <= n <= 20000,
        bp.len() == 10,
        forall|m: int| 0 <= m < 10 ==> (#[trigger] bp@[m]).n <= 5120,
        steps_grow(bp@),
    ensures
        3 <= r.0 < n,
        r.0 < 1000,
        plan_ok(bp@, r.1@, r.0 as int),
        forall|i: int| 3 <= i < n && i < 1000 ==> total_cost(bp@, n as int, r.0 as int) <= #[trigger] total_cost(bp@, n as int, i),
        forall|i: int| 3 <= i < r.0 ==> total_cost(bp@, n as int, r.0 as int) < #[trigger] total_cost(bp@, n as int, i),
        r.1@ == plan_to(bp@, r.0 as int),
        reach_cost(bp@, r.0 as int) <= 285,
{
    let (dp, dp_m) = cost_table(bp);
    let lim = if n < dp.len() { n } else { dp.len() };
    let mut best_i: usize = 0;
    let mut best_c: usize = 10000;
    let mut i: usize = 3;
    while i < lim
        invariant
            3 <= i <= lim,
            lim <= n <= 20000,
            lim <= 1000,
            4 <= lim,
            table_ok(bp@, dp@, dp_m@),
            i == 3 ==> best_c == 10000,
            i > 3 ==> 3 <= best_i < i && dp@[best_i as int] <= best_c <= 285,
            forall|x: int| 0 <= x < 1000 ==> #[trigger] dp@[x] == reach_cost(bp@, x),
            i > 3 ==> best_c == total_cost(bp@, n as int, best_i as int),
            forall|x: int| 3 <= x < i ==> best_c <= #[trigger] total_cost(bp@, n as int, x),
            forall|x: int| 3 <= x < best_i ==> best_c < #[trigger] total_cost(bp@, n as int, x),
        decreases lim - i,
    {
        let count = dp[i] + finish_cost(i, n - i);
        proof {
            assert(count == total_cost(bp@, n as int, i as int));
        }
        if best_c > count {
            best_i = i;
            best_c = count;
        }
        i = i + 1;
    }
    proof {
        assert(pred_ok(bp@, dp@, dp_m@, best_i as int));
    }
    let mut plan: Vec<usize> = Vec::new();
    let mut j = best_i;
    proof {
        assert(plan_to(bp@, best_i as int) + plan@ =~= plan_to(bp@, best_i as int));
    }
    while j > 3
        invariant
            table_ok(bp@, dp@, dp_m@),
            bp.len() == 10,
            0 <= j < 1000,
            dp@[j as int] < 10000,
            steps_ok(bp@, plan@, j as int),
            reach(bp@, plan@, j as int, plan.len() as int) == best_i,
            forall|x: int| 0 <= x < 1000 ==> #[trigger] dp@[x] == reach_cost(bp@, x),
            forall|x: int| 4 <= x < 1000 && #[trigger] dp@[x] < 10000 ==> dp_m@[x] == top_level(bp@, x, 9),
            plan_to(bp@, best_i as int) == plan_to(bp@, j as int) + plan@,
        decreases j,
    {
        proof {
            assert(pred_ok(bp@, dp@, dp_m@, j as int));
        }
        let m = dp_m[j];
        proof {
            crate::mushrooms::bits::lemma_pow_two_le(m as nat, 9);
            reveal_with_fuel(pow_two, 10);
        }
        let prev = j - (bp[m].n + pow2(m));
        let ghost old_plan = plan@;
        plan.insert(0, m);
        proof {
            assert(plan@ == seq![m] + old_plan);
            lemma_prepend_step(bp@, dp@, dp_m@, j as int, m, old_plan, best_i as int);
        }
        j = prev;
    }
    proof {
        assert(pred_ok(bp@, dp@, dp_m@, j as int));
        assert(plan_to(bp@, 3) == Seq::<usize>::empty());
        assert(plan_to(bp@, 3) + plan@ =~= plan@);
    }
    (best_i, plan)
}

} // verus!
