//! How many queries a plan asks: the first two, those of its problems, and those of
//! the counting phase.
use vstd::prelude::*;
use crate::candies::segtree::pow_two;
use crate::mushrooms::bits::BitsProblem;
use crate::mushrooms::plan::{step, reach_cost, best_via, via_cost, top_level, plan_to, finish_steps};

verus! {

/// The queries of the problems `plan[k..]`: `2^m` for a problem of level `m`.
pub open spec fn plan_queries(plan: Seq<usize>, k: int) -> int
    decreases plan.len() - k,
{
    if k < 0 || k >= plan.len() {
        0
    } else {
        pow_two(plan[k] as nat) + plan_queries(plan, k + 1)
    }
}

/// A problem more at the end of the plan adds its queries.
pub proof fn lemma_plan_queries_push(plan: Seq<usize>, m: usize, k: int)
    requires
        0 <= k <= plan.len(),
    ensures
        plan_queries(plan.push(m), k) == plan_queries(plan, k) + pow_two(m as nat),
    decreases plan.len() - k,
{
    if k < plan.len() {
        lemma_plan_queries_push(plan, m, k + 1);
        assert(plan.push(m)[k] == plan[k]);
    } else {
        assert(plan.push(m)[k] == m);
        assert(plan_queries(plan.push(m), k + 1) == 0);
    }
}

/// More mushrooms left to count never take fewer queries.
pub proof fn lemma_finish_mono(known: int, r1: int, r2: int)
    requires
        r1 <= r2,
    ensures
        0 <= finish_steps(known, r1) <= finish_steps(known, r2),
    decreases (if r2 > 0 { r2 } else { 0 }),
{
    if r2 > 0 && known >= 1 {
        lemma_finish_mono(known + 1, r1 - (known + 1) / 2, r2 - (known + 1) / 2);
    }
}

/// Some level among `m..10` attains the cheapest way to reach `x` with one of them
/// run last, when there is one.
proof fn lemma_best_via_attained(bp: Seq<BitsProblem>, x: int, m: int) -> (k: int)
    requires
        0 <= m <= 10,
        best_via(bp, x, m) < 10000,
    ensures
        m <= k < 10,
        via_cost(bp, x, k) == best_via(bp, x, m),
    decreases 10 - m,
{
    assert(m < 10);
    let i = x - step(bp, m);
    let c = if 0 <= i < x && i >= bp[m].min_known { reach_cost(bp, i) + pow_two(m as nat) } else { 10000 };
    if c < best_via(bp, x, m + 1) {
        m
    } else {
        lemma_best_via_attained(bp, x, m + 1)
    }
}

/// `top_level` finds a level whose cost is the cheapest, when one among `0..=m` is.
proof fn lemma_top_level_hits(bp: Seq<BitsProblem>, x: int, m: int, k: int)
    requires
        0 <= k <= m <= 9,
        via_cost(bp, x, k) == reach_cost(bp, x),
    ensures
        0 <= top_level(bp, x, m) <= m,
        via_cost(bp, x, top_level(bp, x, m)) == reach_cost(bp, x),
    decreases m,
{
    if m > 0 && via_cost(bp, x, m) != reach_cost(bp, x) {
        if k == m {
        } else {
            lemma_top_level_hits(bp, x, m - 1, k);
        }
    }
}

/// Where `x` can be reached, the plan to it asks the first two queries and those of
/// its problems: `reach_cost` of them in all.
pub proof fn lemma_plan_cost(bp: Seq<BitsProblem>, x: int)
    requires
        reach_cost(bp, x) < 10000,
    ensures
        2 + plan_queries(plan_to(bp, x), 0) == reach_cost(bp, x),
    decreases x,
{
    if x > 3 {
        let k = lemma_best_via_attained(bp, x, 0);
        lemma_top_level_hits(bp, x, 9, k);
        let m = top_level(bp, x, 9);
        let i = x - step(bp, m);
        crate::candies::segtree::lemma_pow_two_pos(m as nat);
        assert(0 <= i < x && i >= bp[m].min_known);
        lemma_plan_cost(bp, i);
        lemma_plan_queries_push(plan_to(bp, i), m as usize, 0);
    }
}

/// The queries of a plan are never negative in number.
pub proof fn lemma_plan_queries_nonneg(plan: Seq<usize>, k: int)
    ensures
        0 <= plan_queries(plan, k),
    decreases plan.len() - k,
{
    if 0 <= k < plan.len() {
        crate::candies::segtree::lemma_pow_two_pos(plan[k] as nat);
        lemma_plan_queries_nonneg(plan, k + 1);
    }
}

} // verus!
