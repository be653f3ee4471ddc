//! What a placement of piers catches, and the same weight counted column by column.
use vstd::prelude::*;
use vstd::math::max;
use crate::fish::{Fish, fish_within};

verus! {

/// Pier lengths for the `n` columns of an `n x n` pond.
pub open spec fn piers_ok(n: int, h: Seq<int>) -> bool {
    &&& h.len() == n
    &&& forall|c: int| 0 <= c < n ==> 0 <= #[trigger] h[c] <= n
}

/// A catfish is caught when no pier covers its cell and a pier in a neighbouring
/// column reaches past its row.
pub open spec fn caught(n: int, h: Seq<int>, f: Fish) -> bool {
    &&& h[f.0 as int] <= f.1
    &&& (f.0 > 0 && h[f.0 - 1] > f.1) || (f.0 + 1 < n && h[f.0 + 1] > f.1)
}

/// Weight of the caught catfish among the first `k`.
pub open spec fn catch_upto(n: int, h: Seq<int>, fish: Seq<Fish>, k: int) -> int
    decreases k,
{
    if k <= 0 {
        0
    } else {
        catch_upto(n, h, fish, k - 1) + if caught(n, h, fish[k - 1]) {
            fish[k - 1].2 as int
        } else {
            0
        }
    }
}

/// Weight of the caught catfish.
pub open spec fn catch(n: int, h: Seq<int>, fish: Seq<Fish>) -> int {
    catch_upto(n, h, fish, fish.len() as int)
}

/// Weight of the catfish among the first `k` that lie in rows `lo..hi` of padded
/// column `c`, that is column `c - 1` of the pond.
pub open spec fn band(fish: Seq<Fish>, c: int, lo: int, hi: int, k: int) -> int
    decreases k,
{
    if k <= 0 {
        0
    } else {
        band(fish, c, lo, hi, k - 1) + if fish[k - 1].0 + 1 == c && lo <= fish[k - 1].1 < hi {
            fish[k - 1].2 as int
        } else {
            0
        }
    }
}

/// With pier lengths `g` over the padded columns (the pond's columns between two
/// columns without catfish), the weight of the first `k` catfish caught in padded
/// columns `1..=c`.
pub open spec fn cols_catch(fish: Seq<Fish>, g: Seq<int>, c: int, k: int) -> int
    decreases c,
{
    if c <= 0 {
        0
    } else {
        cols_catch(fish, g, c - 1, k) + band(fish, c, g[c], max(g[c - 1], g[c + 1]), k)
    }
}

/// No catfish lies left of the pond or has a negative weight.
pub open spec fn fish_nonneg(fish: Seq<Fish>) -> bool {
    forall|i: int| 0 <= i < fish.len() ==> 0 <= #[trigger] fish[i].0 && 0 <= fish[i].2
}

pub proof fn lemma_band_mono(fish: Seq<Fish>, c: int, lo1: int, hi1: int, lo2: int, hi2: int, k: int)
    requires
        fish_nonneg(fish),
        k <= fish.len(),
        lo2 <= lo1,
        hi1 <= hi2,
    ensures
        0 <= band(fish, c, lo1, hi1, k) <= band(fish, c, lo2, hi2, k),
    decreases k,
{
    if k > 0 {
        lemma_band_mono(fish, c, lo1, hi1, lo2, hi2, k - 1);
    }
}

pub proof fn lemma_band_split(fish: Seq<Fish>, c: int, lo: int, mid: int, hi: int, k: int)
    requires
        lo <= mid <= hi,
    ensures
        band(fish, c, lo, hi, k) == band(fish, c, lo, mid, k) + band(fish, c, mid, hi, k),
    decreases k,
{
    if k > 0 {
        lemma_band_split(fish, c, lo, mid, hi, k - 1);
    }
}

/// A padded column that holds no catfish has nothing to catch.
pub proof fn lemma_band_empty(fish: Seq<Fish>, c: int, lo: int, hi: int, k: int)
    requires
        k <= fish.len(),
        forall|i: int| 0 <= i < k ==> #[trigger] fish[i].0 + 1 != c,
    ensures
        band(fish, c, lo, hi, k) == 0,
    decreases k,
{
    if k > 0 {
        lemma_band_empty(fish, c, lo, hi, k - 1);
    }
}

pub proof fn lemma_cols_catch_nonneg(fish: Seq<Fish>, g: Seq<int>, c: int, k: int)
    requires
        fish_nonneg(fish),
        k <= fish.len(),
    ensures
        0 <= cols_catch(fish, g, c, k),
    decreases c,
{
    if c > 0 {
        lemma_cols_catch_nonneg(fish, g, c - 1, k);
        lemma_band_mono(fish, c, g[c], max(g[c - 1], g[c + 1]), g[c], max(g[c - 1], g[c + 1]), k);
    }
}

/// The weight caught in the columns `1..=c` depends on the piers `0..=c + 1` only.
pub proof fn lemma_cols_catch_frame(fish: Seq<Fish>, g1: Seq<int>, g2: Seq<int>, c: int, k: int)
    requires
        forall|i: int| 0 <= i <= c + 1 ==> #[trigger] g1[i] == g2[i],
    ensures
        cols_catch(fish, g1, c, k) == cols_catch(fish, g2, c, k),
    decreases c,
{
    if c > 0 {
        lemma_cols_catch_frame(fish, g1, g2, c - 1, k);
        assert(g1[c - 1] == g2[c - 1] && g1[c] == g2[c] && g1[c + 1] == g2[c + 1]);
    }
}

/// One catfish more adds its weight to the columns that hold it and catch it.
proof fn lemma_cols_catch_step(fish: Seq<Fish>, g: Seq<int>, c: int, k: int)
    requires
        0 <= k < fish.len(),
    ensures
        cols_catch(fish, g, c, k + 1) == cols_catch(fish, g, c, k) + if 1 <= fish[k].0 + 1 <= c
            && g[fish[k].0 + 1] <= fish[k].1 < max(g[fish[k].0 as int], g[fish[k].0 + 2]) {
            fish[k].2 as int
        } else {
            0
        },
    decreases c,
{
    if c > 0 {
        lemma_cols_catch_step(fish, g, c - 1, k);
    }
}

proof fn lemma_cols_catch_none(fish: Seq<Fish>, g: Seq<int>, c: int)
    ensures
        cols_catch(fish, g, c, 0) == 0,
    decreases c,
{
    if c > 0 {
        lemma_cols_catch_none(fish, g, c - 1);
    }
}

/// Counted column by column, the padded piers catch what the pond's piers catch.
pub proof fn lemma_catch_by_columns(n: int, g: Seq<int>, fish: Seq<Fish>, k: int)
    requires
        0 <= n,
        fish_within(n, fish),
        g.len() == n + 2,
        g[0] == 0,
        g[n + 1] == 0,
        0 <= k <= fish.len(),
    ensures
        catch_upto(n, g.subrange(1, n + 1), fish, k) == cols_catch(fish, g, n, k),
    decreases k,
{
    if k == 0 {
        lemma_cols_catch_none(fish, g, n);
    } else {
        lemma_catch_by_columns(n, g, fish, k - 1);
        lemma_cols_catch_step(fish, g, n, k - 1);
        let h = g.subrange(1, n + 1);
        let f = fish[k - 1];
        assert(0 <= f.0 < n && 0 <= f.1) by {
            assert(0 <= fish[k - 1].0 < n);
        }
        assert(h[f.0 as int] == g[f.0 + 1]);
        if f.0 > 0 {
            assert(h[f.0 - 1] == g[f.0 as int]);
        }
        if f.0 + 1 < n {
            assert(h[f.0 + 1] == g[f.0 + 2]);
        }
        assert(caught(n, h, f) <==> (g[f.0 + 1] <= f.1 < max(g[f.0 as int], g[f.0 + 2])));
    }
}

/// Pier lengths over the padded columns `0..=n + 1`: none before the first column of
/// the pond, each between `0` and `n`.
pub open spec fn padded_ok(n: int, g: Seq<int>) -> bool {
    &&& g.len() == n + 2
    &&& g[0] == 0
    &&& forall|c: int| 0 <= c < n + 2 ==> 0 <= #[trigger] g[c] <= n
}

/// Some padded piers, with length `y` in column `c`, catch at least `val` in the
/// columns before `c`.
pub open spec fn rise_reachable(fish: Seq<Fish>, n: int, c: int, y: int, val: int) -> bool {
    exists|g: Seq<int>|
        #![trigger padded_ok(n, g)]
        padded_ok(n, g) && g[c] == y && val <= cols_catch(fish, g, c - 1, fish.len() as int)
}

/// Some padded piers, with length `y` in column `c`, catch at least `val` in the
/// columns before `c` and, with the pier of column `c - 1`, in column `c`.
pub open spec fn fall_reachable(fish: Seq<Fish>, n: int, c: int, y: int, val: int) -> bool {
    exists|g: Seq<int>|
        #![trigger padded_ok(n, g)]
        padded_ok(n, g) && g[c] == y && val <= cols_catch(fish, g, c - 1, fish.len() as int) + band(
            fish,
            c,
            y,
            g[c - 1],
            fish.len() as int,
        )
}

/// Setting the pier of column `x` adds column `x - 1`'s catch to the columns before it.
proof fn lemma_extend(fish: Seq<Fish>, n: int, x: int, g: Seq<int>, y: int)
    requires
        fish_nonneg(fish),
        padded_ok(n, g),
        1 <= x <= n + 1,
        0 <= y <= n,
    ensures
        padded_ok(n, g.update(x, y)),
        cols_catch(fish, g.update(x, y), x - 1, fish.len() as int) == cols_catch(fish, g, x - 2, fish.len() as int)
            + band(fish, x - 1, g[x - 1], max(g[x - 2], y), fish.len() as int),
{
    let g2 = g.update(x, y);
    assert forall|c: int| 0 <= c < n + 2 implies 0 <= #[trigger] g2[c] <= n by {
        assert(0 <= g[c] <= n);
    }
    if x >= 2 {
        lemma_cols_catch_frame(fish, g2, g, x - 2, fish.len() as int);
    } else {
        lemma_band_empty(fish, 0, g[0], max(g[-1], y), fish.len() as int);
    }
}

/// A rising pier after a rising pier of column `x - 1` catches the catfish of
/// column `x - 1` between the two.
pub proof fn lemma_rise_after_rise(fish: Seq<Fish>, n: int, x: int, yb: int, vb: int, yi: int, y: int)
    requires
        fish_nonneg(fish),
        rise_reachable(fish, n, x - 1, yb, vb),
        1 <= x <= n + 1,
        0 <= yb <= yi <= y <= n,
    ensures
        rise_reachable(fish, n, x, y, vb + band(fish, x - 1, 0, yi, fish.len() as int) - band(fish, x - 1, 0, yb, fish.len() as int)),
{
    let len = fish.len() as int;
    let g = choose|g: Seq<int>| #![trigger padded_ok(n, g)] padded_ok(n, g) && g[x - 1] == yb && vb <= cols_catch(fish, g, x - 2, len);
    lemma_extend(fish, n, x, g, y);
    lemma_band_split(fish, x - 1, 0, yb, yi, len);
    lemma_band_mono(fish, x - 1, yb, yi, yb, max(g[x - 2], y), len);
    let g2 = g.update(x, y);
    assert(padded_ok(n, g2) && g2[x] == y);
}

/// A rising pier after an empty column `x - 1` keeps what came before.
pub proof fn lemma_rise_after_fall(fish: Seq<Fish>, n: int, x: int, v0: int, y: int)
    requires
        fish_nonneg(fish),
        fall_reachable(fish, n, x - 1, 0, v0),
        1 <= x <= n + 1,
        0 <= y <= n,
    ensures
        rise_reachable(fish, n, x, y, v0),
{
    let len = fish.len() as int;
    let g = choose|g: Seq<int>| #![trigger padded_ok(n, g)] padded_ok(n, g) && g[x - 1] == 0 && v0 <= cols_catch(fish, g, x - 2, len) + band(fish, x - 1, 0, g[x - 2], len);
    lemma_extend(fish, n, x, g, y);
    lemma_band_mono(fish, x - 1, 0, g[x - 2], 0, max(g[x - 2], y), len);
    let g2 = g.update(x, y);
    assert(padded_ok(n, g2) && g2[x] == y);
}

/// A falling pier after a pier of length `yb` in column `x - 1` catches the catfish
/// of column `x` between the two.
pub proof fn lemma_fall_after(fish: Seq<Fish>, n: int, x: int, yb: int, up: int, down: int, ws: int, y: int)
    requires
        fish_nonneg(fish),
        rise_reachable(fish, n, x - 1, yb, up),
        fall_reachable(fish, n, x - 1, yb, down),
        1 <= x <= n + 1,
        0 <= y <= yb <= n,
        ws <= band(fish, x, 0, yb, fish.len() as int),
    ensures
        fall_reachable(fish, n, x, y, (if up > down { up } else { down }) + ws - band(fish, x, 0, y, fish.len() as int)),
{
    let len = fish.len() as int;
    lemma_band_split(fish, x, 0, y, yb, len);
    if up > down {
        let g = choose|g: Seq<int>| #![trigger padded_ok(n, g)] padded_ok(n, g) && g[x - 1] == yb && up <= cols_catch(fish, g, x - 2, len);
        lemma_extend(fish, n, x, g, y);
        lemma_band_mono(fish, x - 1, yb, max(g[x - 2], y), yb, max(g[x - 2], y), len);
        let g2 = g.update(x, y);
        assert(padded_ok(n, g2) && g2[x] == y && g2[x - 1] == yb);
    } else {
        let g = choose|g: Seq<int>| #![trigger padded_ok(n, g)] padded_ok(n, g) && g[x - 1] == yb && down <= cols_catch(fish, g, x - 2, len) + band(fish, x - 1, yb, g[x - 2], len);
        lemma_extend(fish, n, x, g, y);
        lemma_band_mono(fish, x - 1, yb, g[x - 2], yb, max(g[x - 2], y), len);
        let g2 = g.update(x, y);
        assert(padded_ok(n, g2) && g2[x] == y && g2[x - 1] == yb);
    }
}

/// Any pier length in column `x >= 1` reaches nothing at all.
pub proof fn lemma_fall_nothing(fish: Seq<Fish>, n: int, x: int, y: int)
    requires
        fish_nonneg(fish),
        1 <= x <= n + 1,
        0 <= y <= n,
    ensures
        fall_reachable(fish, n, x, y, 0),
        rise_reachable(fish, n, x, y, 0),
{
    let len = fish.len() as int;
    let g = Seq::new((n + 2) as nat, |i: int| if i == x { y } else { 0 });
    assert(padded_ok(n, g));
    lemma_cols_catch_nonneg(fish, g, x - 1, len);
    lemma_band_mono(fish, x, y, g[x - 1], y, g[x - 1], len);
}

/// The single boundary of column `0` reaches nothing, from empty piers.
pub proof fn lemma_reach_start(fish: Seq<Fish>, n: int)
    requires
        0 <= n,
        fish_nonneg(fish),
    ensures
        fall_reachable(fish, n, 0, 0, 0),
        rise_reachable(fish, n, 0, 0, 0),
{
    let len = fish.len() as int;
    let g = Seq::new((n + 2) as nat, |i: int| 0int);
    assert(padded_ok(n, g));
    lemma_band_empty(fish, 0, 0, g[-1], len);
}

/// What one catfish adds to the catch.
pub open spec fn gain(n: int, h: Seq<int>, f: Fish) -> int {
    if caught(n, h, f) {
        f.2 as int
    } else {
        0
    }
}

proof fn lemma_catch_upto_same(n: int, h: Seq<int>, a: Seq<Fish>, b: Seq<Fish>, k: int)
    requires
        0 <= k <= a.len(),
        k <= b.len(),
        forall|i: int| 0 <= i < k ==> #[trigger] a[i] == b[i],
    ensures
        catch_upto(n, h, a, k) == catch_upto(n, h, b, k),
    decreases k,
{
    if k > 0 {
        lemma_catch_upto_same(n, h, a, b, k - 1);
    }
}

/// Taking catfish `j` out of the list takes its share out of the catch.
proof fn lemma_catch_remove(n: int, h: Seq<int>, s: Seq<Fish>, j: int)
    requires
        0 <= j < s.len(),
    ensures
        catch(n, h, s) == catch(n, h, s.remove(j)) + gain(n, h, s[j]),
    decreases s.len(),
{
    let t = s.drop_last();
    lemma_catch_upto_same(n, h, s, t, t.len() as int);
    if j == s.len() - 1 {
        assert(s.remove(j) =~= t);
    } else {
        lemma_catch_remove(n, h, t, j);
        let u = s.remove(j);
        assert(u =~= t.remove(j).push(s.last()));
        lemma_catch_upto_same(n, h, u, t.remove(j), t.remove(j).len() as int);
        assert(s[j] == t[j]);
    }
}

/// Two lists that hold the same catfish catch the same weight.
proof fn lemma_catch_perm(n: int, h: Seq<int>, a: Seq<Fish>, b: Seq<Fish>)
    requires
        a.to_multiset() == b.to_multiset(),
    ensures
        catch(n, h, a) == catch(n, h, b),
    decreases a.len(),
{
    broadcast use vstd::seq_lib::group_to_multiset_ensures;
    broadcast use vstd::multiset::group_multiset_axioms;

    if a.len() == 0 {
        assert(a.to_multiset().len() == a.len());
        assert(b.to_multiset().len() == b.len());
        assert(b.len() == 0);
    } else {
        let x = a.last();
        let a1 = a.drop_last();
        assert(a =~= a1.push(x));
        assert(a.to_multiset() =~= a1.to_multiset().insert(x));
        assert(b.to_multiset().count(x) > 0);
        assert(b.contains(x));
        let j = choose|j: int| 0 <= j < b.len() && b[j] == x;
        assert(b.remove(j).to_multiset() =~= b.to_multiset().remove(x));
        assert(a1.to_multiset().insert(x).remove(x) =~= a1.to_multiset());
        lemma_catch_perm(n, h, a1, b.remove(j));
        lemma_catch_remove(n, h, a, a.len() - 1);
        assert(a.remove(a.len() - 1) =~= a1);
        lemma_catch_remove(n, h, b, j);
    }
}

/// The order in which the catfish are listed does not matter: two lists that hold
/// the same catfish have the same best catch.
pub proof fn law_best_catch_any_order(n: int, a: Seq<Fish>, b: Seq<Fish>, ra: int, rb: int)
    requires
        a.to_multiset() == b.to_multiset(),
        exists|h: Seq<int>| #[trigger] piers_ok(n, h) && catch(n, h, a) == ra,
        forall|h: Seq<int>| #[trigger] piers_ok(n, h) ==> catch(n, h, a) <= ra,
        exists|h: Seq<int>| #[trigger] piers_ok(n, h) && catch(n, h, b) == rb,
        forall|h: Seq<int>| #[trigger] piers_ok(n, h) ==> catch(n, h, b) <= rb,
    ensures
        ra == rb,
{
    let ha = choose|h: Seq<int>| #[trigger] piers_ok(n, h) && catch(n, h, a) == ra;
    let hb = choose|h: Seq<int>| #[trigger] piers_ok(n, h) && catch(n, h, b) == rb;
    lemma_catch_perm(n, ha, a, b);
    lemma_catch_perm(n, hb, a, b);
}

/// One more catfish, of weight at least zero, never lowers the best catch.
pub proof fn law_best_catch_more_fish(n: int, fish: Seq<Fish>, f: Fish, r1: int, r2: int)
    requires
        f.2 >= 0,
        exists|h: Seq<int>| #[trigger] piers_ok(n, h) && catch(n, h, fish) == r1,
        forall|h: Seq<int>| #[trigger] piers_ok(n, h) ==> catch(n, h, fish.push(f)) <= r2,
    ensures
        r1 <= r2,
{
    let h = choose|h: Seq<int>| #[trigger] piers_ok(n, h) && catch(n, h, fish) == r1;
    lemma_catch_remove(n, h, fish.push(f), fish.len() as int);
    assert(fish.push(f).remove(fish.len() as int) =~= fish);
}

/// Raising the weight of one catfish never lowers the best catch.
pub proof fn law_best_catch_heavier(n: int, fish: Seq<Fish>, j: int, weight: i64, r1: int, r2: int)
    requires
        0 <= j < fish.len(),
        fish[j].2 <= weight,
        exists|h: Seq<int>| #[trigger] piers_ok(n, h) && catch(n, h, fish) == r1,
        forall|h: Seq<int>| #[trigger] piers_ok(n, h) ==> catch(n, h, fish.update(j, (fish[j].0, fish[j].1, weight))) <= r2,
    ensures
        r1 <= r2,
{
    let h = choose|h: Seq<int>| #[trigger] piers_ok(n, h) && catch(n, h, fish) == r1;
    let heavier = fish.update(j, (fish[j].0, fish[j].1, weight));
    lemma_catch_remove(n, h, fish, j);
    lemma_catch_remove(n, h, heavier, j);
    assert(heavier.remove(j) =~= fish.remove(j));
    assert(gain(n, h, fish[j]) <= gain(n, h, heavier[j]));
}

} // verus!
