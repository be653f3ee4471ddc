//! Catfish farm: choose pier lengths for the columns of an `n x n` pond so that the
//! total weight of the catfish that can be caught is as large as possible, by a
//! dynamic program over columns.
use vstd::prelude::*;
use crate::sort::{sort_indices_by_key, ordered, before};
use catch::{band, cols_catch, padded_ok, piers_ok, catch, fish_nonneg, rise_reachable, fall_reachable, lemma_rise_after_rise, lemma_rise_after_fall, lemma_fall_after, lemma_fall_nothing, lemma_band_mono, lemma_band_split};
use vstd::math::max;

pub mod catch;
pub mod optimal;

verus! {

/// A catfish `(x, y, w)`: column, row and weight.
pub type Fish = (i64, i64, i64);

/// A row boundary of interest in a column.
#[derive(Copy, Clone)]
pub struct Position {
    pub y: i64,
    /// Sum of fish weight on this column, up to (and including) this position.
    pub weight_sum: i64,
    /// Best total weight up to this column for a solution whose pier ends at this
    /// position, with pier lengths increasing or decreasing.
    pub dp_up: i64,
    pub dp_down: i64,
}

/// The largest weight a single catfish may have.
pub open spec fn max_weight() -> int {
    1_000_000_000
}

/// The instance fits the pond: every catfish lies in it and has a weight in range.
pub open spec fn fish_within(n: int, fish: Seq<Fish>) -> bool {
    forall|k: int|
        0 <= k < fish.len() ==> {
            &&& 0 <= #[trigger] fish[k].0 < n
            &&& 0 <= fish[k].1 < n
            &&& 0 <= fish[k].2 <= max_weight()
        }
}

/// Weight collected in a column.
pub open spec fn col_total(col: Seq<Position>) -> int {
    col.last().weight_sum as int
}

/// Total weight collected in the columns before `c`.
pub open spec fn cols_total(p: Seq<Vec<Position>>, c: int) -> int
    decreases c,
{
    if c <= 0 {
        0
    } else {
        cols_total(p, c - 1) + col_total(p[c - 1]@)
    }
}

/// A column lists row boundaries by strictly increasing row, starting at row 0 with
/// nothing below, with prefix weights that never decrease.
pub open spec fn col_ok(col: Seq<Position>) -> bool {
    &&& col.len() >= 1
    &&& col[0].y == 0
    &&& col[0].weight_sum == 0
    &&& forall|i: int, j: int| 0 <= i < j < col.len() ==> #[trigger] col[i].y < #[trigger] col[j].y
    &&& forall|i: int, j: int|
        0 <= i <= j < col.len() ==> #[trigger] col[i].weight_sum <= #[trigger] col[j].weight_sum
}

proof fn lemma_cols_total_update(p: Seq<Vec<Position>>, x: int, col: Vec<Position>, c: int)
    requires
        0 <= x < p.len(),
        0 <= c <= p.len(),
        p[x]@.len() >= 1,
        col@.len() >= 1,
    ensures
        cols_total(p.update(x, col), c) == cols_total(p, c) + if x < c {
            col_total(col@) - col_total(p[x]@)
        } else {
            0
        },
    decreases c,
{
    if c > 0 {
        lemma_cols_total_update(p, x, col, c - 1);
    }
}

proof fn lemma_cols_total_mono(p: Seq<Vec<Position>>, a: int, b: int)
    requires
        0 <= a <= b <= p.len(),
        forall|c: int| 0 <= c < p.len() ==> col_ok(#[trigger] p[c]@),
    ensures
        cols_total(p, a) <= cols_total(p, b),
    decreases b - a,
{
    if a < b {
        lemma_cols_total_mono(p, a, b - 1);
        let col = p[b - 1]@;
        assert(col[0].weight_sum <= col[col.len() - 1].weight_sum);
    }
}

/// Column `col` with a boundary at row `y` that adds `weight`: the last boundary grows
/// when it is at `y`, else a new one follows it.
pub open spec fn added(col: Seq<Position>, y: int, weight: int) -> Seq<Position> {
    let pos = Position { y: y as i64, weight_sum: (col.last().weight_sum + weight) as i64, dp_up: 0, dp_down: 0 };
    if col.last().y == y {
        col.update(col.len() - 1, pos)
    } else {
        col.push(pos)
    }
}

/// Records a row boundary at `y` in column `x`, adding `weight` to the column.
fn add_boundary(p: &mut Vec<Vec<Position>>, x: usize, y: i64, weight: i64)
    requires
        x < old(p).len(),
        col_ok(old(p)[x as int]@),
        old(p)[x as int]@.last().y <= y,
        1 <= y,
        0 <= weight,
        old(p)[x as int]@.last().weight_sum + weight <= i64::MAX,
        forall|j: int| 0 <= j < old(p)[x as int].len() ==> (#[trigger] old(p)[x as int]@[j]).dp_up == 0
            && old(p)[x as int]@[j].dp_down == 0,
    ensures
        final(p).len() == old(p).len(),
        forall|c: int| 0 <= c < old(p).len() && c != x ==> #[trigger] final(p)[c] == old(p)[c],
        col_ok(final(p)[x as int]@),
        final(p)[x as int]@ == added(old(p)[x as int]@, y as int, weight as int),
        final(p)[x as int]@.last().y == y,
        col_total(final(p)[x as int]@) == col_total(old(p)[x as int]@) + weight,
        forall|j: int| 0 <= j < final(p)[x as int].len() ==> (#[trigger] final(p)[x as int]@[j]).dp_up
            == 0 && final(p)[x as int]@[j].dp_down == 0,
{
    let len = p[x].len();
    let last_pos = p[x][len - 1];
    let weight_sum = last_pos.weight_sum + weight;
    let ghost old_col = old(p)[x as int]@;
    if last_pos.y == y {
        p[x].set(len - 1, Position { y, weight_sum, dp_up: 0, dp_down: 0 });
        proof {
            let col = p[x as int]@;
            assert(len > 1);
            assert forall|i: int, j: int| 0 <= i < j < col.len() implies #[trigger] col[i].y < #[trigger] col[j].y by {
                assert(old_col[i].y < old_col[j].y);
            }
            assert forall|i: int, j: int| 0 <= i <= j < col.len() implies #[trigger] col[i].weight_sum <= #[trigger] col[j].weight_sum by {
                assert(old_col[i].weight_sum <= old_col[j].weight_sum);
                assert(old_col[i].weight_sum <= old_col[len - 1].weight_sum);
            }
        }
        return;
    }
    p[x].push(Position { y, weight_sum, dp_up: 0, dp_down: 0 });
    proof {
        let col = p[x as int]@;
        assert(col == old_col.push(Position { y, weight_sum, dp_up: 0, dp_down: 0 }));
        assert forall|i: int, j: int| 0 <= i < j < col.len() implies #[trigger] col[i].y < #[trigger] col[j].y by {
            if j < len {
                assert(old_col[i].y < old_col[j].y);
            } else if i < len - 1 {
                assert(old_col[i].y < old_col[len - 1].y);
            }
        }
        assert forall|i: int, j: int| 0 <= i <= j < col.len() implies #[trigger] col[i].weight_sum <= #[trigger] col[j].weight_sum by {
            if j < len {
                assert(old_col[i].weight_sum <= old_col[j].weight_sum);
            } else if i < len {
                assert(old_col[i].weight_sum <= old_col[len - 1].weight_sum);
            }
        }
    }
}

/// Weight of the catfish among the first `k` that are listed in `ins` and lie in
/// padded column `c` in a row below `y`.
pub open spec fn placed_weight(fish: Seq<Fish>, ins: Seq<usize>, c: int, y: int, k: int) -> int
    decreases k,
{
    if k <= 0 {
        0
    } else {
        placed_weight(fish, ins, c, y, k - 1) + if ins.contains((k - 1) as usize) && fish[k - 1].0 + 1 == c
            && fish[k - 1].1 < y {
            fish[k - 1].2 as int
        } else {
            0
        }
    }
}

/// With nothing listed, nothing is placed.
proof fn lemma_placed_empty(fish: Seq<Fish>, ins: Seq<usize>, c: int, y: int, k: int)
    requires
        ins.len() == 0,
    ensures
        placed_weight(fish, ins, c, y, k) == 0,
    decreases k,
{
    if k > 0 {
        lemma_placed_empty(fish, ins, c, y, k - 1);
    }
}

/// Listing catfish `q` too adds its weight where it lies.
proof fn lemma_placed_push(fish: Seq<Fish>, ins: Seq<usize>, q: usize, c: int, y: int, k: int)
    requires
        !ins.contains(q),
        0 <= k <= usize::MAX,
    ensures
        placed_weight(fish, ins.push(q), c, y, k) == placed_weight(fish, ins, c, y, k) + if q < k
            && fish[q as int].0 + 1 == c && fish[q as int].1 < y {
            fish[q as int].2 as int
        } else {
            0
        },
    decreases k,
{
    if k > 0 {
        lemma_placed_push(fish, ins, q, c, y, k - 1);
        crate::sort::lemma_push_contains(ins, q, (k - 1) as usize);
    }
}

/// Raising the row limit past no listed catfish of the column changes nothing.
proof fn lemma_placed_frame(fish: Seq<Fish>, ins: Seq<usize>, c: int, y1: int, y2: int, k: int)
    requires
        y1 <= y2,
        forall|i: int| 0 <= i < k && ins.contains(i as usize) && #[trigger] fish[i].0 + 1 == c ==> fish[i].1 < y1,
    ensures
        placed_weight(fish, ins, c, y1, k) == placed_weight(fish, ins, c, y2, k),
    decreases k,
{
    if k > 0 {
        lemma_placed_frame(fish, ins, c, y1, y2, k - 1);
    }
}

/// Once every catfish is listed, the placed weight is the column's weight below `y`.
proof fn lemma_placed_all(fish: Seq<Fish>, ins: Seq<usize>, c: int, y: int, k: int)
    requires
        k <= fish.len() <= usize::MAX,
        forall|i: int| 0 <= i < k ==> #[trigger] ins.contains(i as usize),
        forall|i: int| 0 <= i < k ==> 0 <= #[trigger] fish[i].1,
    ensures
        placed_weight(fish, ins, c, y, k) == band(fish, c, 0, y, k),
    decreases k,
{
    if k > 0 {
        lemma_placed_all(fish, ins, c, y, k - 1);
        assert(ins.contains((k - 1) as usize));
        assert(0 <= fish[k - 1].1);
    }
}

/// Adding a boundary for catfish `q` to a column keeps each boundary's weight sum equal
/// to the weight of the listed catfish of the column below it.
proof fn lemma_column_placed(
    fish: Seq<Fish>,
    ins: Seq<usize>,
    q: usize,
    c: int,
    col: Seq<Position>,
    col2: Seq<Position>,
    yn: int,
    wgt: int,
    len: int,
)
    requires
        q < len <= fish.len() <= usize::MAX,
        !ins.contains(q),
        col_ok(col),
        yn <= i64::MAX,
        col.last().y <= yn,
        yn == fish[q as int].1 + 1,
        wgt == if fish[q as int].0 + 1 == c { fish[q as int].2 as int } else { 0 },
        forall|j: int| 0 <= j < col.len() ==> (#[trigger] col[j]).weight_sum == placed_weight(fish, ins, c, col[j].y as int, len),
        forall|i: int| 0 <= i < len && ins.contains(i as usize) && #[trigger] fish[i].0 + 1 == c ==> fish[i].1 + 1 <= col.last().y,
        col2 == added(col, yn, wgt),
        i64::MIN <= col.last().weight_sum + wgt <= i64::MAX,
    ensures
        forall|j: int| 0 <= j < col2.len() ==> (#[trigger] col2[j]).weight_sum == placed_weight(fish, ins.push(q), c, col2[j].y as int, len),
{
    let last = col.len() - 1;
    assert forall|j: int| 0 <= j < col2.len() implies (#[trigger] col2[j]).weight_sum == placed_weight(fish, ins.push(q), c, col2[j].y as int, len) by {
        lemma_placed_push(fish, ins, q, c, col2[j].y as int, len);
        if j < last {
            assert(col[j].y < col[last].y);
            assert(col2[j] == col[j]);
        } else if j == last && col.last().y != yn {
            assert(col2[j] == col[j]);
        } else {
            assert(col2[j].y == yn);
            lemma_placed_frame(fish, ins, c, col.last().y as int, yn, len);
        }
    }
}

/// The weight sum of every boundary is the weight of the listed catfish of its column
/// below it, and each listed catfish has a boundary in its own column.
pub open spec fn placed_ok(fish: Seq<Fish>, ins: Seq<usize>, p: Seq<Vec<Position>>) -> bool {
    &&& forall|c: int, j: int|
        0 <= c < p.len() && 0 <= j < p[c].len() ==> (#[trigger] p[c]@[j]).weight_sum == placed_weight(
            fish,
            ins,
            c,
            p[c]@[j].y as int,
            fish.len() as int,
        )
    &&& forall|i: int|
        0 <= i < fish.len() && #[trigger] ins.contains(i as usize) ==> fish[i].1 + 1 <= p[fish[i].0 + 1]@.last().y
}

/// Recording the boundaries of catfish `q` keeps `placed_ok` with `q` listed too.
proof fn lemma_insert_step(fish: Seq<Fish>, ins: Seq<usize>, q: usize, p0: Seq<Vec<Position>>, p1: Seq<Vec<Position>>, n: int)
    requires
        fish_within(n, fish),
        1 <= n <= 0xffff_fffd,
        fish.len() <= usize::MAX,
        p0.len() == n + 2,
        p1.len() == n + 2,
        q < fish.len(),
        !ins.contains(q),
        placed_ok(fish, ins, p0),
        forall|c: int| 0 <= c < n + 2 ==> col_ok(#[trigger] p0[c]@) && p0[c]@.last().y <= fish[q as int].1 + 1,
        p0[fish[q as int].0 + 1]@.last().weight_sum + fish[q as int].2 <= i64::MAX,
        p1[fish[q as int].0 + 1]@ == added(p0[fish[q as int].0 + 1]@, fish[q as int].1 + 1, fish[q as int].2 as int),
        fish[q as int].0 > 0 ==> p1[fish[q as int].0 as int]@ == added(p0[fish[q as int].0 as int]@, fish[q as int].1 + 1, 0),
        fish[q as int].0 + 2 <= n ==> p1[fish[q as int].0 + 2]@ == added(p0[fish[q as int].0 + 2]@, fish[q as int].1 + 1, 0),
        forall|c: int|
            0 <= c < n + 2 && c != fish[q as int].0 + 1 && !(fish[q as int].0 > 0 && c == fish[q as int].0) && !(
            fish[q as int].0 + 2 <= n && c == fish[q as int].0 + 2) ==> #[trigger] p1[c] == p0[c],
    ensures
        placed_ok(fish, ins.push(q), p1),
{
    let f = fish[q as int];
    let len = fish.len() as int;
    assert(0 <= f.0 < n && 0 <= f.1 < n && 0 <= f.2) by {
        assert(0 <= fish[q as int].0 < n);
    }
    let yn = f.1 + 1;
    assert forall|c: int, j: int| 0 <= c < p1.len() && 0 <= j < p1[c].len() implies (#[trigger] p1[c]@[j]).weight_sum
        == placed_weight(fish, ins.push(q), c, p1[c]@[j].y as int, len) by {
        let changed = c == f.0 + 1 || (f.0 > 0 && c == f.0) || (f.0 + 2 <= n && c == f.0 + 2);
        if changed {
            let wgt = if c == f.0 + 1 { f.2 as int } else { 0 };
            assert(p1[c]@ == added(p0[c]@, yn, wgt));
            assert forall|j2: int| 0 <= j2 < p0[c]@.len() implies (#[trigger] p0[c]@[j2]).weight_sum == placed_weight(fish, ins, c, p0[c]@[j2].y as int, len) by {
                assert(p0[c]@[j2] == p0[c]@[j2]);
            }
            assert forall|i: int| 0 <= i < len && ins.contains(i as usize) && #[trigger] fish[i].0 + 1 == c implies fish[i].1 + 1 <= p0[c]@.last().y by {
                assert(fish[i].1 + 1 <= p0[fish[i].0 + 1]@.last().y);
            }
            let col = p0[c]@;
            assert(col.last().weight_sum <= i64::MAX);
            assert(0 <= col.last().weight_sum) by {
                assert(col[0].weight_sum <= col[col.len() - 1].weight_sum);
            }
            lemma_column_placed(fish, ins, q, c, col, p1[c]@, yn, wgt, len);
        } else {
            assert(p1[c] == p0[c]);
            lemma_placed_push(fish, ins, q, c, p1[c]@[j].y as int, len);
        }
    }
    assert forall|i: int| 0 <= i < len && #[trigger] ins.push(q).contains(i as usize) implies fish[i].1 + 1
        <= p1[fish[i].0 + 1]@.last().y by {
        crate::sort::lemma_push_contains(ins, q, i as usize);
        assert(0 <= fish[i].0 < n);
        let c = fish[i].0 + 1;
        let changed = c == f.0 + 1 || (f.0 > 0 && c == f.0) || (f.0 + 2 <= n && c == f.0 + 2);
        if changed {
            let wgt = if c == f.0 + 1 { f.2 as int } else { 0 };
            assert(p1[c]@ == added(p0[c]@, yn, wgt));
            assert(p1[c]@.last().y == yn);
            if ins.contains(i as usize) {
                assert(fish[i].1 + 1 <= p0[c]@.last().y);
            }
        } else {
            assert(p1[c] == p0[c]);
            assert(ins.contains(i as usize));
        }
    }
}

/// Column `col` has a boundary at row `y`.
pub open spec fn has_row(col: Seq<Position>, y: int) -> bool {
    exists|j: int| #![trigger col[j]] 0 <= j < col.len() && col[j].y == y
}

/// Each listed catfish has a boundary just above its row in its own column and in each
/// neighbouring column of the pond.
pub open spec fn present_ok(fish: Seq<Fish>, ins: Seq<usize>, p: Seq<Vec<Position>>, n: int) -> bool {
    forall|i: int|
        0 <= i < fish.len() && #[trigger] ins.contains(i as usize) ==> {
            &&& has_row(p[fish[i].0 + 1]@, fish[i].1 + 1)
            &&& fish[i].0 > 0 ==> has_row(p[fish[i].0 as int]@, fish[i].1 + 1)
            &&& fish[i].0 + 2 <= n ==> has_row(p[fish[i].0 + 2]@, fish[i].1 + 1)
        }
}

/// Adding a boundary keeps the rows a column had and adds the new one.
proof fn lemma_added_rows(col: Seq<Position>, y: int, w: int)
    requires
        col.len() >= 1,
        i64::MIN <= y <= i64::MAX,
    ensures
        has_row(added(col, y, w), y),
        forall|t: int| has_row(col, t) ==> #[trigger] has_row(added(col, y, w), t),
{
    let col2 = added(col, y, w);
    let last = col.len() - 1;
    if col.last().y == y {
        assert(col2[last].y == y);
    } else {
        assert(col2[col.len() as int].y == y);
    }
    assert forall|t: int| has_row(col, t) implies #[trigger] has_row(col2, t) by {
        let j = choose|j: int| #![trigger col[j]] 0 <= j < col.len() && col[j].y == t;
        if j < last || col.last().y != y {
            assert(col2[j] == col[j]);
        } else {
            assert(col2[j].y == t);
        }
    }
}

/// Recording the boundaries of catfish `q` keeps `present_ok` with `q` listed too.
proof fn lemma_present_step(fish: Seq<Fish>, ins: Seq<usize>, q: usize, p0: Seq<Vec<Position>>, p1: Seq<Vec<Position>>, n: int)
    requires
        fish_within(n, fish),
        1 <= n <= 0xffff_fffd,
        fish.len() <= usize::MAX,
        p0.len() == n + 2,
        p1.len() == n + 2,
        q < fish.len(),
        present_ok(fish, ins, p0, n),
        forall|c: int| 0 <= c < n + 2 ==> (#[trigger] p0[c]@).len() >= 1,
        p1[fish[q as int].0 + 1]@ == added(p0[fish[q as int].0 + 1]@, fish[q as int].1 + 1, fish[q as int].2 as int),
        fish[q as int].0 > 0 ==> p1[fish[q as int].0 as int]@ == added(p0[fish[q as int].0 as int]@, fish[q as int].1 + 1, 0),
        fish[q as int].0 + 2 <= n ==> p1[fish[q as int].0 + 2]@ == added(p0[fish[q as int].0 + 2]@, fish[q as int].1 + 1, 0),
        forall|c: int|
            0 <= c < n + 2 && c != fish[q as int].0 + 1 && !(fish[q as int].0 > 0 && c == fish[q as int].0) && !(
            fish[q as int].0 + 2 <= n && c == fish[q as int].0 + 2) ==> #[trigger] p1[c] == p0[c],
    ensures
        present_ok(fish, ins.push(q), p1, n),
{
    let f = fish[q as int];
    assert(0 <= f.0 < n && 0 <= f.1 < n) by {
        assert(0 <= fish[q as int].0 < n);
    }
    let yn = f.1 + 1;
    // Rows are kept in every column.
    assert forall|c: int, t: int| 0 <= c < n + 2 && has_row(p0[c]@, t) implies #[trigger] has_row(p1[c]@, t) by {
        let changed = c == f.0 + 1 || (f.0 > 0 && c == f.0) || (f.0 + 2 <= n && c == f.0 + 2);
        if changed {
            let wgt = if c == f.0 + 1 { f.2 as int } else { 0 };
            assert(p1[c]@ == added(p0[c]@, yn, wgt));
            lemma_added_rows(p0[c]@, yn, wgt);
        } else {
            assert(p1[c] == p0[c]);
        }
    }
    assert forall|i: int| 0 <= i < fish.len() && #[trigger] ins.push(q).contains(i as usize) implies {
        &&& has_row(p1[fish[i].0 + 1]@, fish[i].1 + 1)
        &&& fish[i].0 > 0 ==> has_row(p1[fish[i].0 as int]@, fish[i].1 + 1)
        &&& fish[i].0 + 2 <= n ==> has_row(p1[fish[i].0 + 2]@, fish[i].1 + 1)
    } by {
        crate::sort::lemma_push_contains(ins, q, i as usize);
        assert(0 <= fish[i].0 < n);
        if i == q as int {
            lemma_added_rows(p0[f.0 + 1]@, yn, f.2 as int);
            if f.0 > 0 {
                lemma_added_rows(p0[f.0 as int]@, yn, 0);
            }
            if f.0 + 2 <= n {
                lemma_added_rows(p0[f.0 + 2]@, yn, 0);
            }
        } else {
            assert(ins.contains(i as usize));
            assert(has_row(p0[fish[i].0 + 1]@, fish[i].1 + 1));
            assert(has_row(p1[fish[i].0 + 1]@, fish[i].1 + 1));
            if fish[i].0 > 0 {
                assert(has_row(p0[fish[i].0 as int]@, fish[i].1 + 1));
                assert(has_row(p1[fish[i].0 as int]@, fish[i].1 + 1));
            }
            if fish[i].0 + 2 <= n {
                assert(has_row(p0[fish[i].0 + 2]@, fish[i].1 + 1));
                assert(has_row(p1[fish[i].0 + 2]@, fish[i].1 + 1));
            }
        }
    }
}

/// Every catfish of padded column `c` has a boundary just above its row in `col`.
pub open spec fn rows_cover(fish: Seq<Fish>, col: Seq<Position>, c: int) -> bool {
    forall|i: int| 0 <= i < fish.len() && #[trigger] fish[i].0 + 1 == c ==> has_row(col, fish[i].1 + 1)
}

/// Each column has a boundary just above every catfish of itself and of its
/// neighbouring columns of the pond.
pub open spec fn rows_present(fish: Seq<Fish>, p: Seq<Vec<Position>>, n: int) -> bool {
    forall|c: int|
        0 <= c < n + 2 ==> {
            &&& rows_cover(fish, #[trigger] p[c]@, c)
            &&& c >= 1 ==> rows_cover(fish, p[c]@, c + 1)
            &&& c <= n ==> rows_cover(fish, p[c]@, c - 1)
        }
}

/// Two ranges of rows that hold the same catfish of column `c` hold the same weight.
pub proof fn lemma_band_same(fish: Seq<Fish>, c: int, lo1: int, hi1: int, lo2: int, hi2: int, k: int)
    requires
        k <= fish.len(),
        forall|m: int|
            0 <= m < k && #[trigger] fish[m].0 + 1 == c ==> ((lo1 <= fish[m].1 < hi1) == (lo2 <= fish[m].1 < hi2)),
    ensures
        band(fish, c, lo1, hi1, k) == band(fish, c, lo2, hi2, k),
    decreases k,
{
    if k > 0 {
        lemma_band_same(fish, c, lo1, hi1, lo2, hi2, k - 1);
    }
}

/// No catfish of column `c` lies between the boundary `col[i]` and row `t` below the
/// next boundary, so the weight below both is the same.
pub proof fn lemma_band_gap(fish: Seq<Fish>, c: int, col: Seq<Position>, i: int, t: int, lo: int)
    requires
        col_ok(col),
        rows_cover(fish, col, c),
        0 <= i < col.len(),
        col[i].y <= t,
        i + 1 == col.len() || t < col[i + 1].y,
    ensures
        band(fish, c, lo, col[i].y as int, fish.len() as int) == band(fish, c, lo, t, fish.len() as int),
{
    assert forall|m: int| 0 <= m < fish.len() && #[trigger] fish[m].0 + 1 == c implies ((lo <= fish[m].1 < col[i].y) == (lo
        <= fish[m].1 < t)) by {
        assert(has_row(col, fish[m].1 + 1));
        let k = choose|k: int| #![trigger col[k]] 0 <= k < col.len() && col[k].y == fish[m].1 + 1;
        if k > i {
            assert(col[i + 1].y <= col[k].y) by {
                if k > i + 1 {
                    assert(col[i + 1].y < col[k].y);
                }
            }
        } else if k < i {
            assert(col[k].y < col[i].y);
        }
    }
    lemma_band_same(fish, c, lo, col[i].y as int, lo, t, fish.len() as int);
}

/// Each rising value of column `c` is at least what every boundary of column `c - 1`
/// at or below it leads to, and at least the falling value of that column's empty
/// boundary.
pub open spec fn up_max_ok(fish: Seq<Fish>, prev: Seq<Position>, cur: Seq<Position>, c: int) -> bool {
    &&& forall|i: int, j: int|
        0 <= i < prev.len() && 0 <= j < cur.len() && prev[i].y <= cur[j].y ==> #[trigger] prev[i].dp_up + band(
            fish,
            c - 1,
            prev[i].y as int,
            #[trigger] cur[j].y as int,
            fish.len() as int,
        ) <= cur[j].dp_up
    &&& forall|j: int| 0 <= j < cur.len() ==> prev[0].dp_down <= #[trigger] cur[j].dp_up
}

/// Each falling value of column `c` is at least what every boundary of column `c - 1`
/// at or above it leads to, and at least `0`.
pub open spec fn down_max_ok(fish: Seq<Fish>, prev: Seq<Position>, cur: Seq<Position>, c: int) -> bool {
    &&& forall|i: int, j: int|
        0 <= i < prev.len() && 0 <= j < cur.len() && cur[j].y <= prev[i].y ==> max(
            #[trigger] prev[i].dp_up as int,
            prev[i].dp_down as int,
        ) + band(fish, c, #[trigger] cur[j].y as int, prev[i].y as int, fish.len() as int) <= cur[j].dp_down
    &&& forall|j: int| 0 <= j < cur.len() ==> 0 <= #[trigger] cur[j].dp_down
}

/// The rising value built from the best boundary so far is at least what every
/// boundary of the previous column at or below row `y` leads to.
proof fn lemma_up_step(fish: Seq<Fish>, prev: Seq<Position>, c: int, i: int, y: int, best: int, bws: int)
    requires
        fish_nonneg(fish),
        col_ok(prev),
        rows_cover(fish, prev, c),
        forall|k: int| 0 <= k < prev.len() ==> (#[trigger] prev[k]).weight_sum == band(fish, c, 0, prev[k].y as int, fish.len() as int),
        0 <= i < prev.len(),
        forall|k: int| 0 <= k <= i ==> (#[trigger] prev[k]).dp_up - prev[k].weight_sum <= best - bws,
        prev[i].y <= y,
        i + 1 == prev.len() || y < prev[i + 1].y,
    ensures
        forall|k: int|
            0 <= k < prev.len() && prev[k].y <= y ==> #[trigger] prev[k].dp_up + band(fish, c, prev[k].y as int, y, fish.len() as int)
                <= best + prev[i].weight_sum - bws,
{
    let len = fish.len() as int;
    assert forall|k: int| 0 <= k < prev.len() && prev[k].y <= y implies #[trigger] prev[k].dp_up + band(fish, c, prev[k].y as int, y, len)
        <= best + prev[i].weight_sum - bws by {
        assert(k <= i) by {
            if k > i {
                assert(prev[i + 1].y <= prev[k].y) by {
                    if k > i + 1 {
                        assert(prev[i + 1].y < prev[k].y);
                    }
                }
            }
        }
        assert(prev[k].y <= prev[i].y) by {
            if k < i {
                assert(prev[k].y < prev[i].y);
            }
        }
        assert(0 <= prev[k].y) by {
            assert(prev[0].y <= prev[k].y);
        }
        lemma_band_split(fish, c, 0, prev[k].y as int, prev[i].y as int, len);
        lemma_band_gap(fish, c, prev, i, y, prev[k].y as int);
    }
}

/// The falling value built from the best boundary so far is at least what every
/// boundary of the previous column at or above row `y` leads to.
proof fn lemma_down_step(fish: Seq<Fish>, prev: Seq<Position>, c: int, i: int, y: int, ws: int, best: int)
    requires
        fish_nonneg(fish),
        col_ok(prev),
        0 <= i <= prev.len(),
        i > 0 ==> prev[i - 1].y < y,
        ws == band(fish, c, 0, y, fish.len() as int),
        0 <= y,
        forall|k: int|
            i <= k < prev.len() ==> max(#[trigger] prev[k].dp_up as int, prev[k].dp_down as int) + band(fish, c, 0, prev[k].y as int, fish.len() as int) <= best,
    ensures
        forall|k: int|
            0 <= k < prev.len() && y <= prev[k].y ==> max(#[trigger] prev[k].dp_up as int, prev[k].dp_down as int) + band(fish, c, y, prev[k].y as int, fish.len() as int)
                <= best - ws,
{
    let len = fish.len() as int;
    assert forall|k: int| 0 <= k < prev.len() && y <= prev[k].y implies max(#[trigger] prev[k].dp_up as int, prev[k].dp_down as int)
        + band(fish, c, y, prev[k].y as int, len) <= best - ws by {
        assert(k >= i) by {
            if k < i {
                assert(prev[k].y <= prev[i - 1].y) by {
                    if k < i - 1 {
                        assert(prev[k].y < prev[i - 1].y);
                    }
                }
            }
        }
        lemma_band_split(fish, c, 0, y, prev[k].y as int, len);
    }
}

/// Every boundary's weight sum is the weight of its column's catfish below it.
pub open spec fn sums_ok(fish: Seq<Fish>, p: Seq<Vec<Position>>) -> bool {
    forall|c: int, j: int|
        0 <= c < p.len() && 0 <= j < p[c].len() ==> (#[trigger] p[c]@[j]).weight_sum == band(
            fish,
            c,
            0,
            p[c]@[j].y as int,
            fish.len() as int,
        )
}

/// Column `c` after the dynamic program: some piers catch at least each boundary's
/// rising value, and some at least its falling value.
pub open spec fn reach_done(fish: Seq<Fish>, n: int, col: Seq<Position>, c: int) -> bool {
    forall|j: int|
        0 <= j < col.len() ==> rise_reachable(fish, n, c, (#[trigger] col[j]).y as int, col[j].dp_up as int)
            && fall_reachable(fish, n, c, col[j].y as int, col[j].dp_down as int)
}

/// The rising value computed for a boundary at row `y` of column `x` is caught.
proof fn lemma_rise_value(fish: Seq<Fish>, n: int, x: int, prev: Seq<Position>, ib: int, i: int, y: int, val: int)
    requires
        fish_nonneg(fish),
        1 <= x <= n + 1,
        reach_done(fish, n, prev, x - 1),
        col_ok(prev),
        forall|k: int| 0 <= k < prev.len() ==> (#[trigger] prev[k]).weight_sum == band(fish, x - 1, 0, prev[k].y as int, fish.len() as int),
        0 <= ib <= i < prev.len(),
        prev[i].y <= y <= n,
        val == max(prev[ib].dp_up + prev[i].weight_sum - prev[ib].weight_sum, prev[0].dp_down as int),
    ensures
        rise_reachable(fish, n, x, y, val),
{
    assert(prev[ib].y <= prev[i].y) by {
        if ib < i {
            assert(prev[ib].y < prev[i].y);
        }
    }
    assert(rise_reachable(fish, n, x - 1, prev[ib].y as int, prev[ib].dp_up as int));
    assert(fall_reachable(fish, n, x - 1, prev[0].y as int, prev[0].dp_down as int));
    lemma_rise_after_rise(fish, n, x, prev[ib].y as int, prev[ib].dp_up as int, prev[i].y as int, y);
    lemma_rise_after_fall(fish, n, x, prev[0].dp_down as int, y);
}

/// The falling value computed for a boundary at row `y` of column `x` is caught.
proof fn lemma_fall_value(fish: Seq<Fish>, n: int, x: int, prev: Seq<Position>, ib: int, best: int, bws: int, y: int, val: int)
    requires
        fish_nonneg(fish),
        1 <= x <= n + 1,
        reach_done(fish, n, prev, x - 1),
        0 <= y <= n,
        ib == -1 ==> best == 0 && bws == 0,
        ib != -1 ==> 0 <= ib < prev.len() && best == max(prev[ib].dp_up as int, prev[ib].dp_down as int)
            && bws <= band(fish, x, 0, prev[ib].y as int, fish.len() as int) && y <= prev[ib].y <= n,
        val == max(best + bws - band(fish, x, 0, y, fish.len() as int), 0),
    ensures
        fall_reachable(fish, n, x, y, val),
{
    lemma_fall_nothing(fish, n, x, y);
    lemma_band_mono(fish, x, 0, y, 0, y, fish.len() as int);
    if ib != -1 && best + bws - band(fish, x, 0, y, fish.len() as int) > 0 {
        let pos = prev[ib];
        assert(rise_reachable(fish, n, x - 1, pos.y as int, pos.dp_up as int));
        assert(fall_reachable(fish, n, x - 1, pos.y as int, pos.dp_down as int));
        lemma_fall_after(fish, n, x, pos.y as int, pos.dp_up as int, pos.dp_down as int, bws, y);
    }
}

/// The columns after the dynamic program reached column `x`: column `c` holds, for
/// each boundary, values between `0` and the weight of the columns it can see.
pub open spec fn dp_done(p: Seq<Vec<Position>>, x: int) -> bool {
    forall|c: int, j: int|
        0 <= c < x && 0 <= j < p[c].len() ==> {
            &&& 0 <= (#[trigger] p[c]@[j]).dp_up <= cols_total(p, c)
            &&& 0 <= p[c]@[j].dp_down <= cols_total(p, c + 1)
        }
}

/// Changing only the values of column `x` keeps every boundary, weight sum and total.
proof fn lemma_same_shape(fish: Seq<Fish>, n: int, a: Seq<Vec<Position>>, b: Seq<Vec<Position>>, x: int)
    requires
        a.len() == b.len() == n + 2,
        0 <= x < a.len(),
        forall|c: int| 0 <= c < a.len() && c != x ==> #[trigger] b[c] == a[c],
        b[x].len() == a[x].len(),
        forall|k: int| 0 <= k < b[x].len() ==> (#[trigger] b[x]@[k]).y == a[x]@[k].y && b[x]@[k].weight_sum == a[x]@[k].weight_sum,
        forall|c: int| 0 <= c < a.len() ==> col_ok(#[trigger] a[c]@),
        sums_ok(fish, a),
        rows_present(fish, a, n),
    ensures
        forall|c: int| 0 <= c < b.len() ==> col_ok(#[trigger] b[c]@),
        forall|c: int| 0 <= c < b.len() ==> (#[trigger] b[c]@).last().y == a[c]@.last().y,
        sums_ok(fish, b),
        rows_present(fish, b, n),
        forall|c: int| 0 <= c <= b.len() ==> #[trigger] cols_total(b, c) == cols_total(a, c),
{
    let bx = b[x]@;
    let ax = a[x]@;
    assert(col_ok(bx)) by {
        assert forall|i: int, j: int| 0 <= i < j < bx.len() implies #[trigger] bx[i].y < #[trigger] bx[j].y by {
            assert(bx[i].y == ax[i].y && bx[j].y == ax[j].y);
        }
        assert forall|i: int, j: int| 0 <= i <= j < bx.len() implies #[trigger] bx[i].weight_sum <= #[trigger] bx[j].weight_sum by {
            assert(bx[i].weight_sum == ax[i].weight_sum && bx[j].weight_sum == ax[j].weight_sum);
        }
        assert(bx[0].y == ax[0].y && bx[0].weight_sum == ax[0].weight_sum);
    }
    assert forall|c: int| 0 <= c < b.len() implies col_ok(#[trigger] b[c]@) by {
        if c != x {
            assert(b[c] == a[c]);
        }
    }
    assert(bx.last().y == ax.last().y && bx.last().weight_sum == ax.last().weight_sum) by {
        let l = bx.len() - 1;
        assert(bx[l].y == ax[l].y);
    }
    assert forall|c: int| 0 <= c < b.len() implies (#[trigger] b[c]@).last().y == a[c]@.last().y by {
        if c != x {
            assert(b[c] == a[c]);
        }
    }
    assert forall|c: int, j: int| 0 <= c < b.len() && 0 <= j < b[c].len() implies (#[trigger] b[c]@[j]).weight_sum == band(
        fish,
        c,
        0,
        b[c]@[j].y as int,
        fish.len() as int,
    ) by {
        if c != x {
            assert(b[c] == a[c]);
        } else {
            assert(b[c]@[j].y == a[c]@[j].y);
        }
    }
    assert forall|t: int| has_row(ax, t) implies #[trigger] has_row(bx, t) by {
        let j = choose|j: int| #![trigger ax[j]] 0 <= j < ax.len() && ax[j].y == t;
        assert(bx[j].y == t);
    }
    assert forall|c: int| 0 <= c < n + 2 implies {
        &&& rows_cover(fish, #[trigger] b[c]@, c)
        &&& c >= 1 ==> rows_cover(fish, b[c]@, c + 1)
        &&& c <= n ==> rows_cover(fish, b[c]@, c - 1)
    } by {
        if c != x {
            assert(b[c] == a[c]);
        } else {
            assert(rows_cover(fish, a[c]@, c));
            assert forall|i: int| 0 <= i < fish.len() && #[trigger] fish[i].0 + 1 == c implies has_row(bx, fish[i].1 + 1) by {
                assert(has_row(ax, fish[i].1 + 1));
            }
            if c >= 1 {
                assert(rows_cover(fish, a[c]@, c + 1));
                assert forall|i: int| 0 <= i < fish.len() && #[trigger] fish[i].0 + 1 == c + 1 implies has_row(bx, fish[i].1 + 1) by {
                    assert(has_row(ax, fish[i].1 + 1));
                }
            }
            if c <= n {
                assert(rows_cover(fish, a[c]@, c - 1));
                assert forall|i: int| 0 <= i < fish.len() && #[trigger] fish[i].0 + 1 == c - 1 implies has_row(bx, fish[i].1 + 1) by {
                    assert(has_row(ax, fish[i].1 + 1));
                }
            }
        }
    }
    assert forall|c: int| 0 <= c <= b.len() implies #[trigger] cols_total(b, c) == cols_total(a, c) by {
        assert forall|k: int| 0 <= k < a.len() implies col_total(#[trigger] a[k]@) == col_total(b[k]@) by {
            if k != x {
                assert(b[k] == a[k]);
            }
        }
        lemma_cols_total_same(a, b, c);
    }
}

/// Fills the rising values of column `x` from those of column `x - 1`: for each
/// boundary, the best rising value below it plus the catfish of column `x - 1` that the
/// new pier catches, or the falling value of column `x - 1`'s empty boundary.
fn fill_up(p: &mut Vec<Vec<Position>>, x: usize, Ghost(n): Ghost<int>, Ghost(fish): Ghost<Seq<Fish>>)
    requires
        old(p).len() == n + 2,
        1 <= x < n + 2,
        1 <= n <= 0xffff_fffd,
        forall|c: int| 0 <= c < n + 2 ==> col_ok(#[trigger] old(p)[c]@),
        dp_done(old(p)@, x as int),
        cols_total(old(p)@, n + 2) <= 0x4000_0000_0000_0000,
        fish_nonneg(fish),
        sums_ok(fish, old(p)@),
        reach_done(fish, n, old(p)[x - 1]@, x - 1),
        forall|c: int| 0 <= c < n + 2 ==> (#[trigger] old(p)[c]@).last().y <= n,
        rows_present(fish, old(p)@, n),
        forall|k: int| 0 <= k < old(p)[x as int].len() ==> (#[trigger] old(p)[x as int]@[k]).dp_up == 0 && old(p)[x as int]@[k].dp_down == 0,
    ensures
        final(p).len() == old(p).len(),
        forall|c: int| 0 <= c < final(p).len() && c != x ==> #[trigger] final(p)[c] == old(p)[c],
        final(p)[x as int].len() == old(p)[x as int].len(),
        forall|k: int| 0 <= k < final(p)[x as int].len() ==> (#[trigger] final(p)[x as int]@[k]).y == old(p)[x as int]@[k].y
            && final(p)[x as int]@[k].weight_sum == old(p)[x as int]@[k].weight_sum
            && final(p)[x as int]@[k].dp_down == 0
            && 0 <= final(p)[x as int]@[k].dp_up <= cols_total(old(p)@, x as int)
            && rise_reachable(fish, n, x as int, final(p)[x as int]@[k].y as int, final(p)[x as int]@[k].dp_up as int),
        up_max_ok(fish, old(p)[x - 1]@, final(p)[x as int]@, x as int),
{
    let ghost cols: int = p.len() as int;
    let ghost pstart = p@;
    proof {
        lemma_cols_total_mono(p@, x as int, cols as int);
        lemma_cols_total_mono(p@, x + 1, cols as int);
        lemma_cols_total_mono(p@, 0, x - 1);
        lemma_cols_total_mono(p@, x - 1, x as int);
        lemma_col_total_le(p@, x - 1);
        lemma_col_total_le(p@, x as int);
    }
    // Calculate dp_up.
    let mut i: usize = 0;
    let mut j: usize = 0;
    let mut best = p[x - 1][0].dp_up;
    let mut best_weight_sum: i64 = 0;
    let ghost prev = p@[x - 1];
    let ghost mut ib: int = 0;
    while j < p[x].len()
        invariant
            p.len() == cols,
            1 <= x < cols,
            cols == n + 2,
            fish_nonneg(fish),
            sums_ok(fish, pstart),
            pstart.len() == cols,
            pstart[x - 1] == prev,
            reach_done(fish, n, prev@, x - 1),
            forall|c: int| 0 <= c < cols ==> (#[trigger] pstart[c]@).last().y <= n,
            0 <= ib <= i,
            best == prev@[ib].dp_up,
            best_weight_sum == prev@[ib].weight_sum,
            j < p@[x as int].len() ==> prev@[i as int].y <= p@[x as int]@[j as int].y,
            rows_present(fish, pstart, n),
            forall|k: int| 0 <= k <= i ==> (#[trigger] prev@[k]).dp_up - prev@[k].weight_sum <= best - best_weight_sum,
            forall|k: int| 0 <= k < j ==> prev@[0].dp_down <= (#[trigger] p@[x as int]@[k]).dp_up,
            forall|k: int, m: int|
                0 <= k < j && 0 <= m < prev.len() && prev@[m].y <= p@[x as int]@[k].y ==> #[trigger] prev@[m].dp_up + band(
                    fish,
                    x - 1,
                    prev@[m].y as int,
                    #[trigger] p@[x as int]@[k].y as int,
                    fish.len() as int,
                ) <= p@[x as int]@[k].dp_up,
            forall|k: int| 0 <= k < j ==> rise_reachable(fish, n, x as int, (#[trigger] p@[x as int]@[k]).y as int, p@[x as int]@[k].dp_up as int),
            p@[x - 1] == prev,
            forall|c: int| 0 <= c < cols && c != x ==> #[trigger] p@[c] == pstart[c],
            forall|c: int| 0 <= c < cols ==> col_ok(#[trigger] p[c]@),
            p@[x as int].len() == pstart[x as int].len(),
            forall|k: int| 0 <= k < p@[x as int].len() ==> (#[trigger] p@[x as int]@[k]).y == pstart[x as int]@[k].y && p@[x as int]@[k].weight_sum == pstart[x as int]@[k].weight_sum,
            forall|k: int| 0 <= k < p@[x as int].len() ==> (#[trigger] p@[x as int]@[k]).dp_down == 0,
            forall|k: int| 0 <= k < j ==> 0 <= (#[trigger] p@[x as int]@[k]).dp_up <= cols_total(pstart, x as int),
            forall|k: int| j <= k < p@[x as int].len() ==> (#[trigger] p@[x as int]@[k]).dp_up == pstart[x as int]@[k].dp_up,
            j <= p@[x as int].len(),
            i < prev.len(),
            0 <= best <= cols_total(pstart, x - 1),
            0 <= best_weight_sum <= prev@[i as int].weight_sum,
            dp_done(pstart, x as int),
            cols_total(pstart, x as int) == cols_total(pstart, x - 1) + col_total(prev@),
            cols_total(pstart, x as int) <= 0x4000_0000_0000_0000,
            0 <= cols_total(pstart, x - 1),
            forall|k: int| 0 <= k < prev.len() ==> 0 <= #[trigger] prev@[k].weight_sum <= col_total(prev@),
        decreases p@[x as int].len() - j,
    {
        let y = p[x][j].y;
        while i + 1 < p[x - 1].len() && p[x - 1][i + 1].y <= y
            invariant
                p@[x - 1] == prev,
                1 <= x < cols,
                p.len() == cols,
                i < prev.len(),
                0 <= ib <= i,
                best == prev@[ib].dp_up,
                best_weight_sum == prev@[ib].weight_sum,
                prev@[i as int].y <= y,
                forall|k: int| 0 <= k <= i ==> (#[trigger] prev@[k]).dp_up - prev@[k].weight_sum <= best - best_weight_sum,
                col_ok(prev@),
                0 <= best <= cols_total(pstart, x - 1),
                0 <= best_weight_sum <= prev@[i as int].weight_sum,
                dp_done(pstart, x as int),
                pstart[x - 1] == prev,
                cols_total(pstart, x as int) == cols_total(pstart, x - 1) + col_total(prev@),
                cols_total(pstart, x as int) <= 0x4000_0000_0000_0000,
                0 <= cols_total(pstart, x - 1),
                forall|k: int| 0 <= k < prev.len() ==> 0 <= #[trigger] prev@[k].weight_sum <= col_total(prev@),
            decreases prev.len() - i,
        {
            i = i + 1;
            let pos = p[x - 1][i];
            proof {
                assert(pstart[x - 1]@[i as int] == pos);
                assert(prev@[i - 1].weight_sum <= prev@[i as int].weight_sum);
            }
            // Potential new best; it must be better even while losing some fish in
            // the previous column.
            if best + pos.weight_sum - best_weight_sum < pos.dp_up {
                best = pos.dp_up;
                best_weight_sum = pos.weight_sum;
                proof {
                    ib = i as int;
                }
            }
        }
        let ghost pj = p@;
        proof {
            assert(prev@[i as int].weight_sum <= prev@[prev.len() - 1].weight_sum);
            assert(pstart[x - 1]@[0] == prev@[0]);
        }
        let candidate = best + p[x - 1][i].weight_sum - best_weight_sum;
        let from_down = p[x - 1][0].dp_down;
        let cur = p[x][j];
        p[x].set(
            j,
            Position {
                y: cur.y,
                weight_sum: cur.weight_sum,
                dp_up: if candidate > from_down { candidate } else { from_down },
                dp_down: cur.dp_down,
            },
        );
        proof {
            assert forall|k: int| 0 <= k < prev.len() implies (#[trigger] prev@[k]).weight_sum == band(fish, x - 1, 0, prev@[k].y as int, fish.len() as int) by {
                assert(pstart[x - 1]@[k] == prev@[k]);
            }
            assert(y <= n) by {
                let col = pj[x as int]@;
                let last = col.len() - 1;
                assert(col[j as int].y <= col[last].y);
                assert(col[last].y == pstart[x as int]@[last].y);
                assert(pstart[x as int]@.last().y <= n);
            }
            lemma_rise_value(fish, n, x as int, prev@, ib, i as int, y as int, p@[x as int]@[j as int].dp_up as int);
            assert(rows_cover(fish, pstart[x - 1]@, x - 1));
            lemma_up_step(fish, prev@, x - 1, i as int, y as int, best as int, best_weight_sum as int);
            assert(col_ok(p@[x as int]@)) by {
                assert forall|a: int, b: int| 0 <= a < b < p@[x as int].len() implies #[trigger] p@[x as int]@[a].y < #[trigger] p@[x as int]@[b].y by {
                    assert(pj[x as int]@[a].y == pstart[x as int]@[a].y);
                    assert(pj[x as int]@[b].y == pstart[x as int]@[b].y);
                }
                assert forall|a: int, b: int| 0 <= a <= b < p@[x as int].len() implies #[trigger] p@[x as int]@[a].weight_sum <= #[trigger] p@[x as int]@[b].weight_sum by {
                    assert(pj[x as int]@[a].weight_sum == pstart[x as int]@[a].weight_sum);
                    assert(pj[x as int]@[b].weight_sum == pstart[x as int]@[b].weight_sum);
                }
            }
        }
        j = j + 1;
    }
}

/// Fills the falling values of column `x` from the values of column `x - 1`: for each
/// boundary, the best value of a boundary above it plus the catfish of column `x` that
/// the pier of column `x - 1` catches, or nothing.
fn fill_down(p: &mut Vec<Vec<Position>>, x: usize, Ghost(n): Ghost<int>, Ghost(fish): Ghost<Seq<Fish>>)
    requires
        old(p).len() == n + 2,
        1 <= x < n + 2,
        1 <= n <= 0xffff_fffd,
        forall|c: int| 0 <= c < n + 2 ==> col_ok(#[trigger] old(p)[c]@),
        dp_done(old(p)@, x as int),
        cols_total(old(p)@, n + 2) <= 0x4000_0000_0000_0000,
        fish_nonneg(fish),
        sums_ok(fish, old(p)@),
        reach_done(fish, n, old(p)[x - 1]@, x - 1),
        forall|c: int| 0 <= c < n + 2 ==> (#[trigger] old(p)[c]@).last().y <= n,
        rows_present(fish, old(p)@, n),
        forall|k: int| 0 <= k < old(p)[x as int].len() ==> (#[trigger] old(p)[x as int]@[k]).dp_down == 0
            && 0 <= old(p)[x as int]@[k].dp_up <= cols_total(old(p)@, x as int)
            && rise_reachable(fish, n, x as int, old(p)[x as int]@[k].y as int, old(p)[x as int]@[k].dp_up as int),
    ensures
        final(p).len() == old(p).len(),
        forall|c: int| 0 <= c < final(p).len() && c != x ==> #[trigger] final(p)[c] == old(p)[c],
        final(p)[x as int].len() == old(p)[x as int].len(),
        forall|k: int| 0 <= k < final(p)[x as int].len() ==> (#[trigger] final(p)[x as int]@[k]).y == old(p)[x as int]@[k].y
            && final(p)[x as int]@[k].weight_sum == old(p)[x as int]@[k].weight_sum
            && final(p)[x as int]@[k].dp_up == old(p)[x as int]@[k].dp_up
            && 0 <= final(p)[x as int]@[k].dp_down <= cols_total(old(p)@, x + 1)
            && fall_reachable(fish, n, x as int, final(p)[x as int]@[k].y as int, final(p)[x as int]@[k].dp_down as int),
        down_max_ok(fish, old(p)[x - 1]@, final(p)[x as int]@, x as int),
{
    let ghost cols: int = p.len() as int;
    let ghost pstart = p@;
    let ghost prev = p@[x - 1];
    proof {
        assert(rows_cover(fish, pstart[x as int]@, x as int));
        assert(col_ok(pstart[x as int]@) && col_ok(prev@));
    }
    proof {
        lemma_cols_total_mono(p@, x as int, cols as int);
        lemma_cols_total_mono(p@, x + 1, cols as int);
        lemma_cols_total_mono(p@, 0, x - 1);
        lemma_cols_total_mono(p@, x - 1, x as int);
        lemma_col_total_le(p@, x - 1);
        lemma_col_total_le(p@, x as int);
    }
    // Calculate dp_down.
    let ghost pmid = p@;
    let mut i = p[x - 1].len();
    let mut j = p[x].len();
    let mut best: i64 = 0;
    let mut best_weight_sum: i64 = 0;
    let ghost mut ib: int = -1;
    proof {
        assert(col_total(p@[x as int]@) == col_total(pstart[x as int]@)) by {
            assert(p@[x as int]@[p@[x as int].len() - 1].weight_sum == pstart[x as int]@[p@[x as int].len() - 1].weight_sum);
        }
    }
    while j > 0
        invariant
            p.len() == cols,
            1 <= x < cols,
            p@[x - 1] == prev,
            pstart[x - 1] == prev,
            cols == n + 2,
            fish_nonneg(fish),
            sums_ok(fish, pstart),
            pstart.len() == cols,
            reach_done(fish, n, prev@, x - 1),
            forall|c: int| 0 <= c < cols ==> (#[trigger] pstart[c]@).last().y <= n,
            ib == -1 ==> best == 0 && best_weight_sum == 0,
            ib != -1 ==> i <= ib < prev.len() && best == max(prev@[ib].dp_up as int, prev@[ib].dp_down as int)
                && best_weight_sum <= band(fish, x as int, 0, prev@[ib].y as int, fish.len() as int)
                && j < p@[x as int].len() && p@[x as int]@[j as int].y <= prev@[ib].y,
            forall|k: int| 0 <= k < p@[x as int].len() ==> rise_reachable(fish, n, x as int, (#[trigger] p@[x as int]@[k]).y as int, p@[x as int]@[k].dp_up as int),
            forall|k: int| j <= k < p@[x as int].len() ==> fall_reachable(fish, n, x as int, (#[trigger] p@[x as int]@[k]).y as int, p@[x as int]@[k].dp_down as int),
            rows_present(fish, pstart, n),
            forall|k: int|
                i <= k < prev.len() ==> max(#[trigger] prev@[k].dp_up as int, prev@[k].dp_down as int) + band(fish, x as int, 0, prev@[k].y as int, fish.len() as int)
                    <= best + best_weight_sum,
            i > 0 && j < p@[x as int].len() ==> prev@[i - 1].y < pstart[x as int]@[j as int].y,
            col_ok(pstart[x as int]@),
            col_ok(prev@),
            rows_cover(fish, pstart[x as int]@, x as int),
            forall|k: int, m: int|
                j <= k < p@[x as int].len() && 0 <= m < prev.len() && p@[x as int]@[k].y <= prev@[m].y ==> max(
                    #[trigger] prev@[m].dp_up as int,
                    prev@[m].dp_down as int,
                ) + band(fish, x as int, #[trigger] p@[x as int]@[k].y as int, prev@[m].y as int, fish.len() as int) <= p@[x as int]@[k].dp_down,
            forall|c: int| 0 <= c < cols && c != x ==> #[trigger] p@[c] == pstart[c],
            forall|c: int| 0 <= c < cols ==> col_ok(#[trigger] p[c]@),
            p@[x as int].len() == pstart[x as int].len(),
            forall|k: int| 0 <= k < p@[x as int].len() ==> (#[trigger] p@[x as int]@[k]).y == pstart[x as int]@[k].y && p@[x as int]@[k].weight_sum == pstart[x as int]@[k].weight_sum,
            forall|k: int| 0 <= k < p@[x as int].len() ==> 0 <= (#[trigger] p@[x as int]@[k]).dp_up <= cols_total(pstart, x as int),
            forall|k: int| 0 <= k < p@[x as int].len() ==> (#[trigger] p@[x as int]@[k]).dp_up == pstart[x as int]@[k].dp_up,
            forall|k: int| j <= k < p@[x as int].len() ==> 0 <= (#[trigger] p@[x as int]@[k]).dp_down <= cols_total(pstart, x + 1),
            j <= p@[x as int].len(),
            i <= prev.len(),
            0 <= best <= cols_total(pstart, x as int),
            0 <= best_weight_sum <= col_total(p@[x as int]@),
            j < p@[x as int].len() ==> best_weight_sum == 0 || p@[x as int]@[j as int].weight_sum <= best_weight_sum,
            j == p@[x as int].len() ==> best_weight_sum == 0,
            dp_done(pstart, x as int),
            cols_total(pstart, x + 1) == cols_total(pstart, x as int) + col_total(pstart[x as int]@),
            col_total(p@[x as int]@) == col_total(pstart[x as int]@),
            cols_total(pstart, x + 1) <= 0x4000_0000_0000_0000,
            cols_total(pstart, x as int) <= cols_total(pstart, x + 1),
            cols_total(pstart, x - 1) <= cols_total(pstart, x as int),
        decreases j,
    {
        j = j - 1;
        let y = p[x][j].y;
        let cur_ws = p[x][j].weight_sum;
        proof {
            let col = p@[x as int]@;
            assert(col[j as int].weight_sum <= col[col.len() - 1].weight_sum);
            assert(col[0].weight_sum <= col[j as int].weight_sum);
            assert(pstart[x as int]@[0].weight_sum == 0);
            assert(cur_ws == band(fish, x as int, 0, y as int, fish.len() as int)) by {
                assert(col[j as int].y == pstart[x as int]@[j as int].y);
            }
            if ib != -1 {
                assert(col[j as int].y < col[j + 1].y);
            }
        }
        while i > 0 && p[x - 1][i - 1].y >= y
            invariant
                p@[x - 1] == prev,
                pstart[x - 1] == prev,
                1 <= x < cols,
                p.len() == cols,
                i <= prev.len(),
                fish_nonneg(fish),
                cur_ws == band(fish, x as int, 0, y as int, fish.len() as int),
                ib == -1 ==> best == 0 && best_weight_sum == 0,
                ib != -1 ==> i <= ib < prev.len() && best == max(prev@[ib].dp_up as int, prev@[ib].dp_down as int)
                    && best_weight_sum <= band(fish, x as int, 0, prev@[ib].y as int, fish.len() as int)
                    && y <= prev@[ib].y,
                forall|k: int|
                    i <= k < prev.len() ==> max(#[trigger] prev@[k].dp_up as int, prev@[k].dp_down as int) + band(fish, x as int, 0, prev@[k].y as int, fish.len() as int)
                        <= best + best_weight_sum,
                i > 0 && j + 1 < p@[x as int].len() ==> prev@[i - 1].y < pstart[x as int]@[j + 1].y,
                j < p@[x as int].len(),
                col_ok(prev@),
                p@[x as int].len() == pstart[x as int].len(),
                col_ok(pstart[x as int]@),
                rows_cover(fish, pstart[x as int]@, x as int),
                y == pstart[x as int]@[j as int].y,
                0 <= best <= cols_total(pstart, x as int),
                0 <= best_weight_sum <= col_total(p@[x as int]@),
                best_weight_sum == 0 || cur_ws <= best_weight_sum,
                0 <= cur_ws <= col_total(p@[x as int]@),
                dp_done(pstart, x as int),
                cols_total(pstart, x - 1) <= cols_total(pstart, x as int),
                cols_total(pstart, x + 1) == cols_total(pstart, x as int) + col_total(p@[x as int]@),
                cols_total(pstart, x + 1) <= 0x4000_0000_0000_0000,
            decreases i,
        {
            i = i - 1;
            let pos = p[x - 1][i];
            let top = if pos.dp_up > pos.dp_down { pos.dp_up } else { pos.dp_down };
            proof {
                assert(pstart[x - 1]@[i as int] == pos);
                lemma_band_gap(fish, x as int, pstart[x as int]@, j as int, pos.y as int, 0);
            }
            if best + best_weight_sum - cur_ws < top {
                best = top;
                best_weight_sum = cur_ws;
                proof {
                    ib = i as int;
                    lemma_band_mono(fish, x as int, 0, y as int, 0, pos.y as int, fish.len() as int);
                }
            }
        }
        let cand = best + best_weight_sum - cur_ws;
        let cur = p[x][j];
        let ghost pj = p@;
        p[x].set(
            j,
            Position {
                y: cur.y,
                weight_sum: cur.weight_sum,
                dp_up: cur.dp_up,
                dp_down: if cand > 0 { cand } else { 0 },
            },
        );
        proof {
            assert(0 <= y <= n) by {
                let col = pj[x as int]@;
                let last = col.len() - 1;
                assert(col[0].y <= col[j as int].y <= col[last].y);
                assert(col[last].y == pstart[x as int]@[last].y);
                assert(pstart[x as int]@.last().y <= n);
            }
            if ib != -1 {
                assert(prev@[ib].y <= n) by {
                    let last = prev.len() - 1;
                    assert(prev@[ib].y <= prev@[last].y);
                }
            }
            lemma_fall_value(fish, n, x as int, prev@, ib, best as int, best_weight_sum as int, y as int, p@[x as int]@[j as int].dp_down as int);
            lemma_down_step(fish, prev@, x as int, i as int, y as int, cur_ws as int, best + best_weight_sum);
            assert(col_ok(p@[x as int]@)) by {
                assert forall|a: int, b: int| 0 <= a < b < p@[x as int].len() implies #[trigger] p@[x as int]@[a].y < #[trigger] p@[x as int]@[b].y by {
                    assert(pj[x as int]@[a].y == pstart[x as int]@[a].y);
                    assert(pj[x as int]@[b].y == pstart[x as int]@[b].y);
                }
                assert forall|a: int, b: int| 0 <= a <= b < p@[x as int].len() implies #[trigger] p@[x as int]@[a].weight_sum <= #[trigger] p@[x as int]@[b].weight_sum by {
                    assert(pj[x as int]@[a].weight_sum == pstart[x as int]@[a].weight_sum);
                    assert(pj[x as int]@[b].weight_sum == pstart[x as int]@[b].weight_sum);
                }
            }
            assert(col_total(p@[x as int]@) == col_total(pstart[x as int]@)) by {
                let last = p@[x as int].len() - 1;
                assert(p@[x as int]@[last].weight_sum == pstart[x as int]@[last].weight_sum);
            }
        }
    }
}

/// The best total weight of catfish that can be caught in an `n x n` pond holding
/// the given catfish `(x, y, w)`.
pub fn solve(n: i64, fish: Vec<Fish>) -> (result: i64)
    requires
        1 <= n <= 0xffff_fffd,
        fish.len() <= 0x1_0000_0000,
        fish_within(n as int, fish@),
    ensures
        0 <= result <= max_weight() * fish.len(),
        exists|h: Seq<int>| #[trigger] piers_ok(n as int, h) && catch(n as int, h, fish@) == result,
        forall|h: Seq<int>| #[trigger] piers_ok(n as int, h) ==> catch(n as int, h, fish@) <= result,
{
    let cols = (n + 2) as usize;
    let mut p: Vec<Vec<Position>> = Vec::new();
    while p.len() < cols
        invariant
            p.len() <= cols,
            forall|c: int| 0 <= c < p.len() ==> (#[trigger] p[c])@ == seq![Position { y: 0, weight_sum: 0, dp_up: 0, dp_down: 0 }],
        decreases cols - p.len(),
    {
        let mut col = Vec::new();
        col.push(Position { y: 0, weight_sum: 0, dp_up: 0, dp_down: 0 });
        p.push(col);
    }
    proof {
        assert forall|c: int| 0 <= c <= cols implies #[trigger] cols_total(p@, c) == 0 by {
            lemma_cols_total_zero(p@, c);
        }
    }

    let mut keys: Vec<i64> = Vec::new();
    let mut k: usize = 0;
    while k < fish.len()
        invariant
            k <= fish.len(),
            keys.len() == k,
            forall|i: int| 0 <= i < k ==> #[trigger] keys@[i] == fish@[i].1,
        decreases fish.len() - k,
    {
        keys.push(fish[k].1);
        k = k + 1;
    }
    let order = sort_indices_by_key(&keys);

    let ghost mut total: int = 0;
    proof {
        assert(present_ok(fish@, order@.subrange(0, 0), p@, n as int));
        assert forall|c: int, j: int| 0 <= c < p.len() && 0 <= j < p[c].len() implies (#[trigger] p@[c]@[j]).weight_sum
            == placed_weight(fish@, order@.subrange(0, 0), c, p@[c]@[j].y as int, fish.len() as int) by {
            lemma_placed_empty(fish@, order@.subrange(0, 0), c, p@[c]@[j].y as int, fish.len() as int);
        }
        if order.len() > 0 {
            assert(order@[0] < fish.len());
            assert(0 <= fish@[order@[0] as int].0 < n);
            assert(0 <= fish@[order@[0] as int].1);
        }
    }
    let mut k: usize = 0;
    while k < order.len()
        invariant
            order.len() == fish.len(),
            keys@.len() == fish.len(),
            forall|i: int| 0 <= i < fish.len() ==> #[trigger] keys@[i] == fish@[i].1,
            ordered(keys@, order@),
            forall|i: int| 0 <= i < order.len() ==> #[trigger] order@[i] < fish.len(),
            fish_within(n as int, fish@),
            1 <= n <= 0xffff_fffd,
            fish.len() <= 0x1_0000_0000,
            cols == n + 2,
            p.len() == cols,
            k <= order.len(),
            forall|c: int| 0 <= c < cols ==> col_ok(#[trigger] p[c]@),
            forall|c: int, j: int| 0 <= c < cols && 0 <= j < p[c].len() ==> (#[trigger] p[c]@[j]).dp_up == 0 && p[c]@[j].dp_down == 0,
            k < order.len() ==> forall|c: int| 0 <= c < cols ==> (#[trigger] p[c]@).last().y <= fish@[order@[k as int] as int].1 + 1,
            cols_total(p@, cols as int) == total,
            0 <= total <= max_weight() * k,
            placed_ok(fish@, order@.subrange(0, k as int), p@),
            present_ok(fish@, order@.subrange(0, k as int), p@, n as int),
            p@[0]@.len() == 1,
            forall|c: int| 0 <= c < cols ==> (#[trigger] p[c]@).last().y <= n,
        decreases order.len() - k,
    {
        let f = fish[order[k]];
        let (x, y, w) = f;
        let ghost p0 = p@;
        proof {
            assert(0 <= fish@[order@[k as int] as int].0 < n);
            lemma_cols_total_mono(p@, x + 2, cols as int);
            lemma_cols_total_mono(p@, 0, x + 1);
        }
        if x > 0 {
            let ghost pb = p@;
            add_boundary(&mut p, x as usize, y + 1, 0);
            proof {
                assert(p@ =~= pb.update(x as int, p@[x as int]));
                lemma_cols_total_update(pb, x as int, p@[x as int], cols as int);
            }
        }
        let ghost pa = p@;
        proof {
            assert(x > 0 ==> pa[x as int]@ == added(p0[x as int]@, y + 1, 0));
            assert(forall|c: int| 0 <= c < cols && !(x > 0 && c == x) ==> #[trigger] pa[c] == p0[c]);
        }
        proof {
            lemma_cols_total_mono(p@, x + 1, x + 2);
            lemma_col_total_le(p@, x + 1);
            lemma_cols_total_mono(p@, x + 2, cols as int);
        }
        let ghost pb = p@;
        add_boundary(&mut p, (x + 1) as usize, y + 1, w);
        proof {
            assert(p@ =~= pb.update(x + 1, p@[x + 1]));
            lemma_cols_total_update(pb, x + 1, p@[x + 1], cols as int);
        }
        let ghost pc = p@;
        proof {
            assert(pc[x + 1]@ == added(p0[x + 1]@, y + 1, w as int));
            assert(forall|c: int| 0 <= c < cols && c != x + 1 ==> #[trigger] pc[c] == pa[c]);
        }
        if x + 2 <= n {
            let ghost pb = p@;
            add_boundary(&mut p, (x + 2) as usize, y + 1, 0);
            proof {
                assert(p@ =~= pb.update(x + 2, p@[x + 2]));
                lemma_cols_total_update(pb, x + 2, p@[x + 2], cols as int);
            }
        }
        proof {
            let ins = order@.subrange(0, k as int);
            let q = order@[k as int];
            assert(!ins.contains(q)) by {
                if ins.contains(q) {
                    let t = choose|t: int| 0 <= t < ins.len() && ins[t] == q;
                    assert(before(keys@, order@[t] as int, order@[k as int] as int));
                }
            }
            assert(order@.subrange(0, k + 1) =~= ins.push(q));
            assert(x + 2 <= n ==> p@[x + 2]@ == added(p0[x + 2]@, y + 1, 0));
            assert(forall|c: int| 0 <= c < cols && !(x + 2 <= n && c == x + 2) ==> #[trigger] p@[c] == pc[c]);
            lemma_insert_step(fish@, ins, q, p0, p@, n as int);
            lemma_present_step(fish@, ins, q, p0, p@, n as int);
            assert forall|c: int| 0 <= c < cols implies (#[trigger] p[c]@).last().y <= n by {
                if p@[c] != p0[c] {
                    assert(p@[c]@.last().y == y + 1);
                }
            }
        }
        proof {
            total = total + w;
            assert(max_weight() * k + w <= max_weight() * (k + 1)) by (nonlinear_arith)
                requires w <= max_weight();
            if k + 1 < order.len() {
                assert(before(keys@, order@[k as int] as int, order@[k + 1] as int));
            }
        }
        k = k + 1;
    }

    proof {
        assert(order@.subrange(0, order.len() as int) =~= order@);
        assert forall|c: int, j: int| 0 <= c < cols && 0 <= j < p[c].len() implies (#[trigger] p@[c]@[j]).weight_sum
            == band(fish@, c, 0, p@[c]@[j].y as int, fish.len() as int) by {
            assert forall|i: int| 0 <= i < fish.len() implies #[trigger] order@.contains(i as usize) by {
                assert(keys@.len() == fish.len());
            }
            assert forall|i: int| 0 <= i < fish.len() implies 0 <= #[trigger] fish@[i].1 by {
                assert(0 <= fish@[i].0 < n && 0 <= fish@[i].1 < n);
            }
            lemma_placed_all(fish@, order@, c, p@[c]@[j].y as int, fish.len() as int);
        }
        assert forall|c: int| 0 <= c < n + 2 implies {
            &&& rows_cover(fish@, #[trigger] p@[c]@, c)
            &&& c >= 1 ==> rows_cover(fish@, p@[c]@, c + 1)
            &&& c <= n ==> rows_cover(fish@, p@[c]@, c - 1)
        } by {
            assert forall|i: int| 0 <= i < fish.len() implies #[trigger] order@.contains(i as usize) by {
                assert(keys@.len() == fish.len());
            }
            assert forall|i: int| 0 <= i < fish.len() && #[trigger] fish@[i].0 + 1 == c implies has_row(p@[c]@, fish@[i].1 + 1) by {
                assert(order@.contains(i as usize));
            }
            if c >= 1 {
                assert forall|i: int| 0 <= i < fish.len() && #[trigger] fish@[i].0 + 1 == c + 1 implies has_row(p@[c]@, fish@[i].1 + 1) by {
                    assert(order@.contains(i as usize));
                }
            }
            if c <= n {
                assert forall|i: int| 0 <= i < fish.len() && #[trigger] fish@[i].0 + 1 == c - 1 implies has_row(p@[c]@, fish@[i].1 + 1) by {
                    assert(order@.contains(i as usize));
                    assert(0 <= fish@[i].0 < n);
                }
            }
        }
        assert(rows_present(fish@, p@, n as int));
    }
    let mut x: usize = 1;
    proof {
        assert(fish_nonneg(fish@)) by {
            assert forall|i: int| 0 <= i < fish.len() implies 0 <= #[trigger] fish@[i].0 && 0 <= fish@[i].2 by {
                assert(0 <= fish@[i].0 < n);
            }
        }
        assert(p@[0]@[0].y == 0 && p@[0]@[0].dp_up == 0 && p@[0]@[0].dp_down == 0);
        catch::lemma_reach_start(fish@, n as int);
        assert(reach_done(fish@, n as int, p@[0]@, 0));
        assert forall|c: int, j: int| 0 <= c < 1 && 0 <= j < p[c].len() implies {
            &&& 0 <= (#[trigger] p@[c]@[j]).dp_up <= cols_total(p@, c)
            &&& 0 <= p@[c]@[j].dp_down <= cols_total(p@, c + 1)
        } by {
            lemma_cols_total_mono(p@, 0, 1);
        }
    }
    while x < cols
        invariant
            p.len() == cols,
            cols == n + 2,
            1 <= x <= cols,
            forall|c: int| 0 <= c < cols ==> col_ok(#[trigger] p[c]@),
            forall|c: int, j: int| x <= c < cols && 0 <= j < p[c].len() ==> (#[trigger] p[c]@[j]).dp_up == 0 && p[c]@[j].dp_down == 0,
            dp_done(p@, x as int),
            0 <= total <= max_weight() * fish.len(),
            fish.len() <= 0x1_0000_0000,
            cols_total(p@, cols as int) == total,
            fish_within(n as int, fish@),
            fish_nonneg(fish@),
            1 <= n <= 0xffff_fffd,
            sums_ok(fish@, p@),
            p@[0]@.len() == 1,
            forall|c: int| 0 <= c < cols ==> (#[trigger] p[c]@).last().y <= n,
            forall|c: int| 0 <= c < x ==> reach_done(fish@, n as int, #[trigger] p@[c]@, c),
            rows_present(fish@, p@, n as int),
            forall|c: int| 1 <= c < x ==> up_max_ok(fish@, p@[c - 1]@, #[trigger] p@[c]@, c) && down_max_ok(fish@, p@[c - 1]@, p@[c]@, c),
        decreases cols - x,
    {
        let ghost pstart = p@;
        proof {
            assert(max_weight() * fish.len() <= 0x4000_0000_0000_0000) by (nonlinear_arith)
                requires fish.len() <= 0x1_0000_0000;
        }
        fill_up(&mut p, x, Ghost(n as int), Ghost(fish@));
        let ghost pmid = p@;
        proof {
            lemma_same_shape(fish@, n as int, pstart, pmid, x as int);
            assert(dp_done(pmid, x as int)) by {
                assert forall|c: int, k: int| 0 <= c < x && 0 <= k < pmid[c].len() implies {
                    &&& 0 <= (#[trigger] pmid[c]@[k]).dp_up <= cols_total(pmid, c)
                    &&& 0 <= pmid[c]@[k].dp_down <= cols_total(pmid, c + 1)
                } by {
                    assert(pmid[c] == pstart[c]);
                }
            }
            assert(pmid[x - 1] == pstart[x - 1]);
        }
        fill_down(&mut p, x, Ghost(n as int), Ghost(fish@));
        proof {
            lemma_same_shape(fish@, n as int, pmid, p@, x as int);
            assert(p@[x - 1] == pstart[x - 1]);
            assert forall|c: int, k: int| 0 <= c < x + 1 && 0 <= k < p[c].len() implies {
                &&& 0 <= (#[trigger] p@[c]@[k]).dp_up <= cols_total(p@, c)
                &&& 0 <= p@[c]@[k].dp_down <= cols_total(p@, c + 1)
            } by {
                if c < x {
                    assert(p@[c] == pstart[c]);
                } else {
                    assert(pmid[x as int]@[k].dp_up == p@[x as int]@[k].dp_up);
                }
            }
            assert(reach_done(fish@, n as int, p@[x as int]@, x as int)) by {
                assert forall|k: int| 0 <= k < p@[x as int]@.len() implies rise_reachable(fish@, n as int, x as int, (#[trigger] p@[x as int]@[k]).y as int, p@[x as int]@[k].dp_up as int)
                    && fall_reachable(fish@, n as int, x as int, p@[x as int]@[k].y as int, p@[x as int]@[k].dp_down as int) by {
                    assert(pmid[x as int]@[k].dp_up == p@[x as int]@[k].dp_up);
                    assert(pmid[x as int]@[k].y == p@[x as int]@[k].y);
                }
            }
            assert(up_max_ok(fish@, p@[x - 1]@, p@[x as int]@, x as int)) by {
                let prev = pstart[x - 1]@;
                let cur = p@[x as int]@;
                let cm = pmid[x as int]@;
                assert forall|i: int, j: int| 0 <= i < prev.len() && 0 <= j < cur.len() && prev[i].y <= cur[j].y implies #[trigger] prev[i].dp_up
                    + band(fish@, x - 1, prev[i].y as int, #[trigger] cur[j].y as int, fish.len() as int) <= cur[j].dp_up by {
                    assert(cm[j].y == cur[j].y && cm[j].dp_up == cur[j].dp_up);
                }
                assert forall|j: int| 0 <= j < cur.len() implies prev[0].dp_down <= #[trigger] cur[j].dp_up by {
                    assert(cm[j].dp_up == cur[j].dp_up);
                }
            }
            assert forall|c: int| 1 <= c < x + 1 implies up_max_ok(fish@, p@[c - 1]@, #[trigger] p@[c]@, c) && down_max_ok(fish@, p@[c - 1]@, p@[c]@, c) by {
                if c < x {
                    assert(p@[c] == pstart[c] && p@[c - 1] == pstart[c - 1]);
                }
            }
            assert forall|c: int| 0 <= c < x + 1 implies reach_done(fish@, n as int, #[trigger] p@[c]@, c) by {
                if c < x {
                    assert(p@[c] == pstart[c]);
                }
            }
        }
        x = x + 1;
    }
    let res = p[cols - 1][0].dp_down;
    proof {
        assert(cols_total(p@, cols as int) == total);
        let last = cols - 1;
        let len = fish.len() as int;
        let pos = p@[last]@[0];
        assert(reach_done(fish@, n as int, p@[last]@, last));
        assert(fall_reachable(fish@, n as int, last, pos.y as int, pos.dp_down as int));
        let g = choose|g: Seq<int>|
            #![trigger padded_ok(n as int, g)]
            padded_ok(n as int, g) && g[last] == 0 && res <= cols_catch(fish@, g, last - 1, len) + band(fish@, last, 0, g[last - 1], len);
        assert forall|i: int| 0 <= i < len implies #[trigger] fish@[i].0 + 1 != last by {
            assert(0 <= fish@[i].0 < n);
        }
        catch::lemma_band_empty(fish@, last, 0, g[last - 1], len);
        catch::lemma_catch_by_columns(n as int, g, fish@, len);
        let h = g.subrange(1, n + 1);
        assert(piers_ok(n as int, h));
        assert(0 <= p@[0]@[0].dp_up <= cols_total(p@, 0));
        assert(optimal::dp_final(fish@, n as int, p@));
        optimal::lemma_row_zero(p@, last);
        assert forall|h: Seq<int>| #[trigger] piers_ok(n as int, h) implies catch(n as int, h, fish@) <= res by {
            optimal::lemma_no_better(fish@, n as int, p@, h);
        }
        assert(catch(n as int, h, fish@) == res);
    }
    res
}

proof fn lemma_cols_total_zero(p: Seq<Vec<Position>>, c: int)
    requires
        c <= p.len(),
        forall|k: int| 0 <= k < p.len() ==> (#[trigger] p[k])@ == seq![Position { y: 0, weight_sum: 0, dp_up: 0, dp_down: 0 }],
    ensures
        cols_total(p, c) == 0,
    decreases c,
{
    if c > 0 {
        lemma_cols_total_zero(p, c - 1);
    }
}

/// A column's collected weight is at least its first boundary's.
proof fn lemma_col_total_le(p: Seq<Vec<Position>>, x: int)
    requires
        0 <= x < p.len(),
        col_ok(p[x]@),
    ensures
        0 <= col_total(p[x]@),
        forall|j: int| 0 <= j < p[x].len() ==> 0 <= #[trigger] p[x]@[j].weight_sum <= col_total(p[x]@),
{
    let col = p[x]@;
    assert(col[0].weight_sum <= col[col.len() - 1].weight_sum);
    assert forall|j: int| 0 <= j < p[x].len() implies 0 <= #[trigger] p[x]@[j].weight_sum <= col_total(p[x]@) by {
        assert(col[0].weight_sum <= col[j].weight_sum);
        assert(col[j].weight_sum <= col[col.len() - 1].weight_sum);
    }
}

/// Columns with the same collected weights have the same totals.
proof fn lemma_cols_total_same(a: Seq<Vec<Position>>, b: Seq<Vec<Position>>, c: int)
    requires
        a.len() == b.len(),
        c <= a.len(),
        forall|k: int| 0 <= k < a.len() ==> col_total(#[trigger] a[k]@) == col_total(b[k]@),
    ensures
        cols_total(a, c) == cols_total(b, c),
    decreases c,
{
    if c > 0 {
        lemma_cols_total_same(a, b, c - 1);
    }
}

} // verus!
