//! No placement of piers catches more than the falling value of the last column: the
//! dynamic program's values bound, column by column, what any piers catch.
use vstd::prelude::*;
use vstd::math::max;
use crate::fish::{
    Fish, Position, col_ok, has_row, rows_cover, rows_present, up_max_ok, down_max_ok, lemma_band_gap,
    lemma_band_same,
};
use crate::fish::catch::{
    band, cols_catch, padded_ok, fish_nonneg, lemma_band_mono, lemma_band_split, lemma_cols_catch_frame,
};

verus! {

/// What the dynamic program leaves: ordered columns, each with a boundary just above
/// the catfish of itself and of its neighbours, rising and falling values that are at
/// least every candidate, and an empty first column.
pub open spec fn dp_final(fish: Seq<Fish>, n: int, p: Seq<Vec<Position>>) -> bool {
    &&& 1 <= n
    &&& p.len() == n + 2
    &&& forall|c: int| 0 <= c < n + 2 ==> col_ok(#[trigger] p[c]@)
    &&& p[0]@.len() == 1
    &&& p[0]@[0].dp_up == 0
    &&& forall|c: int| 1 <= c < n + 2 ==> up_max_ok(fish, p[c - 1]@, #[trigger] p[c]@, c) && down_max_ok(fish, p[c - 1]@, p[c]@, c)
    &&& rows_present(fish, p, n)
    &&& fish_nonneg(fish)
}

/// The index of the boundary at row `y` of column `c`.
pub open spec fn row_index(p: Seq<Vec<Position>>, c: int, y: int) -> int {
    choose|j: int| 0 <= j < p[c].len() && p[c]@[j].y == y
}

/// The rising value at row `y` of column `c`.
pub open spec fn up_at(p: Seq<Vec<Position>>, c: int, y: int) -> int {
    p[c]@[row_index(p, c, y)].dp_up as int
}

/// The falling value at row `y` of column `c`.
pub open spec fn down_at(p: Seq<Vec<Position>>, c: int, y: int) -> int {
    p[c]@[row_index(p, c, y)].dp_down as int
}

/// Every padded pier of `g` ends at a boundary of its column.
pub open spec fn on_rows(p: Seq<Vec<Position>>, g: Seq<int>) -> bool {
    forall|c: int| 0 <= c < g.len() ==> has_row(p[c]@, #[trigger] g[c])
}

proof fn lemma_row_index(p: Seq<Vec<Position>>, c: int, y: int)
    requires
        0 <= c < p.len(),
        has_row(p[c]@, y),
    ensures
        0 <= row_index(p, c, y) < p[c].len(),
        p[c]@[row_index(p, c, y)].y == y,
{
    let j = choose|j: int| #![trigger p[c]@[j]] 0 <= j < p[c]@.len() && p[c]@[j].y == y;
    assert(0 <= j < p[c].len() && p[c]@[j].y == y);
}

/// The empty boundary of a column is its first.
pub proof fn lemma_row_zero(p: Seq<Vec<Position>>, c: int)
    requires
        0 <= c < p.len(),
        col_ok(p[c]@),
    ensures
        has_row(p[c]@, 0),
        row_index(p, c, 0) == 0,
{
    let col = p[c]@;
    assert(col[0].y == 0);
    lemma_row_index(p, c, 0);
    let j = row_index(p, c, 0);
    if j > 0 {
        assert(col[0].y < col[j].y);
    }
}

/// A range that is empty holds no weight.
proof fn lemma_band_none(fish: Seq<Fish>, c: int, lo: int, hi: int, k: int)
    requires
        hi <= lo,
    ensures
        band(fish, c, lo, hi, k) == 0,
    decreases k,
{
    if k > 0 {
        lemma_band_none(fish, c, lo, hi, k - 1);
    }
}

/// A neighbour that is no longer than a pier of length `lo` catches nothing above it,
/// whatever its length.
proof fn lemma_low_neighbour(fish: Seq<Fish>, c: int, lo: int, w: int, v1: int, v2: int, k: int)
    requires
        v1 <= lo,
        v2 <= lo,
    ensures
        band(fish, c, lo, max(w, v1), k) == band(fish, c, lo, max(w, v2), k),
{
    if w < lo {
        lemma_band_none(fish, c, lo, max(w, v1), k);
        lemma_band_none(fish, c, lo, max(w, v2), k);
    } else {
        assert(max(w, v1) == w && max(w, v2) == w);
    }
}

/// A longer pier in column `k + 1` catches at least as much in the columns `1..=k`.
proof fn lemma_cols_catch_raise(fish: Seq<Fish>, g: Seq<int>, k: int, v: int)
    requires
        fish_nonneg(fish),
        0 <= k,
        k + 1 < g.len(),
        g[k + 1] <= v,
    ensures
        cols_catch(fish, g, k, fish.len() as int) <= cols_catch(fish, g.update(k + 1, v), k, fish.len() as int),
{
    let len = fish.len() as int;
    let g2 = g.update(k + 1, v);
    if k > 0 {
        lemma_cols_catch_frame(fish, g, g2, k - 1, len);
        lemma_band_mono(fish, k, g[k], max(g[k - 1], g[k + 1]), g2[k], max(g2[k - 1], g2[k + 1]), len);
    }
}

/// Setting the pier of column `k + 1` to any length no longer than the pier of column
/// `k` changes nothing in the columns `1..=k`.
proof fn lemma_cols_catch_lower(fish: Seq<Fish>, g: Seq<int>, k: int, v: int)
    requires
        1 <= k,
        k + 1 < g.len(),
        g[k + 1] <= g[k],
        v <= g[k],
    ensures
        cols_catch(fish, g, k, fish.len() as int) == cols_catch(fish, g.update(k + 1, v), k, fish.len() as int),
{
    let len = fish.len() as int;
    let g2 = g.update(k + 1, v);
    lemma_cols_catch_frame(fish, g, g2, k - 1, len);
    lemma_low_neighbour(fish, k, g[k], g[k - 1], g[k + 1], v, len);
}

/// Column by column, what any piers at boundaries catch before column `c` is at most
/// the rising value of column `c` when its pier is the longer, and, with what the pier
/// of column `c - 1` catches in column `c`, at most the falling value when it is not.
pub proof fn lemma_dp_bound(fish: Seq<Fish>, n: int, p: Seq<Vec<Position>>, c: int, g: Seq<int>)
    requires
        dp_final(fish, n, p),
        padded_ok(n, g),
        on_rows(p, g),
        1 <= c <= n + 1,
    ensures
        g[c - 1] <= g[c] ==> cols_catch(fish, g, c - 1, fish.len() as int) <= up_at(p, c, g[c]),
        g[c] <= g[c - 1] ==> cols_catch(fish, g, c - 1, fish.len() as int) + band(fish, c, g[c], g[c - 1], fish.len() as int)
            <= down_at(p, c, g[c]),
    decreases c,
{
    let len = fish.len() as int;
    let a = g[c - 1];
    let b = g[c];
    assert(has_row(p[c]@, b) && has_row(p[c - 1]@, a));
    lemma_row_index(p, c, b);
    lemma_row_index(p, c - 1, a);
    let jb = row_index(p, c, b);
    let ia = row_index(p, c - 1, a);
    assert(up_max_ok(fish, p[c - 1]@, p[c]@, c) && down_max_ok(fish, p[c - 1]@, p[c]@, c));
    lemma_row_zero(p, c - 1);
    lemma_row_zero(p, c);
    if c == 1 {
        assert(a == 0);
        if a <= b {
            assert(p[0]@[0].dp_up + band(fish, 0, p[0]@[0].y as int, p[1]@[jb].y as int, len) <= p[1]@[jb].dp_up);
            lemma_band_mono(fish, 0, 0, b, 0, b, len);
        }
        if b <= a {
            lemma_band_none(fish, 1, b, a, len);
            assert(0 <= p[1]@[jb].dp_down);
        }
    } else {
        let z = g[c - 2];
        assert(cols_catch(fish, g, c - 1, len) == cols_catch(fish, g, c - 2, len) + band(fish, c - 1, a, max(z, b), len));
        if a <= b {
            if z <= a {
                lemma_dp_bound(fish, n, p, c - 1, g);
                assert(max(z, b) == b);
                assert(p[c - 1]@[ia].dp_up + band(fish, c - 1, p[c - 1]@[ia].y as int, p[c]@[jb].y as int, len) <= p[c]@[jb].dp_up);
            } else if b <= z {
                // The pier of column `c - 1` could as well be empty.
                assert(c >= 3);
                let g1 = g.update(c - 1, 0);
                assert(padded_ok(n, g1));
                assert(on_rows(p, g1)) by {
                    assert forall|k: int| 0 <= k < g1.len() implies has_row(p[k]@, #[trigger] g1[k]) by {
                        if k != c - 1 {
                            assert(has_row(p[k]@, g[k]));
                        }
                    }
                }
                lemma_dp_bound(fish, n, p, c - 1, g1);
                lemma_cols_catch_lower(fish, g, c - 2, 0);
                assert(max(z, b) == z);
                lemma_band_mono(fish, c - 1, a, z, 0, z, len);
                assert(p[c - 1]@[0].dp_down <= p[c]@[jb].dp_up);
            } else {
                assert(c >= 3);
                let w = g[c - 3];
                assert(max(z, b) == b);
                assert(cols_catch(fish, g, c - 2, len) == cols_catch(fish, g, c - 3, len) + band(fish, c - 2, z, max(w, a), len));
                lemma_band_mono(fish, c - 1, a, b, 0, b, len);
                if w <= z {
                    lemma_band_none(fish, c - 2, z, max(w, a), len);
                    // Lengthen the pier of column `c - 2` to the boundary just below `b`.
                    let col = p[c - 2]@;
                    let ir = lemma_round(col, b, col.len() - 1);
                    let br = col[ir].y as int;
                    assert(z <= br) by {
                        assert(has_row(col, z));
                        let m = choose|m: int| #![trigger col[m]] 0 <= m < col.len() && col[m].y == z;
                        if m > ir {
                            assert(col[ir + 1].y <= col[m].y) by {
                                if m > ir + 1 {
                                    assert(col[ir + 1].y < col[m].y);
                                }
                            }
                        } else if m < ir {
                            assert(col[m].y < col[ir].y);
                        }
                    }
                    let g2 = g.update(c - 2, br);
                    assert(has_row(col, br)) by {
                        assert(col[ir].y == br);
                    }
                    assert(0 <= br <= n) by {
                        assert(col[0].y <= col[ir].y);
                    }
                    assert(padded_ok(n, g2));
                    assert(on_rows(p, g2)) by {
                        assert forall|k: int| 0 <= k < g2.len() implies has_row(p[k]@, #[trigger] g2[k]) by {
                            if k != c - 2 {
                                assert(has_row(p[k]@, g[k]));
                            }
                        }
                    }
                    lemma_dp_bound(fish, n, p, c - 2, g2);
                    lemma_cols_catch_raise(fish, g, c - 3, br);
                    lemma_row_index(p, c - 2, br);
                    let ir2 = row_index(p, c - 2, br);
                    assert(down_max_ok(fish, p[c - 2]@, p[c - 1]@, c - 1) && c - 1 >= 1);
                    assert(max(p[c - 2]@[ir2].dp_up as int, p[c - 2]@[ir2].dp_down as int) + band(fish, c - 1, p[c - 1]@[0].y as int, p[c - 2]@[ir2].y as int, len)
                        <= p[c - 1]@[0].dp_down);
                    assert(rows_cover(fish, p[c - 2]@, c - 1));
                    lemma_band_gap(fish, c - 1, col, ir, b, 0);
                    assert(p[c - 1]@[0].dp_down <= p[c]@[jb].dp_up);
                } else {
                    // Empty the pier of column `c - 2`.
                    assert(max(w, a) == w);
                    lemma_band_mono(fish, c - 2, z, w, 0, w, len);
                    let g3 = g.update(c - 2, 0);
                    assert(padded_ok(n, g3));
                    assert(on_rows(p, g3)) by {
                        lemma_row_zero(p, c - 2);
                        assert forall|k: int| 0 <= k < g3.len() implies has_row(p[k]@, #[trigger] g3[k]) by {
                            if k != c - 2 {
                                assert(has_row(p[k]@, g[k]));
                            }
                        }
                    }
                    lemma_dp_bound(fish, n, p, c - 2, g3);
                    if c - 3 >= 1 {
                        lemma_cols_catch_lower(fish, g, c - 3, 0);
                    }
                    lemma_row_zero(p, c - 2);
                    assert(up_max_ok(fish, p[c - 2]@, p[c - 1]@, c - 1) && c - 1 >= 1);
                    assert(p[c - 2]@[0].dp_down <= p[c - 1]@[0].dp_up);
                    assert(p[c - 1]@[0].dp_up + band(fish, c - 1, p[c - 1]@[0].y as int, p[c]@[jb].y as int, len) <= p[c]@[jb].dp_up);
                }
            }
        }
        if b <= a {
            lemma_dp_bound(fish, n, p, c - 1, g);
            assert(max(p[c - 1]@[ia].dp_up as int, p[c - 1]@[ia].dp_down as int) + band(fish, c, p[c]@[jb].y as int, p[c - 1]@[ia].y as int, len)
                <= p[c]@[jb].dp_down);
            if z <= a {
                lemma_band_none(fish, c - 1, a, max(z, b), len);
            } else {
                assert(max(z, b) == z);
            }
        }
    }
}

/// The last boundary of `col` at or below row `y`, searching down from `k`.
proof fn lemma_round(col: Seq<Position>, y: int, k: int) -> (j: int)
    requires
        col_ok(col),
        0 <= y,
        0 <= k < col.len(),
        k + 1 == col.len() || y < col[k + 1].y,
    ensures
        0 <= j <= k,
        col[j].y <= y,
        j + 1 == col.len() || y < col[j + 1].y,
    decreases k,
{
    if col[k].y <= y {
        k
    } else {
        assert(k > 0) by {
            if k == 0 {
                assert(col[0].y == 0);
            }
        }
        lemma_round(col, y, k - 1)
    }
}

/// The last boundary of column `c` at or below row `y`.
pub open spec fn round_row(p: Seq<Vec<Position>>, c: int, y: int) -> int {
    p[c]@[choose|j: int| #![trigger p[c]@[j]] 0 <= j < p[c].len() && p[c]@[j].y <= y && (j + 1 == p[c].len() || y < p[c]@[j + 1].y)].y as int
}

/// Pier lengths `g` shortened to the boundaries of their columns.
pub open spec fn rounded(p: Seq<Vec<Position>>, g: Seq<int>) -> Seq<int> {
    Seq::new(g.len(), |c: int| round_row(p, c, g[c]))
}

/// The rounded row is a boundary of the column, and a boundary is at most `y` exactly
/// when it is at most the rounded row.
proof fn lemma_round_row(p: Seq<Vec<Position>>, c: int, y: int)
    requires
        0 <= c < p.len(),
        col_ok(p[c]@),
        0 <= y,
    ensures
        has_row(p[c]@, round_row(p, c, y)),
        0 <= round_row(p, c, y) <= y,
        forall|t: int| #[trigger] has_row(p[c]@, t) ==> (t <= y <==> t <= round_row(p, c, y)),
{
    let col = p[c]@;
    let j0 = lemma_round(col, y, col.len() - 1);
    assert(0 <= j0 < p[c].len() && p[c]@[j0].y <= y && (j0 + 1 == p[c].len() || y < p[c]@[j0 + 1].y));
    let j = choose|j: int| #![trigger p[c]@[j]] 0 <= j < p[c].len() && p[c]@[j].y <= y && (j + 1 == p[c].len() || y < p[c]@[j + 1].y);
    assert(col[j].y == round_row(p, c, y));
    assert(0 <= col[j].y) by {
        assert(col[0].y <= col[j].y);
    }
    assert forall|t: int| #[trigger] has_row(col, t) implies (t <= y <==> t <= round_row(p, c, y)) by {
        let m = choose|m: int| #![trigger col[m]] 0 <= m < col.len() && col[m].y == t;
        if m > j {
            assert(col[j + 1].y <= col[m].y) by {
                if m > j + 1 {
                    assert(col[j + 1].y < col[m].y);
                }
            }
        } else if m < j {
            assert(col[m].y < col[j].y);
        }
    }
}

/// Shortened pier lengths stay padded and end at boundaries.
proof fn lemma_rounded_shape(fish: Seq<Fish>, n: int, p: Seq<Vec<Position>>, g: Seq<int>)
    requires
        dp_final(fish, n, p),
        padded_ok(n, g),
        g[n + 1] == 0,
    ensures
        padded_ok(n, rounded(p, g)),
        rounded(p, g)[n + 1] == 0,
        on_rows(p, rounded(p, g)),
{
    let gr = rounded(p, g);
    assert forall|c: int| 0 <= c < n + 2 implies has_row(p[c]@, #[trigger] gr[c]) && 0 <= gr[c] <= n by {
        assert(0 <= g[c] <= n);
        lemma_round_row(p, c, g[c]);
    }
    assert(gr[0] == 0 && gr[n + 1] == 0) by {
        lemma_round_row(p, 0, 0);
        lemma_round_row(p, n + 1, 0);
    }
}

/// In each column, shortened piers catch exactly the same catfish.
proof fn lemma_rounded_column(fish: Seq<Fish>, n: int, p: Seq<Vec<Position>>, g: Seq<int>, c: int)
    requires
        p.len() == n + 2,
        1 <= c <= n,
        col_ok(p[c - 1]@),
        col_ok(p[c]@),
        col_ok(p[c + 1]@),
        rows_cover(fish, p[c]@, c),
        c - 1 >= 1 ==> rows_cover(fish, p[c - 1]@, c),
        c + 1 <= n ==> rows_cover(fish, p[c + 1]@, c),
        padded_ok(n, g),
        g[n + 1] == 0,
    ensures
        band(fish, c, rounded(p, g)[c], max(rounded(p, g)[c - 1], rounded(p, g)[c + 1]), fish.len() as int)
            == band(fish, c, g[c], max(g[c - 1], g[c + 1]), fish.len() as int),
{
    let len = fish.len() as int;
    let gr = rounded(p, g);
    assert(0 <= g[c] <= n && 0 <= g[c - 1] <= n && 0 <= g[c + 1] <= n);
    lemma_round_row(p, c, g[c]);
    lemma_round_row(p, c - 1, g[c - 1]);
    lemma_round_row(p, c + 1, g[c + 1]);
    if c - 1 < 1 {
        assert(gr[c - 1] == 0);
    }
    if c + 1 > n {
        assert(gr[c + 1] == 0);
    }
    assert forall|m: int| 0 <= m < len && #[trigger] fish[m].0 + 1 == c implies ((gr[c] <= fish[m].1 < max(gr[c - 1], gr[c + 1]))
        == (g[c] <= fish[m].1 < max(g[c - 1], g[c + 1]))) by {
        let t = fish[m].1 + 1;
        assert(has_row(p[c]@, t));
        if c - 1 >= 1 {
            assert(has_row(p[c - 1]@, t));
        }
        if c + 1 <= n {
            assert(has_row(p[c + 1]@, t));
        }
    }
    lemma_band_same(fish, c, gr[c], max(gr[c - 1], gr[c + 1]), g[c], max(g[c - 1], g[c + 1]), len);
}

/// Shortening every pier to a boundary of its column catches exactly the same catfish.
proof fn lemma_rounded(fish: Seq<Fish>, n: int, p: Seq<Vec<Position>>, g: Seq<int>, k: int)
    requires
        dp_final(fish, n, p),
        padded_ok(n, g),
        g[n + 1] == 0,
        0 <= k <= n,
    ensures
        cols_catch(fish, rounded(p, g), k, fish.len() as int) == cols_catch(fish, g, k, fish.len() as int),
    decreases k,
{
    if k > 0 {
        lemma_rounded(fish, n, p, g, k - 1);
        assert(col_ok(p[k - 1]@) && col_ok(p[k]@) && col_ok(p[k + 1]@));
        assert(rows_cover(fish, p[k]@, k));
        if k - 1 >= 1 {
            assert(rows_cover(fish, p[k - 1]@, (k - 1) + 1));
        }
        if k + 1 <= n {
            assert(rows_cover(fish, p[k + 1]@, (k + 1) - 1));
        }
        lemma_rounded_column(fish, n, p, g, k);
    }
}

/// No placement of piers catches more than the falling value of the empty boundary of
/// the last padded column.
pub proof fn lemma_no_better(fish: Seq<Fish>, n: int, p: Seq<Vec<Position>>, h: Seq<int>)
    requires
        dp_final(fish, n, p),
        crate::fish::fish_within(n, fish),
        crate::fish::catch::piers_ok(n, h),
    ensures
        crate::fish::catch::catch(n, h, fish) <= down_at(p, n + 1, 0),
{
    let len = fish.len() as int;
    let g = seq![0int] + h + seq![0int];
    assert(padded_ok(n, g)) by {
        assert forall|c: int| 0 <= c < n + 2 implies 0 <= #[trigger] g[c] <= n by {
            if 1 <= c <= n {
                assert(g[c] == h[c - 1]);
            }
        }
    }
    assert(g.subrange(1, n + 1) =~= h);
    crate::fish::catch::lemma_catch_by_columns(n, g, fish, len);
    lemma_rounded_shape(fish, n, p, g);
    lemma_rounded(fish, n, p, g, n);
    let gr = rounded(p, g);
    lemma_dp_bound(fish, n, p, n + 1, gr);
    lemma_band_mono(fish, n + 1, 0, gr[n], 0, gr[n], len);
}

} // verus!
