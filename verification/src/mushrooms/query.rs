//! What the machine answers to a query, and why a query that alternates mushrooms of
//! one known species with others counts the others.
use vstd::prelude::*;
use crate::mushrooms::bits::{count_where, lemma_count_ext, lemma_count_split, occurs};

verus! {

/// The machine's answer to the query `q` when `t[x]` says whether mushroom `x` is of
/// species A: the number of neighbours in `q` of different species.
pub open spec fn differs(t: Seq<bool>, q: Seq<usize>) -> int {
    count_where(|i: int| t[q[i] as int] != t[q[i + 1] as int], 0, q.len() - 1)
}

/// `t` gives the species of `n` mushrooms, and mushroom 0 is of species A.
pub open spec fn species(t: Seq<bool>, n: int) -> bool {
    t.len() == n && n >= 1 && t[0]
}

/// Each logged query was answered as the machine answers it for `t`.
pub open spec fn truthful(log: Seq<(Seq<usize>, int)>, t: Seq<bool>) -> bool {
    forall|j: int| 0 <= j < log.len() ==> #[trigger] log[j].1 == differs(t, log[j].0)
}

/// A query the machine accepts: at least two mushrooms, each below `n`, none twice.
pub open spec fn valid_query(q: Seq<usize>, n: int) -> bool {
    &&& q.len() >= 2
    &&& forall|i: int| 0 <= i < q.len() ==> #[trigger] q[i] < n
    &&& forall|i: int, j: int| 0 <= i < j < q.len() ==> #[trigger] q[i] != #[trigger] q[j]
}

/// `q` is `f[0], c[0], f[1], c[1], ...`: the first `c.len()` mushrooms of `f`
/// alternating with those of `c`.
pub open spec fn interleaved(q: Seq<usize>, f: Seq<usize>, c: Seq<usize>) -> bool {
    &&& q.len() == 2 * c.len()
    &&& c.len() <= f.len()
    &&& forall|k: int| 0 <= k < c.len() ==> q[2 * k] == #[trigger] f[k]
    &&& forall|k: int| 0 <= k < c.len() ==> q[2 * k + 1] == #[trigger] c[k]
}

/// Number of the first `j` mushrooms of `c` whose species is not `s`.
pub open spec fn mismatches(t: Seq<bool>, c: Seq<usize>, s: bool, j: int) -> int {
    count_where(|k: int| t[c[k] as int] != s, 0, j)
}

/// Number of the first `j` mushrooms of `c` of species A.
pub open spec fn ones_upto(t: Seq<bool>, c: Seq<usize>, j: int) -> int {
    count_where(|k: int| t[c[k] as int], 0, j)
}

/// Number of the mushrooms of `c` of species A.
pub open spec fn ones_at(t: Seq<bool>, c: Seq<usize>) -> int {
    ones_upto(t, c, c.len() as int)
}

/// Counting those not of species `s` is counting those of species A, or the others.
proof fn lemma_mismatches_ones(t: Seq<bool>, c: Seq<usize>, s: bool, j: int)
    requires
        0 <= j <= c.len(),
    ensures
        s ==> mismatches(t, c, s, j) == j - ones_upto(t, c, j),
        !s ==> mismatches(t, c, s, j) == ones_upto(t, c, j),
    decreases j,
{
    if j > 0 {
        lemma_mismatches_ones(t, c, s, j - 1);
    }
}

/// Where the mushrooms of `f` all have species `s`, the answer to the alternating query
/// counts twice each mushroom of `c` but the last whose species is not `s`, and once
/// the last if its species is not `s`.
pub proof fn lemma_interleaved_differs(t: Seq<bool>, q: Seq<usize>, f: Seq<usize>, c: Seq<usize>, s: bool)
    requires
        c.len() >= 1,
        interleaved(q, f, c),
        forall|k: int| 0 <= k < c.len() ==> t[#[trigger] f[k] as int] == s,
    ensures
        differs(t, q) == 2 * mismatches(t, c, s, c.len() - 1) + if t[c[c.len() - 1] as int] != s {
            1int
        } else {
            0
        },
    decreases c.len(),
{
    let j = c.len() as int;
    let g = |i: int| t[q[i] as int] != t[q[i + 1] as int];
    assert(interleaved(q, f, c));
    assert(q[1] == c[0]);
    if j == 1 {
        assert(q[0] == f[0] && q[1] == c[0]);
        assert(count_where(g, 0, 1) == count_where(g, 0, 0) + if g(0) { 1int } else { 0 });
        assert(mismatches(t, c, s, 0) == 0);
        assert(differs(t, q) == count_where(g, 0, 1));
    } else {
        let q2 = q.subrange(0, 2 * j - 2);
        let c2 = c.subrange(0, j - 1);
        assert forall|k: int| 0 <= k < c2.len() implies q2[2 * k] == #[trigger] f[k] by {
            assert(q[2 * k] == f[k]);
        }
        assert forall|k: int| 0 <= k < c2.len() implies q2[2 * k + 1] == #[trigger] c2[k] by {
            assert(c2[k] == c[k]);
            assert(q[2 * k + 1] == c[k]);
        }
        assert(q2.len() == 2 * c2.len());
        assert(interleaved(q2, f, c2));
        lemma_interleaved_differs(t, q2, f, c2, s);
        let g2 = |i: int| t[q2[i] as int] != t[q2[i + 1] as int];
        lemma_count_ext(g, g2, 0, 2 * j - 3);
        lemma_count_split(g, 0, 2 * j - 3, 2 * j - 1);
        assert(0 <= j - 2 < j - 1 < c.len());
        let c_a = c[j - 2];
        let c_b = c[j - 1];
        assert(q[2 * (j - 2)] == f[j - 2] && q[2 * (j - 2) + 1] == c_a);
        assert(q[2 * (j - 1)] == f[j - 1] && q[2 * (j - 1) + 1] == c_b);
        assert(t[f[j - 1] as int] == s);
        assert(count_where(g, 2 * j - 3, 2 * j - 2) == count_where(g, 2 * j - 3, 2 * j - 3) + if g(2 * j - 3) { 1int } else { 0 });
        assert(count_where(g, 2 * j - 3, 2 * j - 1) == count_where(g, 2 * j - 3, 2 * j - 2) + if g(2 * j - 2) { 1int } else { 0 });
        lemma_mismatches_prefix(t, c, s, j - 2, j - 1);
        assert(mismatches(t, c, s, j - 1) == mismatches(t, c, s, j - 2) + if t[c[j - 2] as int] != s { 1int } else { 0 });
        assert(differs(t, q2) == count_where(g2, 0, 2 * j - 3));
        assert(c2[j - 2] == c_a);
        assert(mismatches(t, c2, s, j - 2) == mismatches(t, c, s, j - 2));
        assert(g(2 * j - 3) == (t[c_a as int] != s));
        assert(g(2 * j - 2) == (t[c_b as int] != s));
        assert(differs(t, q) == count_where(g, 0, 2 * j - 1));
    }
}

/// Only the first `j` mushrooms count.
proof fn lemma_mismatches_prefix(t: Seq<bool>, c: Seq<usize>, s: bool, j: int, m: int)
    requires
        0 <= j <= m <= c.len(),
    ensures
        mismatches(t, c.subrange(0, m), s, j) == mismatches(t, c, s, j),
    decreases j,
{
    if j > 0 {
        lemma_mismatches_prefix(t, c, s, j - 1, m);
        assert(c.subrange(0, m)[j - 1] == c[j - 1]);
    }
}

/// Where the mushrooms of `f` all have species `s`, the species of the last mushroom of
/// `c` is `s` exactly when the answer is even, and half the answer counts those of the
/// others whose species is not `s`.
pub proof fn lemma_answer(t: Seq<bool>, q: Seq<usize>, f: Seq<usize>, c: Seq<usize>, s: bool)
    requires
        c.len() >= 1,
        interleaved(q, f, c),
        forall|k: int| 0 <= k < c.len() ==> t[#[trigger] f[k] as int] == s,
    ensures
        (differs(t, q) % 2 == 1) == (t[c[c.len() - 1] as int] != s),
        differs(t, q) / 2 == mismatches(t, c, s, c.len() - 1),
        s ==> differs(t, q) / 2 == (c.len() - 1) - ones_upto(t, c, c.len() - 1),
        !s ==> differs(t, q) / 2 == ones_upto(t, c, c.len() - 1),
{
    lemma_interleaved_differs(t, q, f, c, s);
    let j = c.len() - 1;
    let mm = mismatches(t, c, s, j);
    let e: int = if t[c[j] as int] != s { 1 } else { 0 };
    assert(differs(t, q) == 2 * mm + e);
    assert((2 * mm + e) % 2 == e && (2 * mm + e) / 2 == mm);
    lemma_mismatches_ones(t, c, s, j);
}

/// The species A mushrooms among `start + q[k]` are the set bits of `t[start..]` that
/// the increasing query `q` covers.
pub proof fn lemma_ones_shifted(t: Seq<bool>, q: Seq<usize>, c: Seq<usize>, start: int, width: int)
    requires
        0 <= start,
        0 <= width,
        start + width <= t.len(),
        c.len() == q.len(),
        forall|k: int| 0 <= k < q.len() ==> #[trigger] c[k] == start + q[k],
        forall|i: int, j: int| 0 <= i < j < q.len() ==> #[trigger] q[i] < #[trigger] q[j],
        forall|k: int| 0 <= k < q.len() ==> #[trigger] q[k] < width,
    ensures
        ones_at(t, c) == count_where(|x: int| occurs(q, x) && t.subrange(start, start + width)[x], 0, width),
    decreases q.len(),
{
    let bits = t.subrange(start, start + width);
    let h = |x: int| occurs(q, x) && bits[x];
    if q.len() == 0 {
        assert forall|x: int| 0 <= x < width implies !#[trigger] h(x) by {
            if occurs(q, x) {
                let k = choose|k: int| 0 <= k < q.len() && #[trigger] q[k] as int == x;
            }
        }
        crate::mushrooms::bits::lemma_count_none(h, 0, width);
    } else {
        let last = q[q.len() - 1] as int;
        let q2 = q.drop_last();
        let c2 = c.drop_last();
        assert forall|k: int| 0 <= k < q2.len() implies #[trigger] q2[k] < last by {
            assert(q[k] < q[q.len() - 1]);
        }
        lemma_ones_shifted(t, q2, c2, start, last);
        let h2 = |x: int| occurs(q2, x) && t.subrange(start, start + last)[x];
        // Below `last`, `q` and `q2` cover the same bits; above it, none.
        assert forall|x: int| 0 <= x < last implies #[trigger] h(x) == h2(x) by {
            if occurs(q, x) {
                let k = choose|k: int| 0 <= k < q.len() && #[trigger] q[k] as int == x;
                assert(k != q.len() - 1);
                assert(q2[k] as int == x);
            }
            if occurs(q2, x) {
                let k = choose|k: int| 0 <= k < q2.len() && #[trigger] q2[k] as int == x;
                assert(q[k] as int == x);
            }
        }
        lemma_count_ext(h, h2, 0, last);
        assert forall|x: int| last < x < width implies !#[trigger] h(x) by {
            if occurs(q, x) {
                let k = choose|k: int| 0 <= k < q.len() && #[trigger] q[k] as int == x;
                if k < q.len() - 1 {
                    assert(q[k] < q[q.len() - 1]);
                }
            }
        }
        crate::mushrooms::bits::lemma_count_none(h, last + 1, width);
        lemma_count_split(h, 0, last, width);
        lemma_count_split(h, last, last + 1, width);
        assert(q[q.len() - 1] as int == last);
        assert(occurs(q, last));
        assert(count_where(h, last, last + 1) == count_where(h, last, last) + if h(last) { 1int } else { 0 });
        let g = |k: int| t[c[k] as int];
        lemma_count_ext(g, |k: int| t[c2[k] as int], 0, c2.len() as int);
        assert(count_where(g, 0, c.len() as int) == count_where(g, 0, c.len() - 1) + if g(c.len() - 1) { 1int } else { 0 });
    }
}

/// A mushroom put after the first `j` does not change their count.
pub proof fn lemma_ones_upto_push(t: Seq<bool>, e: Seq<usize>, x: usize, j: int)
    requires
        0 <= j <= e.len(),
    ensures
        ones_upto(t, e.push(x), j) == ones_upto(t, e, j),
    decreases j,
{
    if j > 0 {
        lemma_ones_upto_push(t, e, x, j - 1);
        assert(e.push(x)[j - 1] == e[j - 1]);
    }
}

/// The mushrooms `lo..lo + len` in order.
pub proof fn lemma_ones_run(t: Seq<bool>, e: Seq<usize>, lo: int, len: int)
    requires
        0 <= lo,
        0 <= len == e.len(),
        forall|k: int| 0 <= k < len ==> #[trigger] e[k] == lo + k,
    ensures
        ones_at(t, e) == crate::mushrooms::bits::ones(t, lo, lo + len),
    decreases len,
{
    if len > 0 {
        let e2 = e.drop_last();
        assert forall|k: int| 0 <= k < len - 1 implies #[trigger] e2[k] == lo + k by {
            assert(e2[k] == e[k]);
        }
        lemma_ones_run(t, e2, lo, len - 1);
        lemma_ones_upto_push(t, e2, e[len - 1], len - 1);
        assert(e2.push(e[len - 1]) =~= e);
    }
}

/// A single mushroom counts when it is of species A.
pub proof fn lemma_ones_single(t: Seq<bool>, x: usize)
    ensures
        ones_at(t, seq![x]) == if t[x as int] { 1int } else { 0 },
{
    let e = seq![x];
    assert(e[0] == x);
    assert(count_where(|k: int| t[e[k] as int], 0, 0) == 0);
}

} // verus!
