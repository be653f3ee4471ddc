//! A segment tree over the positions `0..=n` that adds a value to a range of
//! positions and keeps, in every node, the minimum and maximum of the values below it.
use vstd::prelude::*;
use vstd::math::{min, max};

verus! {

/// Larger in absolute value than every value the tree holds when it is searched.
pub const INF: i64 = 0x1_0000_0000_0000;

/// Bound on the sum of the absolute values of all deltas on a path from the root.
pub open spec fn load_limit() -> int {
    0x2000_0000_0000_0000
}

#[derive(Clone, Copy)]
pub struct Node {
    pub min: i64,
    pub max: i64,
    /// Applies to the entire subtree.
    pub delta: i64,
}

pub struct SegTree {
    pub n: i32,
    pub nodes: Vec<Node>,
    /// Sum of the absolute values of all values added so far.
    pub used: Ghost<int>,
}

pub open spec fn iabs(x: int) -> int {
    if x < 0 { -x } else { x }
}

pub open spec fn mid(lo: int, hi: int) -> int {
    (lo + hi) / 2
}

/// The height of the subtree over `lo..=hi`: how many levels lie below its root.
pub open spec fn node_height(lo: int, hi: int) -> nat
    decreases hi - lo,
{
    if lo >= hi {
        0
    } else {
        let a = node_height(lo, mid(lo, hi));
        let b = node_height(mid(lo, hi) + 1, hi);
        1 + if a > b {
            a
        } else {
            b
        }
    }
}

/// A subtree over at most `2^e` positions has height at most `e`.
pub proof fn lemma_height_log(lo: int, hi: int, e: nat)
    requires
        lo <= hi,
        hi - lo + 1 <= pow_two(e),
    ensures
        node_height(lo, hi) <= e,
    decreases e,
{
    if lo < hi {
        assert(e >= 1);
        let m = mid(lo, hi);
        assert(pow_two(e) == 2 * pow_two((e - 1) as nat));
        lemma_height_log(lo, m, (e - 1) as nat);
        lemma_height_log(m + 1, hi, (e - 1) as nat);
    }
}

/// `2^k`.
pub open spec fn pow_two(k: nat) -> nat
    decreases k,
{
    if k == 0 { 1 } else { 2 * pow_two((k - 1) as nat) }
}

/// The value at position `p` relative to node `idx`, which covers `lo..=hi`:
/// the sum of the deltas from `idx` down to the leaf of `p`.
pub open spec fn local(ns: Seq<Node>, idx: int, lo: int, hi: int, p: int) -> int
    decreases hi - lo,
{
    if lo >= hi {
        ns[idx].delta as int
    } else if p <= mid(lo, hi) {
        ns[idx].delta + local(ns, 2 * idx, lo, mid(lo, hi), p)
    } else {
        ns[idx].delta + local(ns, 2 * idx + 1, mid(lo, hi) + 1, hi, p)
    }
}

/// The sum of the absolute values of the deltas from node `idx` down to the leaf of `p`.
pub open spec fn load(ns: Seq<Node>, idx: int, lo: int, hi: int, p: int) -> int
    decreases hi - lo,
{
    if lo >= hi {
        iabs(ns[idx].delta as int)
    } else if p <= mid(lo, hi) {
        iabs(ns[idx].delta as int) + load(ns, 2 * idx, lo, mid(lo, hi), p)
    } else {
        iabs(ns[idx].delta as int) + load(ns, 2 * idx + 1, mid(lo, hi) + 1, hi, p)
    }
}

/// Node `idx` covering `lo..=hi` and all nodes below it exist, and each stores the
/// minimum and maximum of its subtree.
pub open spec fn wf_node(ns: Seq<Node>, idx: int, lo: int, hi: int) -> bool
    decreases hi - lo,
{
    &&& 1 <= idx < ns.len()
    &&& lo <= hi
    &&& if lo == hi {
        ns[idx].min == ns[idx].delta && ns[idx].max == ns[idx].delta
    } else {
        &&& wf_node(ns, 2 * idx, lo, mid(lo, hi))
        &&& wf_node(ns, 2 * idx + 1, mid(lo, hi) + 1, hi)
        &&& ns[idx].min == ns[idx].delta + min(
            ns[2 * idx].min as int,
            ns[2 * idx + 1].min as int,
        )
        &&& ns[idx].max == ns[idx].delta + max(
            ns[2 * idx].max as int,
            ns[2 * idx + 1].max as int,
        )
    }
}

/// Index `j` lies in the subtree rooted at index `idx`.
pub open spec fn in_subtree(j: int, idx: int) -> bool
    decreases j,
{
    if j <= 0 || j < idx {
        false
    } else if j == idx {
        true
    } else {
        in_subtree(j / 2, idx)
    }
}

/// Node indices of the subtree at `idx` (covering `lo..=hi`) are all below `bound`.
pub open spec fn fits(bound: int, idx: int, lo: int, hi: int) -> bool
    decreases hi - lo,
{
    &&& 1 <= idx < bound
    &&& (lo < hi ==> fits(bound, 2 * idx, lo, mid(lo, hi)) && fits(
        bound,
        2 * idx + 1,
        mid(lo, hi) + 1,
        hi,
    ))
}

/// Minimum of `v[a..=b]`.
pub open spec fn range_min(v: Seq<int>, a: int, b: int) -> int
    decreases b - a,
{
    if a >= b { v[a] } else { min(v[a], range_min(v, a + 1, b)) }
}

/// Maximum of `v[a..=b]`.
pub open spec fn range_max(v: Seq<int>, a: int, b: int) -> int
    decreases b - a,
{
    if a >= b { v[a] } else { max(v[a], range_max(v, a + 1, b)) }
}

/// Minimum of `v[x..]`, and `INF` for an empty suffix.
pub open spec fn suffix_min(v: Seq<int>, x: int) -> int
    decreases v.len() - x,
{
    if x >= v.len() || x < 0 { INF as int } else { min(v[x], suffix_min(v, x + 1)) }
}

/// Maximum of `v[x..]`, and `-INF` for an empty suffix.
pub open spec fn suffix_max(v: Seq<int>, x: int) -> int
    decreases v.len() - x,
{
    if x >= v.len() || x < 0 { -INF as int } else { max(v[x], suffix_max(v, x + 1)) }
}

/// The values of `v[x..]` spread over at least `d`.
pub open spec fn wide(v: Seq<int>, x: int, d: int) -> bool {
    suffix_max(v, x) - suffix_min(v, x) >= d
}

/// The largest `y <= x` with `wide(v, y, d)`, and `0` if there is none.
pub open spec fn last_wide_upto(v: Seq<int>, d: int, x: int) -> int
    decreases x,
{
    if x <= 0 { 0 } else if wide(v, x, d) { x } else { last_wide_upto(v, d, x - 1) }
}

/// The rightmost start `x` of a suffix `v[x..]` whose values spread over at least `d`,
/// and `0` if there is none.
pub open spec fn last_wide(v: Seq<int>, d: int) -> int {
    last_wide_upto(v, d, v.len() - 1)
}

// ---------------------------------------------------------------------------
// Lemmas on the tree shape.

/// A subtree within `bound` whose deepest leaf lies at most `e - t` levels below.
proof fn lemma_fits(bound: int, idx: int, lo: int, hi: int, t: nat, e: nat)
    requires
        1 <= idx < pow_two(t),
        t <= e,
        pow_two(e) <= bound,
        lo <= hi,
        hi - lo + 1 <= pow_two((e - t) as nat),
    ensures
        fits(bound, idx, lo, hi),
    decreases hi - lo,
{
    lemma_pow_two_mono(t, e);
    if lo < hi {
        assert(e - t >= 1) by {
            if e == t {
                assert(pow_two(0) == 1);
            }
        }
        let m = mid(lo, hi);
        let k = (e - t - 1) as nat;
        assert(pow_two((e - t) as nat) == 2 * pow_two(k));
        assert(pow_two(t + 1) == 2 * pow_two(t));
        lemma_fits(bound, 2 * idx, lo, m, t + 1, e);
        lemma_fits(bound, 2 * idx + 1, m + 1, hi, t + 1, e);
    }
}

pub proof fn lemma_pow_two_pos(k: nat)
    ensures
        pow_two(k) >= 1,
    decreases k,
{
    if k > 0 {
        lemma_pow_two_pos((k - 1) as nat);
    }
}

pub proof fn lemma_pow_two_mono(a: nat, b: nat)
    requires
        a <= b,
    ensures
        1 <= pow_two(a) <= pow_two(b),
    decreases b,
{
    lemma_pow_two_pos(a);
    if b > a {
        lemma_pow_two_mono(a, (b - 1) as nat);
    }
}

/// A tree of all-zero nodes that fit is well formed and holds zeros.
proof fn lemma_zero_tree(ns: Seq<Node>, idx: int, lo: int, hi: int)
    requires
        fits(ns.len() as int, idx, lo, hi),
        lo <= hi,
        forall|j: int| 0 <= j < ns.len() ==> (#[trigger] ns[j]).min == 0 && ns[j].max == 0
            && ns[j].delta == 0,
    ensures
        wf_node(ns, idx, lo, hi),
        forall|p: int| lo <= p <= hi ==> local(ns, idx, lo, hi, p) == 0,
        forall|p: int| lo <= p <= hi ==> load(ns, idx, lo, hi, p) == 0,
    decreases hi - lo,
{
    if lo < hi {
        let m = mid(lo, hi);
        lemma_zero_tree(ns, 2 * idx, lo, m);
        lemma_zero_tree(ns, 2 * idx + 1, m + 1, hi);
        assert forall|p: int| lo <= p <= hi implies local(ns, idx, lo, hi, p) == 0 && load(
            ns,
            idx,
            lo,
            hi,
            p,
        ) == 0 by {
            if p <= m {
                assert(local(ns, 2 * idx, lo, m, p) == 0);
                assert(load(ns, 2 * idx, lo, m, p) == 0);
            } else {
                assert(local(ns, 2 * idx + 1, m + 1, hi, p) == 0);
                assert(load(ns, 2 * idx + 1, m + 1, hi, p) == 0);
            }
        }
    }
}

proof fn lemma_subtree_trans(j: int, c: int, idx: int)
    requires
        in_subtree(j, c),
        c == 2 * idx || c == 2 * idx + 1,
        idx >= 1,
    ensures
        in_subtree(j, idx),
    decreases j,
{
    if j > c {
        lemma_subtree_trans(j / 2, c, idx);
    } else {
        assert(c / 2 == idx);
        assert(in_subtree(idx, idx));
        assert(in_subtree(c, idx));
    }
}

/// Two subtrees that share an index are nested.
proof fn lemma_subtree_nested(j: int, a: int, b: int)
    requires
        in_subtree(j, a),
        in_subtree(j, b),
        a <= b,
    ensures
        in_subtree(b, a),
    decreases j,
{
    if j != b {
        lemma_subtree_nested(j / 2, a, b);
    }
}

proof fn lemma_not_subtree_of_child(idx: int, l: int, r: int)
    requires
        idx >= 1,
        l == 2 * idx,
        r == l + 1,
    ensures
        !in_subtree(idx, l),
        !in_subtree(idx, r),
        forall|j: int| #[trigger] in_subtree(j, l) ==> !in_subtree(j, r),
{
    assert forall|j: int| #[trigger] in_subtree(j, l) implies !in_subtree(j, r) by {
        if in_subtree(j, r) {
            lemma_subtree_nested(j, l, r);
            assert(!in_subtree(idx, l));
        }
    }
}

/// Only the nodes of a subtree decide its shape, values and load.
proof fn lemma_frame(a: Seq<Node>, b: Seq<Node>, idx: int, lo: int, hi: int)
    requires
        a.len() == b.len(),
        forall|j: int| in_subtree(j, idx) && 0 <= j < a.len() ==> a[j] == b[j],
        wf_node(a, idx, lo, hi),
    ensures
        wf_node(b, idx, lo, hi),
        forall|p: int| local(a, idx, lo, hi, p) == local(b, idx, lo, hi, p),
        forall|p: int| load(a, idx, lo, hi, p) == load(b, idx, lo, hi, p),
    decreases hi - lo,
{
    assert(in_subtree(idx, idx));
    if lo < hi {
        let m = mid(lo, hi);
        let cl = 2 * idx;
        let cr = 2 * idx + 1;
        assert forall|j: int| #[trigger] in_subtree(j, cl) && 0 <= j < a.len() implies a[j] == b[j] by {
            lemma_subtree_trans(j, cl, idx);
        }
        assert forall|j: int| #[trigger] in_subtree(j, cr) && 0 <= j < a.len() implies a[j]
            == b[j] by {
            lemma_subtree_trans(j, cr, idx);
        }
        lemma_frame(a, b, cl, lo, m);
        lemma_frame(a, b, cr, m + 1, hi);
        assert forall|p: int|
            local(a, idx, lo, hi, p) == local(b, idx, lo, hi, p) && load(a, idx, lo, hi, p)
                == load(b, idx, lo, hi, p) by {
            if p <= m {
                assert(local(a, cl, lo, m, p) == local(b, cl, lo, m, p));
                assert(load(a, cl, lo, m, p) == load(b, cl, lo, m, p));
            } else {
                assert(local(a, cr, m + 1, hi, p) == local(b, cr, m + 1, hi, p));
                assert(load(a, cr, m + 1, hi, p) == load(b, cr, m + 1, hi, p));
            }
        }
    }
}

proof fn lemma_load_nonneg(ns: Seq<Node>, idx: int, lo: int, hi: int, p: int)
    ensures
        load(ns, idx, lo, hi, p) >= iabs(ns[idx].delta as int),
        load(ns, idx, lo, hi, p) >= 0,
    decreases hi - lo,
{
    if lo < hi {
        let m = mid(lo, hi);
        if p <= m {
            lemma_load_nonneg(ns, 2 * idx, lo, m, p);
        } else {
            lemma_load_nonneg(ns, 2 * idx + 1, m + 1, hi, p);
        }
    }
}

/// A bound on the load bounds the stored delta, minimum and maximum.
proof fn lemma_node_bounds(ns: Seq<Node>, idx: int, lo: int, hi: int, b: int)
    requires
        wf_node(ns, idx, lo, hi),
        forall|p: int| lo <= p <= hi ==> load(ns, idx, lo, hi, p) <= b,
    ensures
        iabs(ns[idx].delta as int) <= b,
        iabs(ns[idx].min as int) <= b,
        iabs(ns[idx].max as int) <= b,
    decreases hi - lo,
{
    lemma_load_nonneg(ns, idx, lo, hi, lo);
    assert(load(ns, idx, lo, hi, lo) <= b);
    if lo < hi {
        let m = mid(lo, hi);
        let d = iabs(ns[idx].delta as int);
        let cl = 2 * idx;
        let cr = 2 * idx + 1;
        let m1 = m + 1;
        assert forall|p: int| lo <= p <= m implies #[trigger] load(ns, cl, lo, m, p) <= b - d by {
            assert(load(ns, idx, lo, hi, p) <= b);
        }
        assert forall|p: int| m1 <= p <= hi implies #[trigger] load(ns, cr, m1, hi, p) <= b
            - d by {
            assert(load(ns, idx, lo, hi, p) <= b);
        }
        lemma_node_bounds(ns, cl, lo, m, b - d);
        lemma_node_bounds(ns, cr, m1, hi, b - d);
    }
}

pub proof fn lemma_range_min_split(v: Seq<int>, a: int, b: int, c: int)
    requires
        a <= b < c,
    ensures
        range_min(v, a, c) == min(range_min(v, a, b), range_min(v, b + 1, c)),
        range_max(v, a, c) == max(range_max(v, a, b), range_max(v, b + 1, c)),
    decreases b - a,
{
    if a < b {
        lemma_range_min_split(v, a + 1, b, c);
    }
}

/// With global values `v[p] == anc + local(p)`, the node stores the minimum and
/// maximum of `v[lo..=hi]` less `anc`.
proof fn lemma_node_extremes(ns: Seq<Node>, idx: int, lo: int, hi: int, v: Seq<int>, anc: int)
    requires
        wf_node(ns, idx, lo, hi),
        hi < v.len(),
        forall|p: int| lo <= p <= hi ==> v[p] == anc + local(ns, idx, lo, hi, p),
    ensures
        anc + ns[idx].min == range_min(v, lo, hi),
        anc + ns[idx].max == range_max(v, lo, hi),
    decreases hi - lo,
{
    if lo < hi {
        let m = mid(lo, hi);
        let a2 = anc + ns[idx].delta;
        let cl = 2 * idx;
        let cr = 2 * idx + 1;
        let m1 = m + 1;
        assert forall|p: int| lo <= p <= m implies v[p] == a2 + #[trigger] local(ns, cl, lo, m, p) by {
            assert(v[p] == anc + local(ns, idx, lo, hi, p));
        }
        assert forall|p: int| m1 <= p <= hi implies v[p] == a2 + #[trigger] local(ns, cr, m1, hi, p) by {
            assert(v[p] == anc + local(ns, idx, lo, hi, p));
        }
        lemma_node_extremes(ns, cl, lo, m, v, a2);
        lemma_node_extremes(ns, cr, m1, hi, v, a2);
        lemma_range_min_split(v, lo, m, hi);
    }
}

// ---------------------------------------------------------------------------
// Lemmas on suffixes.

/// The minimum and maximum of a range lie strictly between `-INF` and `INF` when
/// its values do.
pub proof fn lemma_range_bounds(v: Seq<int>, a: int, b: int)
    requires
        0 <= a <= b < v.len(),
        forall|p: int| 0 <= p < v.len() ==> -INF < #[trigger] v[p] < INF,
    ensures
        -INF < range_min(v, a, b) < INF,
        -INF < range_max(v, a, b) < INF,
    decreases b - a,
{
    if a < b {
        lemma_range_bounds(v, a + 1, b);
    }
}

pub proof fn lemma_suffix_bounds(v: Seq<int>, x: int)
    requires
        forall|p: int| 0 <= p < v.len() ==> -INF < #[trigger] v[p] < INF,
    ensures
        -INF <= suffix_min(v, x) <= INF,
        -INF <= suffix_max(v, x) <= INF,
    decreases v.len() - x,
{
    if 0 <= x < v.len() {
        lemma_suffix_bounds(v, x + 1);
    }
}

pub proof fn lemma_suffix_split(v: Seq<int>, a: int, b: int)
    requires
        0 <= a <= b < v.len(),
    ensures
        suffix_min(v, a) == min(range_min(v, a, b), suffix_min(v, b + 1)),
        suffix_max(v, a) == max(range_max(v, a, b), suffix_max(v, b + 1)),
    decreases b - a,
{
    if a < b {
        lemma_suffix_split(v, a + 1, b);
    }
}

pub proof fn lemma_suffix_mono(v: Seq<int>, x: int, y: int)
    requires
        0 <= x <= y,
    ensures
        suffix_min(v, x) <= suffix_min(v, y),
        suffix_max(v, x) >= suffix_max(v, y),
    decreases y - x,
{
    if x < y {
        lemma_suffix_mono(v, x + 1, y);
    }
}

proof fn lemma_last_wide_upto_ge(v: Seq<int>, d: int, x: int, y: int)
    requires
        0 < y <= x,
        wide(v, y, d),
    ensures
        y <= last_wide_upto(v, d, x) <= x,
    decreases x,
{
    if x > y && !wide(v, x, d) {
        lemma_last_wide_upto_ge(v, d, x - 1, y);
    }
}

pub proof fn lemma_last_wide_upto_le(v: Seq<int>, d: int, x: int)
    ensures
        0 <= last_wide_upto(v, d, x),
        x >= 0 ==> last_wide_upto(v, d, x) <= x,
    decreases x,
{
    if x > 0 && !wide(v, x, d) {
        lemma_last_wide_upto_le(v, d, x - 1);
    }
}

proof fn lemma_last_wide_upto_skip(v: Seq<int>, d: int, x: int, a: int)
    requires
        0 <= a <= x,
        forall|y: int| a < y <= x ==> !wide(v, y, d),
    ensures
        last_wide_upto(v, d, x) == last_wide_upto(v, d, a),
    decreases x,
{
    if x > a {
        lemma_last_wide_upto_skip(v, d, x - 1, a);
    }
}

proof fn lemma_suffix_shift(v: Seq<int>, w: Seq<int>, k: int, x: int)
    requires
        w.len() == v.len(),
        0 <= x < v.len(),
        forall|p: int| 0 <= p < v.len() ==> #[trigger] w[p] == v[p] + k,
        forall|p: int| 0 <= p < v.len() ==> -INF < #[trigger] v[p] < INF && -INF < v[p] + k < INF,
    ensures
        suffix_min(w, x) == suffix_min(v, x) + k,
        suffix_max(w, x) == suffix_max(v, x) + k,
    decreases v.len() - x,
{
    assert(w[x] == v[x] + k);
    if x + 1 < v.len() {
        lemma_suffix_shift(v, w, k, x + 1);
    } else {
        assert(suffix_min(w, x + 1) == INF as int && suffix_min(v, x + 1) == INF as int);
        assert(suffix_max(w, x + 1) == -INF as int && suffix_max(v, x + 1) == -INF as int);
    }
    assert(suffix_min(w, x) == min(w[x], suffix_min(w, x + 1)));
    assert(suffix_min(v, x) == min(v[x], suffix_min(v, x + 1)));
    assert(suffix_max(w, x) == max(w[x], suffix_max(w, x + 1)));
    assert(suffix_max(v, x) == max(v[x], suffix_max(v, x + 1)));
}

proof fn lemma_last_wide_shift(v: Seq<int>, w: Seq<int>, k: int, d: int, x: int)
    requires
        w.len() == v.len(),
        x < v.len(),
        forall|p: int| 0 <= p < v.len() ==> #[trigger] w[p] == v[p] + k,
        forall|p: int| 0 <= p < v.len() ==> -INF < #[trigger] v[p] < INF && -INF < v[p] + k < INF,
    ensures
        last_wide_upto(w, d, x) == last_wide_upto(v, d, x),
    decreases x,
{
    if x > 0 {
        lemma_suffix_shift(v, w, k, x);
        lemma_last_wide_shift(v, w, k, d, x - 1);
    }
}

/// Shifting every value by `k` keeps the point that `find_point` reports, and
/// shifts the value there and the minimum and maximum from there on by `k`.
pub proof fn law_find_point_shift(v: Seq<int>, w: Seq<int>, k: int, d: int)
    requires
        v.len() >= 1,
        w.len() == v.len(),
        forall|p: int| 0 <= p < v.len() ==> #[trigger] w[p] == v[p] + k,
        forall|p: int| 0 <= p < v.len() ==> -INF < #[trigger] v[p] < INF && -INF < v[p] + k < INF,
    ensures
        last_wide(w, d) == last_wide(v, d),
        w[last_wide(v, d)] == v[last_wide(v, d)] + k,
        suffix_min(w, last_wide(v, d)) == suffix_min(v, last_wide(v, d)) + k,
        suffix_max(w, last_wide(v, d)) == suffix_max(v, last_wide(v, d)) + k,
{
    let x = last_wide(v, d);
    lemma_last_wide_shift(v, w, k, d, v.len() - 1);
    lemma_last_wide_upto_le(v, d, v.len() - 1);
    lemma_suffix_shift(v, w, k, x);
}

/// The tree's view: position `p` holds the sum of deltas from the root to its leaf.
pub open spec fn tree_values(ns: Seq<Node>, n: int) -> Seq<int> {
    Seq::new((n + 1) as nat, |p: int| local(ns, 1, 0, n, p))
}

impl SegTree {
    pub closed spec fn view(&self) -> Seq<int> {
        tree_values(self.nodes@, self.n as int)
    }

    /// The sum of the absolute values of all values added to the tree.
    pub closed spec fn load(&self) -> int {
        self.used@
    }

    pub closed spec fn wf(&self) -> bool {
        &&& 0 <= self.n < 0x2000_0000
        &&& self.nodes.len() <= 0x8000_0000
        &&& wf_node(self.nodes@, 1, 0, self.n as int)
        &&& 0 <= self.used@ <= load_limit()
        &&& forall|p: int| 0 <= p <= self.n ==> load(self.nodes@, 1, 0, self.n as int, p) <= self.used@
    }

    /// A tree over positions `0..=n`, all holding zero.
    pub fn new(n: i32) -> (t: Self)
        requires
            0 <= n < 0x2000_0000,
        ensures
            t.wf(),
            t.n == n,
            t@ == Seq::new((n + 1) as nat, |p: int| 0int),
            t.load() == 0,
            exists|e: nat| t.nodes.len() == #[trigger] pow_two(e) && pow_two(e) >= 2 * (n + 1) && (e == 0 || pow_two((e - 1) as nat) < 2 * (n + 1)),
            forall|j: int| 0 <= j < t.nodes.len() ==> (#[trigger] t.nodes@[j]) == (Node { min: 0, max: 0, delta: 0 }),
    {
        let target: usize = 2 * (n as usize + 1);
        let mut size: usize = 1;
        let ghost mut e: nat = 0;
        while size < target
            invariant
                size == pow_two(e),
                1 <= size < 2 * target,
                e > 0 ==> pow_two((e - 1) as nat) < target,
                target == 2 * (n + 1),
                n < 0x2000_0000,
            decreases 2 * target - size,
        {
            size = size * 2;
            proof {
                e = e + 1;
            }
        }
        let mut nodes: Vec<Node> = Vec::new();
        while nodes.len() < size
            invariant
                nodes.len() <= size,
                forall|j: int| 0 <= j < nodes.len() ==> (#[trigger] nodes@[j]).min == 0
                    && nodes@[j].max == 0 && nodes@[j].delta == 0,
            decreases size - nodes.len(),
        {
            nodes.push(Node { min: 0, max: 0, delta: 0 });
        }
        proof {
            assert(pow_two(0) == 1);
            assert(pow_two(1) == 2);
            assert(e >= 1) by {
                if e == 0 {
                    assert(pow_two(0) == 1);
                }
            }
            assert(pow_two(e) == 2 * pow_two((e - 1) as nat));
            lemma_fits(size as int, 1, 0, n as int, 1, e);
            lemma_zero_tree(nodes@, 1, 0, n as int);
        }
        let t = SegTree { n, nodes, used: Ghost(0) };
        assert(t@ =~= Seq::new((n + 1) as nat, |p: int| 0int));
        assert(t.nodes.len() == pow_two(e) && pow_two(e) >= 2 * (n + 1) && (e == 0 || pow_two((e - 1) as nat) < 2 * (n + 1)));
        t
    }
}


impl SegTree {
    /// Adds `val` to every position in `l..=r`.
    pub fn add(&mut self, l: i32, r: i32, val: i64)
        requires
            old(self).wf(),
            old(self).load() + iabs(val as int) <= load_limit(),
        ensures
            final(self).wf(),
            final(self).n == old(self).n,
            final(self).load() == old(self).load() + iabs(val as int),
            final(self)@ == Seq::new(
                old(self)@.len(),
                |p: int| old(self)@[p] + if l <= p <= r { val as int } else { 0 },
            ),
    {
        let ghost ns0 = self.nodes@;
        let n = self.n;
        proof {
            assert forall|p: int| 0 <= p <= n implies #[trigger] load(ns0, 1, 0, n as int, p)
                + iabs(val as int) <= load_limit() by {
                assert(load(ns0, 1, 0, n as int, p) <= self.used@);
            }
        }
        self.add_internal(1, 0, n, l, r, val);
        self.used = Ghost(self.used@ + iabs(val as int));
        proof {
            assert forall|p: int| 0 <= p <= n implies load(self.nodes@, 1, 0, n as int, p)
                <= self.used@ by {
                assert(load(ns0, 1, 0, n as int, p) <= old(self).used@);
            }
            assert(self@ =~= Seq::new(
                old(self)@.len(),
                |p: int| old(self)@[p] + if l <= p <= r { val as int } else { 0 },
            ));
        }
    }

    /// Adds `delta` to the positions of `l..=r` that lie in the subtree of node
    /// `node_idx`, which covers `n_left..=n_right`, and restores the minima and
    /// maxima on the way back up.
    ///
    /// Returns how many calls it made, itself included: one for a node that `l..=r`
    /// misses or covers, at most two per level of the subtree and one more when
    /// `l..=r` reaches an end of the node's range, and at most four per level and
    /// one more otherwise (`lemma_height_log` bounds the height by the logarithm of
    /// the size).
    pub fn add_internal(
        &mut self,
        node_idx: usize,
        n_left: i32,
        n_right: i32,
        l: i32,
        r: i32,
        delta: i64,
    ) -> (calls: Ghost<nat>)
        requires
            wf_node(old(self).nodes@, node_idx as int, n_left as int, n_right as int),
            0 <= n_left,
            n_right < 0x2000_0000,
            old(self).nodes.len() <= 0x8000_0000,
            forall|p: int|
                n_left <= p <= n_right ==> #[trigger] load(
                    old(self).nodes@,
                    node_idx as int,
                    n_left as int,
                    n_right as int,
                    p,
                ) + iabs(delta as int) <= load_limit(),
        ensures
            final(self).nodes.len() == old(self).nodes.len(),
            final(self).n == old(self).n,
            final(self).used == old(self).used,
            wf_node(final(self).nodes@, node_idx as int, n_left as int, n_right as int),
            forall|p: int|
                n_left <= p <= n_right ==> #[trigger] local(
                    final(self).nodes@,
                    node_idx as int,
                    n_left as int,
                    n_right as int,
                    p,
                ) == local(old(self).nodes@, node_idx as int, n_left as int, n_right as int, p)
                    + if l <= p <= r { delta as int } else { 0 },
            forall|p: int|
                n_left <= p <= n_right ==> #[trigger] load(
                    final(self).nodes@,
                    node_idx as int,
                    n_left as int,
                    n_right as int,
                    p,
                ) <= load(old(self).nodes@, node_idx as int, n_left as int, n_right as int, p)
                    + iabs(delta as int),
            forall|j: int|
                0 <= j < old(self).nodes.len() && !in_subtree(j, node_idx as int)
                    ==> final(self).nodes@[j] == #[trigger] old(self).nodes@[j],
            r < n_left || n_right < l ==> final(self).nodes@ == old(self).nodes@,
            (r < n_left || n_right < l || (l <= n_left && n_right <= r)) ==> calls@ == 1,
            (l <= n_left || n_right <= r) ==> calls@ <= 2 * node_height(n_left as int, n_right as int) + 1,
            calls@ <= 4 * node_height(n_left as int, n_right as int) + 1,
        decreases n_right - n_left,
    {
        let ghost idx = node_idx as int;
        let ghost lo = n_left as int;
        let ghost hi = n_right as int;
        let ghost ns0 = self.nodes@;
        if r < n_left || n_right < l {
            return Ghost(1nat);
        }
        if l <= n_left && n_right <= r {
            proof {
                lemma_node_bounds(ns0, idx, lo, hi, load_limit() - iabs(delta as int));
            }
            let node = self.nodes[node_idx];
            self.nodes.set(
                node_idx,
                Node { min: node.min + delta, max: node.max + delta, delta: node.delta + delta },
            );
            proof {
                let ns1 = self.nodes@;
                if lo < hi {
                    let m = mid(lo, hi);
                    let cl = 2 * idx;
                    let cr = 2 * idx + 1;
                    lemma_not_subtree_of_child(idx, cl, cr);
                    assert forall|j: int| #[trigger] in_subtree(j, cl) && 0 <= j < ns0.len() implies ns0[j] == ns1[j] by {
                        if j == idx {
                            lemma_subtree_nested(j, idx, cl);
                        }
                    }
                    assert forall|j: int| #[trigger] in_subtree(j, cr) && 0 <= j < ns0.len() implies ns0[j] == ns1[j] by {
                        if j == idx {
                            lemma_subtree_nested(j, idx, cr);
                        }
                    }
                    lemma_frame(ns0, ns1, cl, lo, m);
                    lemma_frame(ns0, ns1, cr, m + 1, hi);
                    assert forall|p: int| lo <= p <= hi implies #[trigger] local(ns1, idx, lo, hi, p)
                        == local(ns0, idx, lo, hi, p) + delta by {
                        if p <= m {
                            assert(local(ns1, cl, lo, m, p) == local(ns0, cl, lo, m, p));
                        } else {
                            assert(local(ns1, cr, m + 1, hi, p) == local(ns0, cr, m + 1, hi, p));
                        }
                    }
                    assert forall|p: int| lo <= p <= hi implies #[trigger] load(ns1, idx, lo, hi, p)
                        <= load(ns0, idx, lo, hi, p) + iabs(delta as int) by {
                        if p <= m {
                            assert(load(ns1, cl, lo, m, p) == load(ns0, cl, lo, m, p));
                        } else {
                            assert(load(ns1, cr, m + 1, hi, p) == load(ns0, cr, m + 1, hi, p));
                        }
                    }
                }
                assert(in_subtree(idx, idx));
            }
            return Ghost(1nat);
        }
        let n_mid = (n_left + n_right) / 2;
        let ghost m = mid(lo, hi);
        let ghost cl = 2 * idx;
        let ghost cr = 2 * idx + 1;
        proof {
            lemma_not_subtree_of_child(idx, cl, cr);
            assert forall|p: int| lo <= p <= m implies #[trigger] load(ns0, cl, lo, m, p) + iabs(
                delta as int,
            ) <= load_limit() by {
                lemma_load_nonneg(ns0, cl, lo, m, p);
                assert(load(ns0, idx, lo, hi, p) + iabs(delta as int) <= load_limit());
            }
        }
        let c1 = self.add_internal(node_idx * 2, n_left, n_mid, l, r, delta);
        let ghost ns1 = self.nodes@;
        proof {
            assert forall|j: int| #[trigger] in_subtree(j, cr) && 0 <= j < ns0.len() implies ns0[j] == ns1[j] by {}
            lemma_frame(ns0, ns1, cr, m + 1, hi);
            assert forall|p: int| m + 1 <= p <= hi implies #[trigger] load(ns1, cr, m + 1, hi, p)
                + iabs(delta as int) <= load_limit() by {
                assert(load(ns0, idx, lo, hi, p) + iabs(delta as int) <= load_limit());
            }
        }
        let c2 = self.add_internal(node_idx * 2 + 1, n_mid + 1, n_right, l, r, delta);
        let ghost ns2 = self.nodes@;
        proof {
            assert forall|j: int| #[trigger] in_subtree(j, cl) && 0 <= j < ns0.len() implies ns1[j] == ns2[j] by {}
            lemma_frame(ns1, ns2, cl, lo, m);
            let b = load_limit() - iabs(ns0[idx].delta as int);
            assert forall|p: int| lo <= p <= m implies #[trigger] load(ns2, cl, lo, m, p) <= b by {
                assert(load(ns0, idx, lo, hi, p) + iabs(delta as int) <= load_limit());
            }
            assert forall|p: int| m + 1 <= p <= hi implies #[trigger] load(ns2, cr, m + 1, hi, p) <= b by {
                assert(load(ns0, idx, lo, hi, p) + iabs(delta as int) <= load_limit());
            }
            lemma_node_bounds(ns2, cl, lo, m, b);
            lemma_node_bounds(ns2, cr, m + 1, hi, b);
            assert(ns2[idx] == ns0[idx]);
        }
        let left = self.nodes[node_idx * 2];
        let right = self.nodes[node_idx * 2 + 1];
        let min = if left.min < right.min { left.min } else { right.min };
        let max = if left.max > right.max { left.max } else { right.max };
        let node = self.nodes[node_idx];
        self.nodes.set(
            node_idx,
            Node { min: node.delta + min, max: node.delta + max, delta: node.delta },
        );
        proof {
            let ns3 = self.nodes@;
            assert forall|j: int| #[trigger] in_subtree(j, cl) && 0 <= j < ns0.len() implies ns2[j] == ns3[j] by {
                if j == idx {
                    lemma_subtree_nested(j, idx, cl);
                }
            }
            assert forall|j: int| #[trigger] in_subtree(j, cr) && 0 <= j < ns0.len() implies ns2[j] == ns3[j] by {
                if j == idx {
                    lemma_subtree_nested(j, idx, cr);
                }
            }
            lemma_frame(ns2, ns3, cl, lo, m);
            lemma_frame(ns2, ns3, cr, m + 1, hi);
            assert forall|p: int| lo <= p <= hi implies #[trigger] local(ns3, idx, lo, hi, p)
                == local(ns0, idx, lo, hi, p) + (if l <= p <= r { delta as int } else { 0 }) by {
                if p <= m {
                    assert(local(ns3, cl, lo, m, p) == local(ns2, cl, lo, m, p));
                } else {
                    assert(local(ns3, cr, m + 1, hi, p) == local(ns2, cr, m + 1, hi, p));
                }
            }
            assert forall|p: int| lo <= p <= hi implies #[trigger] load(ns3, idx, lo, hi, p)
                <= load(ns0, idx, lo, hi, p) + iabs(delta as int) by {
                if p <= m {
                    assert(load(ns3, cl, lo, m, p) == load(ns2, cl, lo, m, p));
                } else {
                    assert(load(ns3, cr, m + 1, hi, p) == load(ns2, cr, m + 1, hi, p));
                }
            }
            assert forall|j: int| 0 <= j < ns0.len() && !in_subtree(j, idx) implies ns3[j]
                == #[trigger] ns0[j] by {
                if in_subtree(j, cl) {
                    lemma_subtree_trans(j, cl, idx);
                }
                if in_subtree(j, cr) {
                    lemma_subtree_trans(j, cr, idx);
                }
                assert(in_subtree(idx, idx));
            }
            assert(node_height(lo, hi) >= node_height(lo, m) + 1);
            assert(node_height(lo, hi) >= node_height(m + 1, hi) + 1);
        }
        Ghost(1 + c1@ + c2@)
    }
}


impl SegTree {
    /// `find_point` after `add(0, n, k)`: when `t2` is `t1` with `k` added at every
    /// position (what `add(0, t1.n, k)` ensures), `find_point(d)` on `t2` reports the
    /// same point as on `t1`, and its value, minimum and maximum each shifted by `k`.
    pub proof fn law_find_point_after_add_all(t1: SegTree, t2: SegTree, k: int, d: int)
        requires
            t1.wf(),
            t2@ == Seq::new(t1@.len(), |p: int| t1@[p] + if 0 <= p <= t1.n { k } else { 0 }),
            forall|p: int| 0 <= p < t1@.len() ==> -INF < #[trigger] t1@[p] < INF && -INF < t1@[p] + k < INF,
        ensures
            last_wide(t2@, d) == last_wide(t1@, d),
            t2@[last_wide(t1@, d)] == t1@[last_wide(t1@, d)] + k,
            suffix_min(t2@, last_wide(t1@, d)) == suffix_min(t1@, last_wide(t1@, d)) + k,
            suffix_max(t2@, last_wide(t1@, d)) == suffix_max(t1@, last_wide(t1@, d)) + k,
    {
        assert forall|p: int| 0 <= p < t1@.len() implies #[trigger] t2@[p] == t1@[p] + k by {}
        law_find_point_shift(t1@, t2@, k, d);
    }
}

impl SegTree {
    /// Returns `(value at x, minimum, maximum)` of the values at positions `x..=n`,
    /// where `x` is the rightmost position such that the values at `x..=n` spread over
    /// at least `d` (and `x == 0` if there is none).
    pub fn find_point(&self, d: i64) -> (res: (i64, i64, i64))
        requires
            self.wf(),
            forall|p: int| 0 <= p < self@.len() ==> -INF < #[trigger] self@[p] < INF,
        ensures
            ({
                let x = last_wide(self@, d as int);
                &&& res.0 == self@[x]
                &&& res.1 == suffix_min(self@, x)
                &&& res.2 == suffix_max(self@, x)
            }),
    {
        let ghost ns = self.nodes@;
        let ghost v = self@;
        let ghost n = self.n as int;
        let ghost x = last_wide(v, d as int);
        proof {
            lemma_last_wide_upto_le(v, d as int, n);
            assert forall|p: int| 0 <= p <= n implies v[p] == 0 + #[trigger] local(ns, 1, 0, n, p) by {}
            assert forall|p: int| 0 <= p <= n implies #[trigger] load(ns, 1, 0, n, p) <= load_limit() by {}
        }
        let mut node_idx: usize = 1;
        let mut l: i32 = 0;
        let mut r: i32 = self.n;
        let mut delta: i64 = 0;
        let mut min: i64 = INF;
        let mut max: i64 = -INF;
        while l < r
            invariant
                self.wf(),
                ns == self.nodes@,
                v == self@,
                n == self.n,
                x == last_wide(v, d as int),
                forall|p: int| 0 <= p < v.len() ==> -INF < #[trigger] v[p] < INF,
                0 <= l <= x <= r <= n,
                wf_node(ns, node_idx as int, l as int, r as int),
                forall|p: int| l <= p <= r ==> v[p] == delta + #[trigger] local(ns, node_idx as int, l as int, r as int, p),
                forall|p: int| l <= p <= r ==> iabs(delta as int) + #[trigger] load(ns, node_idx as int, l as int, r as int, p) <= load_limit(),
                min == suffix_min(v, r + 1),
                max == suffix_max(v, r + 1),
            decreases r - l,
        {
            let ghost lo = l as int;
            let ghost hi = r as int;
            let ghost idx = node_idx as int;
            let ghost m = mid(lo, hi);
            let ghost cl = 2 * idx;
            let ghost cr = 2 * idx + 1;
            let node = self.nodes[node_idx];
            proof {
                lemma_load_nonneg(ns, cl, lo, m, lo);
                assert(iabs(delta as int) + load(ns, idx, lo, hi, lo) <= load_limit());
            }
            delta = delta + node.delta;
            let mid_idx = (l + r) / 2;
            proof {
                assert forall|p: int| mid_idx + 1 <= p <= r implies v[p] == delta + #[trigger] local(ns, cr, m + 1, hi, p) by {
                    assert(v[p] == old_delta(delta, node.delta) + local(ns, idx, lo, hi, p));
                }
                assert forall|p: int| l <= p <= mid_idx implies v[p] == delta + #[trigger] local(ns, cl, lo, m, p) by {
                    assert(v[p] == old_delta(delta, node.delta) + local(ns, idx, lo, hi, p));
                }
                assert(wf_node(ns, cr, m + 1, hi));
                lemma_node_extremes(ns, cr, m + 1, hi, v, delta as int);
                lemma_range_bounds(v, m + 1, hi);
                lemma_suffix_split(v, m + 1, hi);
                lemma_suffix_bounds(v, m + 1);
            }
            let right = self.nodes[node_idx * 2 + 1];
            let right_min = delta + right.min;
            let right_max = delta + right.max;
            let mid_min = if min < right_min { min } else { right_min };
            let mid_max = if max > right_max { max } else { right_max };
            if mid_max - mid_min >= d {
                proof {
                    lemma_last_wide_upto_ge(v, d as int, n, m + 1);
                    assert forall|p: int| m + 1 <= p <= hi implies iabs(delta as int) + #[trigger] load(ns, cr, m + 1, hi, p) <= load_limit() by {
                        assert(iabs(old_delta(delta, node.delta) as int) + load(ns, idx, lo, hi, p) <= load_limit());
                    }
                }
                node_idx = node_idx * 2 + 1;
                l = mid_idx + 1;
            } else {
                proof {
                    assert forall|y: int| m < y <= n implies !wide(v, y, d as int) by {
                        lemma_suffix_mono(v, m + 1, y);
                    }
                    lemma_last_wide_upto_skip(v, d as int, n, m);
                    lemma_last_wide_upto_le(v, d as int, m);
                    assert forall|p: int| lo <= p <= m implies iabs(delta as int) + #[trigger] load(ns, cl, lo, m, p) <= load_limit() by {
                        assert(iabs(old_delta(delta, node.delta) as int) + load(ns, idx, lo, hi, p) <= load_limit());
                    }
                }
                node_idx = node_idx * 2;
                r = mid_idx;
                min = mid_min;
                max = mid_max;
            }
        }
        let node = self.nodes[node_idx];
        proof {
            assert(l == x && r == x);
            assert(v[x] == delta + local(ns, node_idx as int, x, x, x));
        }
        let x_val = delta + node.delta;
        let last_min = if min < x_val { min } else { x_val };
        let last_max = if max > x_val { max } else { x_val };
        (x_val, last_min, last_max)
    }
}

/// The root of a well-formed tree stores the minimum and maximum of all values.
pub proof fn lemma_root_extremes(t: &SegTree)
    requires
        t.wf(),
        forall|p: int| 0 <= p < t@.len() ==> -INF < #[trigger] t@[p] < INF,
    ensures
        t.nodes.len() > 1,
        t.nodes@[1].min == suffix_min(t@, 0),
        t.nodes@[1].max == suffix_max(t@, 0),
{
    let v = t@;
    let n = t.n as int;
    assert forall|p: int| 0 <= p <= n implies v[p] == 0 + #[trigger] local(t.nodes@, 1, 0, n, p) by {}
    lemma_node_extremes(t.nodes@, 1, 0, n, v, 0);
    lemma_suffix_split(v, 0, n);
    lemma_range_bounds(v, 0, n);
}

/// The accumulated delta before a node's own delta was added.
spec fn old_delta(acc: i64, own: i64) -> int {
    acc - own
}

} // verus!
