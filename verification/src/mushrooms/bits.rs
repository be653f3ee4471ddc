//! Bit problems: `2^m` counting queries that determine `n` unknown bits, built level
//! by level, and the decoding of their answers.
use vstd::prelude::*;
use crate::candies::segtree::pow_two;
use crate::sort::{sort_indices_by_key, ordered, before};

verus! {

pub struct BitsProblem {
    /// Number of bits we can determine.
    pub n: usize,
    /// Minimum known elements.
    pub min_known: usize,
    /// Last query is always sum of all bits.
    pub queries: Vec<Vec<usize>>,
}

/// `x` occurs in `q`.
pub open spec fn occurs(q: Seq<usize>, x: int) -> bool {
    exists|k: int| 0 <= k < q.len() && #[trigger] q[k] as int == x
}

/// `q` is strictly increasing.
pub open spec fn increasing(q: Seq<usize>) -> bool {
    forall|i: int, j: int| 0 <= i < j < q.len() ==> #[trigger] q[i] < #[trigger] q[j]
}

/// Every query of the problem is strictly increasing and within its bits.
pub open spec fn queries_within(p: BitsProblem) -> bool {
    forall|k: int|
        0 <= k < p.queries.len() ==> {
            &&& increasing(#[trigger] p.queries@[k]@)
            &&& forall|j: int| 0 <= j < p.queries@[k]@.len() ==> p.queries@[k]@[j] < p.n
        }
}

/// The single-bit problem: one query, of bit 0.
pub open spec fn base_ok(p: BitsProblem) -> bool {
    &&& p.n == 1
    &&& p.min_known == 3
    &&& p.queries.len() == 1
    &&& forall|x: int| #[trigger] occurs(p.queries@[0]@, x) <==> x == 0
}

/// Level `m` doubles the bits of level `m - 1` (a left and a right copy) and adds
/// `2^(m-1) - 1` extra bits. Each query `q` of the previous level but its last gives
/// two: the "sum" query of `q` in both copies, and the "difference" query of `q` in
/// the left copy, the complement of `q` in the right copy, and one extra bit. Then
/// come the query of the whole right copy and the query of everything.
pub open spec fn level_ok(prev: BitsProblem, cur: BitsProblem, m: nat) -> bool {
    let np = prev.n as int;
    let h = pow_two((m - 1) as nat) as int;
    &&& cur.n == 2 * np + h - 1
    &&& prev.queries.len() == h
    &&& cur.queries.len() == 2 * h
    &&& forall|k: int, x: int|
        0 <= k < 2 * h - 2 ==> (#[trigger] occurs(cur.queries@[k]@, x) <==> if k % 2 == 0 {
            (0 <= x < np && occurs(prev.queries@[k / 2]@, x)) || (np <= x < 2 * np && occurs(
                prev.queries@[k / 2]@,
                x - np,
            ))
        } else {
            (0 <= x < np && occurs(prev.queries@[k / 2]@, x)) || (np <= x < 2 * np && !occurs(
                prev.queries@[k / 2]@,
                x - np,
            )) || x == 2 * np + k / 2
        })
    &&& forall|x: int| #[trigger] occurs(cur.queries@[2 * h - 2]@, x) <==> np <= x < 2 * np
    &&& forall|x: int| #[trigger] occurs(cur.queries@[2 * h - 1]@, x) <==> 0 <= x < cur.n
}

/// The lengths of the queries.
pub open spec fn lengths(qs: Seq<Vec<usize>>) -> Seq<i64> {
    Seq::new(qs.len(), |i: int| qs[i].len() as i64)
}

/// `r` lists the indices of `qs` by increasing length (and by index among equal
/// lengths).
pub open spec fn sorted_by_length(qs: Seq<Vec<usize>>, r: Seq<usize>) -> bool {
    &&& r.len() == qs.len()
    &&& ordered(lengths(qs), r)
    &&& forall|i: int| 0 <= i < r.len() ==> #[trigger] r[i] < qs.len()
    &&& forall|x: usize| x < qs.len() ==> #[trigger] r.contains(x)
}

/// The queries of `p` by increasing length (and index among equal lengths).
pub open spec fn by_length(p: BitsProblem, r: Seq<usize>) -> bool {
    sorted_by_length(p.queries@, r)
}

/// `min_known` known mushrooms suffice to run the queries in order of length: the
/// query at position `ord` has at most `(min_known + ord - 1) / 2` elements.
pub open spec fn min_known_ok(p: BitsProblem) -> bool {
    &&& 1 <= p.min_known
    &&& forall|r: Seq<usize>, ord: int|
        by_length(p, r) && 0 <= ord < r.len() ==> 2 * p.queries@[#[trigger] r[ord] as int].len() + 1 - ord <= p.min_known
}

/// `min_known` is no more than the queries need: some query of the order by length
/// asks for exactly that many.
pub open spec fn min_known_tight(p: BitsProblem) -> bool {
    forall|r: Seq<usize>|
        #[trigger] by_length(p, r) ==> exists|ord: int|
            0 <= ord < r.len() && p.min_known == 2 * p.queries@[#[trigger] r[ord] as int].len() + 1 - ord
}

/// The problems `bp[0..=m]` are built as described by `base_ok` and `level_ok`, and
/// each level asks for as many known mushrooms as its queries need.
pub closed spec fn levels_ok(bp: Seq<BitsProblem>, m: int) -> bool {
    &&& m < bp.len()
    &&& forall|k: int| 0 <= k <= m ==> queries_within(#[trigger] bp[k]) && min_known_ok(bp[k])
    &&& base_ok(bp[0])
    &&& forall|k: int| 1 <= k <= m ==> level_ok(bp[k - 1], #[trigger] bp[k], k as nat)
    &&& forall|k: int| 0 <= k <= m ==> min_known_tight(#[trigger] bp[k])
}

/// The levels `0..=m` are built as `base_ok` and `level_ok` describe.
pub proof fn lemma_levels_built(bp: Seq<BitsProblem>, m: int)
    requires
        levels_ok(bp, m),
    ensures
        base_ok(bp[0]),
        forall|k: int| 1 <= k <= m ==> level_ok(bp[k - 1], #[trigger] bp[k], k as nat),
        forall|k: int| 0 <= k <= m ==> min_known_tight(#[trigger] bp[k]),
{
}

/// Each of the levels `0..=m` has its queries within its bits, and its `min_known`
/// lets them run in order of length.
pub proof fn lemma_level_facts(bp: Seq<BitsProblem>, m: int, k: int)
    requires
        levels_ok(bp, m),
        0 <= k <= m,
    ensures
        k < bp.len(),
        levels_ok(bp, k),
        queries_within(bp[k]),
        min_known_ok(bp[k]),
{
}

// ---------------------------------------------------------------------------

proof fn lemma_occurs_concat(a: Seq<usize>, b: Seq<usize>, x: int)
    ensures
        occurs(a + b, x) <==> occurs(a, x) || occurs(b, x),
{
    if occurs(a, x) {
        let k = choose|k: int| 0 <= k < a.len() && #[trigger] a[k] as int == x;
        assert((a + b)[k] == a[k]);
    }
    if occurs(b, x) {
        let k = choose|k: int| 0 <= k < b.len() && #[trigger] b[k] as int == x;
        assert((a + b)[a.len() + k] == b[k]);
    }
    if occurs(a + b, x) {
        let k = choose|k: int| 0 <= k < (a + b).len() && #[trigger] (a + b)[k] as int == x;
        if k < a.len() {
            assert(a[k] == (a + b)[k]);
        } else {
            assert(b[k - a.len()] == (a + b)[k]);
        }
    }
}

proof fn lemma_increasing_concat(a: Seq<usize>, b: Seq<usize>)
    requires
        increasing(a),
        increasing(b),
        forall|i: int, j: int| 0 <= i < a.len() && 0 <= j < b.len() ==> #[trigger] a[i] < #[trigger] b[j],
    ensures
        increasing(a + b),
{
    assert forall|i: int, j: int| 0 <= i < j < (a + b).len() implies #[trigger] (a + b)[i] < #[trigger] (a + b)[j] by {
        if j < a.len() {
            assert(a[i] < a[j]);
        } else if i < a.len() {
            assert(a[i] < b[j - a.len()]);
        } else {
            assert(b[i - a.len()] < b[j - a.len()]);
        }
    }
}

/// The numbers `lo..hi`.
pub(crate) fn range_vec(lo: usize, hi: usize) -> (r: Vec<usize>)
    requires
        lo <= hi,
    ensures
        r.len() == hi - lo,
        forall|k: int| 0 <= k < r.len() ==> #[trigger] r@[k] == lo + k,
        increasing(r@),
        forall|x: int| #[trigger] occurs(r@, x) <==> lo <= x < hi,
{
    let mut r: Vec<usize> = Vec::new();
    let mut i = lo;
    while i < hi
        invariant
            lo <= i <= hi,
            r.len() == i - lo,
            forall|k: int| 0 <= k < r.len() ==> #[trigger] r@[k] == lo + k,
        decreases hi - i,
    {
        r.push(i);
        i = i + 1;
    }
    proof {
        assert forall|x: int| #[trigger] occurs(r@, x) <==> lo <= x < hi by {
            if lo <= x < hi {
                assert(r@[x - lo] as int == x);
            }
        }
    }
    r
}

/// Appends `q[k] + off` for each `k`.
fn push_shifted(out: &mut Vec<usize>, q: &Vec<usize>, off: usize)
    requires
        forall|k: int| 0 <= k < q.len() ==> q@[k] + off <= usize::MAX,
    ensures
        final(out)@ == old(out)@ + Seq::new(q.len() as nat, |k: int| (q@[k] + off) as usize),
{
    let mut k: usize = 0;
    while k < q.len()
        invariant
            k <= q.len(),
            forall|j: int| 0 <= j < q.len() ==> q@[j] + off <= usize::MAX,
            out@ == old(out)@ + Seq::new(k as nat, |j: int| (q@[j] + off) as usize),
        decreases q.len() - k,
    {
        out.push(q[k] + off);
        k = k + 1;
        proof {
            assert(out@ =~= old(out)@ + Seq::new(k as nat, |j: int| (q@[j] + off) as usize));
        }
    }
}

/// Appends `off + i`, in increasing order, for each `i < np` that does not occur in
/// `q`.
fn push_complement(out: &mut Vec<usize>, q: &Vec<usize>, np: usize, off: usize)
    requires
        increasing(q@),
        forall|k: int| 0 <= k < q.len() ==> q@[k] < np,
        np + off <= usize::MAX,
        q.len() < usize::MAX,
    ensures
        ({
            let g = final(out)@.subrange(old(out)@.len() as int, final(out)@.len() as int);
            &&& final(out)@.len() >= old(out)@.len()
            &&& final(out)@.subrange(0, old(out)@.len() as int) == old(out)@
            &&& increasing(g)
            &&& forall|k: int| 0 <= k < g.len() ==> off <= #[trigger] g[k] < off + np
            &&& forall|x: int| #[trigger] occurs(g, x) <==> off <= x < off + np && !occurs(q@, x - off)
        }),
{
    let ghost start = out@.len() as int;
    let mut last_elem: usize = 0;
    let mut k: usize = 0;
    while k <= q.len()
        invariant
            increasing(q@),
            forall|j: int| 0 <= j < q.len() ==> q@[j] < np,
            np + off <= usize::MAX,
            q.len() < usize::MAX,
            k <= q.len() + 1,
            start == old(out)@.len(),
            out@.len() >= start,
            out@.subrange(0, start) == old(out)@,
            last_elem <= np,
            k > 0 && k <= q.len() ==> last_elem == q@[k - 1] + 1,
            k == 0 ==> last_elem == 0,
            k > q.len() ==> last_elem == np,
            forall|j: int| k <= j < q.len() ==> last_elem <= #[trigger] q@[j],
            increasing(out@.subrange(start, out@.len() as int)),
            forall|j: int| start <= j < out@.len() ==> off <= #[trigger] out@[j] < off + last_elem,
            forall|x: int| #[trigger] occurs(out@.subrange(start, out@.len() as int), x) <==> off <= x < off + last_elem && !occurs(q@, x - off),
        decreases q.len() + 1 - k,
    {
        let upto = if k < q.len() { q[k] } else { np };
        let mut i = last_elem;
        while i < upto
            invariant
                np + off <= usize::MAX,
                last_elem <= i <= upto <= np,
                start == old(out)@.len(),
                out@.len() >= start,
                out@.subrange(0, start) == old(out)@,
                increasing(out@.subrange(start, out@.len() as int)),
                forall|j: int| start <= j < out@.len() ==> off <= #[trigger] out@[j] < off + i,
                forall|x: int| #[trigger] occurs(out@.subrange(start, out@.len() as int), x) <==> (off <= x < off + last_elem && !occurs(q@, x - off)) || (off + last_elem <= x < off + i),
            decreases upto - i,
        {
            let ghost before = out@;
            out.push(off + i);
            proof {
                let g0 = before.subrange(start, before.len() as int);
                let g1 = out@.subrange(start, out@.len() as int);
                assert(g1 =~= g0.push((off + i) as usize));
                assert forall|a: int, b: int| 0 <= a < b < g1.len() implies #[trigger] g1[a] < #[trigger] g1[b] by {
                    if b < g0.len() {
                        assert(g0[a] < g0[b]);
                    } else {
                        assert(before[start + a] < off + i);
                    }
                }
                assert forall|x: int| #[trigger] occurs(g1, x) <==> (off <= x < off + last_elem && !occurs(q@, x - off)) || (off + last_elem <= x < off + i + 1) by {
                    assert(g1 == g0 + seq![(off + i) as usize]);
                    lemma_occurs_concat(g0, seq![(off + i) as usize], x);
                    if x == off + i {
                        assert(seq![(off + i) as usize][0] as int == x);
                    }
                    if occurs(seq![(off + i) as usize], x) {
                        let kk = choose|kk: int| 0 <= kk < 1 && #[trigger] seq![(off + i) as usize][kk] as int == x;
                    }
                }
            }
            i = i + 1;
        }
        proof {
            // The gap stops at q[k], which occurs in q; below it, nothing else of q
            // lies at or above `last_elem`.
            assert forall|x: int| #[trigger] occurs(out@.subrange(start, out@.len() as int), x) <==> off <= x < off + (if k < q.len() { upto + 1 } else { upto as int }) && !occurs(q@, x - off) by {
                if off + last_elem <= x < off + upto {
                    if occurs(q@, x - off) {
                        let j = choose|j: int| 0 <= j < q.len() && #[trigger] q@[j] as int == x - off;
                        if j < k {
                            if k > 0 {
                                assert(q@[j] <= q@[k - 1]);
                            }
                        } else if j > k {
                            if k < q.len() {
                                assert(q@[k as int] < q@[j]);
                            }
                        }
                    }
                }
                if k < q.len() && x == off + upto {
                    assert(q@[k as int] as int == x - off);
                }
            }
        }
        if k < q.len() {
            last_elem = q[k] + 1;
            proof {
                assert forall|j: int| k + 1 <= j < q.len() implies last_elem <= #[trigger] q@[j] by {
                    assert(q@[k as int] < q@[j]);
                }
            }
        } else {
            last_elem = np;
        }
        k = k + 1;
    }
}


/// Two lists ordered the same way that hold the same indices are equal.
proof fn lemma_ordered_unique(keys: Seq<i64>, a: Seq<usize>, b: Seq<usize>)
    requires
        ordered(keys, a),
        ordered(keys, b),
        a.len() == b.len(),
        forall|x: usize| #[trigger] a.contains(x) <==> b.contains(x),
    ensures
        a == b,
{
    assert forall|i: int| 0 <= i < a.len() implies a[i] == b[i] by {
        lemma_ordered_agree(keys, a, b, i);
    }
    assert(a =~= b);
}

proof fn lemma_ordered_agree(keys: Seq<i64>, a: Seq<usize>, b: Seq<usize>, i: int)
    requires
        ordered(keys, a),
        ordered(keys, b),
        a.len() == b.len(),
        forall|x: usize| #[trigger] a.contains(x) <==> b.contains(x),
        0 <= i < a.len(),
    ensures
        a[i] == b[i],
    decreases i,
{
    assert forall|k: int| 0 <= k < i implies a[k] == b[k] by {
        lemma_ordered_agree(keys, a, b, k);
    }
    if a[i] != b[i] {
        // a[i] occurs in b at some j > i, and b[i] in a at some j2 > i, so each comes
        // before the other.
        assert(a.contains(a[i]));
        let j = choose|j: int| 0 <= j < b.len() && b[j] == a[i];
        assert(b.contains(b[i]));
        assert(a.contains(b[i]));
        let j2 = choose|j2: int| 0 <= j2 < a.len() && a[j2] == b[i];
        if j < i {
            lemma_ordered_agree(keys, a, b, j);
            assert(before(keys, a[j] as int, a[i] as int));
        }
        if j2 < i {
            lemma_ordered_agree(keys, a, b, j2);
            assert(before(keys, b[j2] as int, b[i] as int));
        }
        assert(before(keys, b[i] as int, b[j] as int));
        assert(before(keys, a[i] as int, a[j2] as int));
    }
}

/// The order by length is unique: two lists that both order the queries by length
/// are the same list.
pub proof fn law_sorted_unique(qs: Seq<Vec<usize>>, r1: Seq<usize>, r2: Seq<usize>)
    requires
        sorted_by_length(qs, r1),
        sorted_by_length(qs, r2),
    ensures
        r1 == r2,
{
    assert forall|x: usize| #[trigger] r1.contains(x) <==> r2.contains(x) by {
        if r1.contains(x) {
            let k = choose|k: int| 0 <= k < r1.len() && r1[k] == x;
            assert(r1[k] < qs.len());
        }
        if r2.contains(x) {
            let k = choose|k: int| 0 <= k < r2.len() && r2[k] == x;
            assert(r2[k] < qs.len());
        }
    }
    lemma_ordered_unique(lengths(qs), r1, r2);
}

/// Queries that already come by length keep their places: their order by length is
/// `0, 1, .., n - 1`.
pub proof fn law_sorted_in_place(qs: Seq<Vec<usize>>, r: Seq<usize>)
    requires
        qs.len() <= 0x1_0000_0000,
        forall|i: int| 0 <= i < qs.len() ==> (#[trigger] qs[i]).len() <= 0x1_0000_0000,
        forall|i: int, j: int| 0 <= i <= j < qs.len() ==> (#[trigger] qs[i]).len() <= (#[trigger] qs[j]).len(),
        sorted_by_length(qs, r),
    ensures
        forall|i: int| 0 <= i < r.len() ==> #[trigger] r[i] == i,
{
    let id = Seq::new(qs.len(), |i: int| i as usize);
    assert(qs.len() <= r.len());
    assert forall|i: int, j: int| 0 <= i < j < id.len() implies before(lengths(qs), #[trigger] id[i] as int, #[trigger] id[j] as int) by {
        assert(qs[i].len() <= qs[j].len());
        assert(lengths(qs)[i] == qs[i].len() as i64);
        assert(lengths(qs)[j] == qs[j].len() as i64);
    }
    assert forall|x: usize| x < qs.len() implies #[trigger] id.contains(x) by {
        assert(id[x as int] == x);
    }
    assert forall|i: int| 0 <= i < id.len() implies #[trigger] id[i] < qs.len() by {}
    law_sorted_unique(qs, r, id);
    assert forall|i: int| 0 <= i < r.len() implies #[trigger] r[i] == i by {
        assert(r[i] == id[i]);
    }
}

/// Sorting twice changes nothing: with `r` what `sorted` gives for `qs`, and `r2`
/// what it gives for the queries of `qs` taken in the order `r`, `r2` is the
/// identity `0, 1, .., qs.len() - 1`.
pub proof fn law_sorted_twice(qs: Seq<Vec<usize>>, r: Seq<usize>, r2: Seq<usize>)
    requires
        qs.len() <= 0x1_0000_0000,
        forall|i: int| 0 <= i < qs.len() ==> (#[trigger] qs[i]).len() <= 0x1_0000_0000,
        sorted_by_length(qs, r),
        sorted_by_length(Seq::new(r.len(), |k: int| qs[r[k] as int]), r2),
    ensures
        r2 == Seq::new(qs.len(), |i: int| i as usize),
{
    let qs2 = Seq::new(r.len(), |k: int| qs[r[k] as int]);
    assert forall|i: int| 0 <= i < qs2.len() implies (#[trigger] qs2[i]).len() <= 0x1_0000_0000 by {
        assert(r[i] < qs.len());
    }
    assert forall|i: int, j: int| 0 <= i <= j < qs2.len() implies (#[trigger] qs2[i]).len() <= (#[trigger] qs2[j]).len() by {
        if i < j {
            assert(before(lengths(qs), r[i] as int, r[j] as int));
            assert(r[i] < qs.len() && r[j] < qs.len());
            assert(lengths(qs)[r[i] as int] == qs[r[i] as int].len() as i64);
            assert(lengths(qs)[r[j] as int] == qs[r[j] as int].len() as i64);
        }
    }
    law_sorted_in_place(qs2, r2);
    assert(r2 =~= Seq::new(qs.len(), |i: int| i as usize));
}

/// Returns the permutation of queries ordered by increasing length.
pub fn sorted(queries: &Vec<Vec<usize>>) -> (r: Vec<usize>)
    requires
        queries.len() <= 0x1_0000_0000,
        forall|i: int| 0 <= i < queries.len() ==> (#[trigger] queries@[i]).len() <= 0x1_0000_0000,
    ensures
        sorted_by_length(queries@, r@),
{
    let mut keys: Vec<i64> = Vec::new();
    let mut i: usize = 0;
    while i < queries.len()
        invariant
            i <= queries.len(),
            keys.len() == i,
            forall|i: int| 0 <= i < queries.len() ==> (#[trigger] queries@[i]).len() <= 0x1_0000_0000,
            forall|k: int| 0 <= k < i ==> #[trigger] keys@[k] == queries@[k].len() as i64,
        decreases queries.len() - i,
    {
        keys.push(queries[i].len() as i64);
        i = i + 1;
    }
    proof {
        assert(keys@ =~= lengths(queries@));
    }
    sort_indices_by_key(&keys)
}


/// `2^m`.
pub fn pow2(m: usize) -> (r: usize)
    requires
        m < 32,
    ensures
        r == pow_two(m as nat),
{
    let mut r: usize = 1;
    let mut i: usize = 0;
    while i < m
        invariant
            i <= m < 32,
            r == pow_two(i as nat),
            r <= 0x8000_0000,
            i < m ==> r <= 0x4000_0000,
        decreases m - i,
    {
        proof {
            assert(pow_two((i + 1) as nat) == 2 * pow_two(i as nat));
            if i + 1 < m {
                lemma_pow_two_le((i + 1) as nat, 30);
            }
        }
        r = r * 2;
        i = i + 1;
    }
    r
}

pub(crate) proof fn lemma_pow_two_le(i: nat, j: nat)
    requires
        i <= j <= 30,
    ensures
        pow_two(i) <= pow_two(j),
        pow_two(9) == 512,
        pow_two(30) == 0x4000_0000,
{
    crate::candies::segtree::lemma_pow_two_mono(i, j);
    reveal_with_fuel(pow_two, 11);
    assert(pow_two(9) == 512);
    assert(pow_two(10) == 1024);
    assert(pow_two(20) == 1024 * 1024);
    assert(pow_two(30) == 0x4000_0000);
}

pub(crate) fn copy_vec(v: &Vec<usize>) -> (r: Vec<usize>)
    ensures
        r@ == v@,
{
    let mut r: Vec<usize> = Vec::new();
    let mut k: usize = 0;
    while k < v.len()
        invariant
            k <= v.len(),
            r@ == v@.subrange(0, k as int),
        decreases v.len() - k,
    {
        r.push(v[k]);
        k = k + 1;
        proof {
            assert(r@ =~= v@.subrange(0, k as int));
        }
    }
    proof {
        assert(v@.subrange(0, k as int) =~= v@);
    }
    r
}

/// The least number of known mushrooms with which the queries can be run in order
/// of length: the largest `2 * len + 1 - ord` over the query at position `ord` of
/// that order, of length `len`.
pub fn min_known_of(queries: &Vec<Vec<usize>>) -> (mk: usize)
    requires
        1 <= queries.len() <= 0x1_0000,
        forall|i: int| 0 <= i < queries.len() ==> (#[trigger] queries@[i]).len() <= 0x1_0000,
    ensures
        1 <= mk,
        forall|r: Seq<usize>, ord: int|
            sorted_by_length(queries@, r) && 0 <= ord < r.len() ==> 2 * queries@[#[trigger] r[ord] as int].len() + 1 - ord <= mk,
        forall|r: Seq<usize>|
            #[trigger] sorted_by_length(queries@, r) ==> exists|ord: int|
                0 <= ord < r.len() && mk == 2 * queries@[#[trigger] r[ord] as int].len() + 1 - ord,
{
    let order = sorted(queries);
    let mut best: i64 = queries[order[0]].len() as i64 * 2 + 1;
    let ghost mut arg: int = 0;
    let mut ord: usize = 1;
    while ord < order.len()
        invariant
            sorted_by_length(queries@, order@),
            forall|i: int| 0 <= i < queries.len() ==> (#[trigger] queries@[i]).len() <= 0x1_0000,
            queries.len() <= 0x1_0000,
            1 <= ord <= order.len(),
            1 <= best <= 0x2_0001,
            forall|o: int| 0 <= o < ord ==> 2 * queries@[#[trigger] order@[o] as int].len() + 1 - o <= best,
            0 <= arg < ord,
            best == 2 * queries@[order@[arg] as int].len() + 1 - arg,
        decreases order.len() - ord,
    {
        let v = queries[order[ord]].len() as i64 * 2 + 1 - ord as i64;
        if v > best {
            best = v;
            proof {
                arg = ord as int;
            }
        }
        ord = ord + 1;
    }
    proof {
        assert forall|r: Seq<usize>, o: int| sorted_by_length(queries@, r) && 0 <= o < r.len() implies 2 * queries@[#[trigger] r[o] as int].len() + 1 - o <= best by {
            lemma_ordered_unique(lengths(queries@), r, order@);
        }
        assert forall|r: Seq<usize>| #[trigger] sorted_by_length(queries@, r) implies exists|o: int|
            0 <= o < r.len() && best == 2 * queries@[#[trigger] r[o] as int].len() + 1 - o by {
            lemma_ordered_unique(lengths(queries@), r, order@);
            assert(r[arg] == order@[arg]);
        }
    }
    best as usize
}

/// The problem of level `m` built from that of level `m - 1`.
fn next_level(prev: &BitsProblem, m: usize) -> (cur: BitsProblem)
    requires
        1 <= m <= 9,
        queries_within(*prev),
        1 <= prev.n <= m * pow_two((m - 1) as nat),
        prev.queries.len() == pow_two((m - 1) as nat),
    ensures
        level_ok(*prev, cur, m as nat),
        queries_within(cur),
        min_known_ok(cur),
        min_known_tight(cur),
        1 <= cur.n <= (m + 1) * pow_two(m as nat),
{
    proof {
        lemma_pow_two_le((m - 1) as nat, 8);
        lemma_pow_two_le(m as nat, 9);
        assert(pow_two(m as nat) == 2 * pow_two((m - 1) as nat));
        reveal_with_fuel(pow_two, 10);
        assert(m * pow_two((m - 1) as nat) <= 9 * 256) by (nonlinear_arith)
            requires m <= 9, pow_two((m - 1) as nat) <= 256;
    }
    let np = prev.n;
    let h = pow2(m - 1);
    let n = np * 2 + h - 1;
    proof {
        assert(2 * (m * h) + h <= (m + 1) * (2 * h)) by (nonlinear_arith);
    }
    let ghost pq = prev.queries@;
    let mut queries: Vec<Vec<usize>> = Vec::new();
    let mut q_idx: usize = 0;
    while q_idx < h - 1
        invariant
            queries_within(*prev),
            pq == prev.queries@,
            prev.queries.len() == h,
            1 <= h <= 256,
            np == prev.n,
            1 <= np <= 2304,
            n == 2 * np + h - 1,
            q_idx <= h - 1,
            queries.len() == 2 * q_idx,
            forall|k: int|
                0 <= k < queries.len() ==> {
                    &&& increasing(#[trigger] queries@[k]@)
                    &&& forall|j: int| 0 <= j < queries@[k]@.len() ==> queries@[k]@[j] < n
                },
            forall|k: int, x: int|
                0 <= k < queries.len() ==> (#[trigger] occurs(queries@[k]@, x) <==> if k % 2 == 0 {
                    (0 <= x < np && occurs(pq[k / 2]@, x)) || (np <= x < 2 * np && occurs(pq[k / 2]@, x - np))
                } else {
                    (0 <= x < np && occurs(pq[k / 2]@, x)) || (np <= x < 2 * np && !occurs(pq[k / 2]@, x - np)) || x == 2 * np + k / 2
                }),
        decreases h - 1 - q_idx,
    {
        let q = &prev.queries[q_idx];
        proof {
            assert(increasing(q@) && forall|j: int| 0 <= j < q@.len() ==> q@[j] < np) by {
                assert(queries_within(*prev));
                assert(increasing(pq[q_idx as int]@));
            }
            assert(q@.len() <= np) by {
                lemma_increasing_len(q@, np as int);
            }
        }
        // First query: query the bits in both sets (sum).
        let mut sum = copy_vec(q);
        push_shifted(&mut sum, q, np);
        let ghost shifted = Seq::new(q@.len(), |k: int| (q@[k] + np) as usize);
        proof {
            assert(sum@ == q@ + shifted);
            assert forall|x: int| #[trigger] occurs(sum@, x) <==> (0 <= x < np && occurs(q@, x)) || (np <= x < 2 * np && occurs(q@, x - np)) by {
                lemma_occurs_concat(q@, shifted, x);
                if occurs(shifted, x) {
                    let k = choose|k: int| 0 <= k < shifted.len() && #[trigger] shifted[k] as int == x;
                    assert(q@[k] as int == x - np);
                }
                if np <= x < 2 * np && occurs(q@, x - np) {
                    let k = choose|k: int| 0 <= k < q@.len() && #[trigger] q@[k] as int == x - np;
                    assert(shifted[k] as int == x);
                }
                if occurs(q@, x) {
                    let k = choose|k: int| 0 <= k < q@.len() && #[trigger] q@[k] as int == x;
                }
            }
            assert(increasing(shifted)) by {
                assert forall|i: int, j: int| 0 <= i < j < shifted.len() implies #[trigger] shifted[i] < #[trigger] shifted[j] by {
                    assert(q@[i] < q@[j]);
                }
            }
            lemma_increasing_concat(q@, shifted);
        }
        let ghost k0 = queries.len() as int;
        queries.push(sum);
        // Second query: query the difference between the two queries, plus an extra bit.
        let mut diff = copy_vec(q);
        push_complement(&mut diff, q, np, np);
        let ghost before_extra = diff@;
        diff.push(np * 2 + q_idx);
        proof {
            let g = before_extra.subrange(q@.len() as int, before_extra.len() as int);
            assert(before_extra == q@ + g) by {
                assert(before_extra =~= before_extra.subrange(0, q@.len() as int) + g);
            }
            let e = seq![(np * 2 + q_idx) as usize];
            assert(diff@ == q@ + g + e);
            assert forall|x: int| #[trigger] occurs(diff@, x) <==> (0 <= x < np && occurs(q@, x)) || (np <= x < 2 * np && !occurs(q@, x - np)) || x == 2 * np + q_idx by {
                lemma_occurs_concat(q@ + g, e, x);
                lemma_occurs_concat(q@, g, x);
                if occurs(e, x) {
                    let k = choose|k: int| 0 <= k < e.len() && #[trigger] e[k] as int == x;
                }
                if x == 2 * np + q_idx {
                    assert(e[0] as int == x);
                }
                if occurs(q@, x) {
                    let k = choose|k: int| 0 <= k < q@.len() && #[trigger] q@[k] as int == x;
                }
            }
            lemma_increasing_concat(q@, g);
            assert forall|i: int, j: int| 0 <= i < (q@ + g).len() && 0 <= j < e.len() implies #[trigger] (q@ + g)[i] < #[trigger] e[j] by {
                if i < q@.len() {
                    assert((q@ + g)[i] == q@[i]);
                } else {
                    assert((q@ + g)[i] == g[i - q@.len()]);
                }
            }
            lemma_increasing_concat(q@ + g, e);
            assert forall|j: int| 0 <= j < diff@.len() implies diff@[j] < n by {
                if j < q@.len() {
                } else if j < q@.len() + g.len() {
                    assert(diff@[j] == g[j - q@.len()]);
                }
            }
        }
        queries.push(diff);
        proof {
            assert(k0 / 2 == q_idx && k0 % 2 == 0);
            assert((k0 + 1) / 2 == q_idx && (k0 + 1) % 2 == 1);
            assert(queries@[k0]@ == sum@);
            assert(queries@[k0 + 1]@ == diff@);
        }
        q_idx = q_idx + 1;
    }
    let right = range_vec(np, 2 * np);
    queries.push(right);
    let all = range_vec(0, n);
    queries.push(all);
    proof {
        assert(queries@[2 * h - 2]@ == right@);
        assert(queries@[2 * h - 1]@ == all@);
        assert forall|k: int| 0 <= k < queries.len() implies (#[trigger] queries@[k])@.len() <= 0x1_0000 by {
            lemma_increasing_len(queries@[k]@, n as int);
        }
    }
    let min_known = min_known_of(&queries);
    let cur = BitsProblem { n, min_known, queries };
    proof {
        assert forall|r: Seq<usize>| #[trigger] by_length(cur, r) implies exists|ord: int|
            0 <= ord < r.len() && cur.min_known == 2 * cur.queries@[#[trigger] r[ord] as int].len() + 1 - ord by {
            assert(sorted_by_length(cur.queries@, r));
        }
    }
    cur
}

/// A strictly increasing list of numbers below `bound` has at most `bound` items.
pub(crate) proof fn lemma_increasing_len(q: Seq<usize>, bound: int)
    requires
        increasing(q),
        0 <= bound,
        forall|j: int| 0 <= j < q.len() ==> q[j] < bound,
    ensures
        q.len() <= bound,
    decreases q.len(),
{
    if q.len() > 0 {
        assert(q.last() < bound);
        let q2 = q.drop_last();
        assert forall|j: int| 0 <= j < q2.len() implies q2[j] < q.last() by {
            assert(q[j] < q[q.len() - 1]);
        }
        lemma_increasing_len(q2, q.last() as int);
    }
}

/// The bit problems for levels `0..10`: level `m` determines `bp[m].n` bits with
/// `2^m` queries.
pub fn init_bits_problem() -> (bp: Vec<BitsProblem>)
    ensures
        bp.len() == 10,
        levels_ok(bp@, 9),
        forall|m: int| 0 <= m < 10 ==> (#[trigger] bp@[m]).queries.len() == pow_two(m as nat) && 1 <= bp@[m].n <= (m + 1) * pow_two(m as nat),
{
    let mut bp: Vec<BitsProblem> = Vec::new();
    let mut first: Vec<usize> = Vec::new();
    first.push(0);
    let mut queries: Vec<Vec<usize>> = Vec::new();
    queries.push(first);
    proof {
        assert(queries@[0]@.len() == 1);
    }
    // The number of known mushrooms that is needed to run the queries.
    let min_known = min_known_of(&queries);
    let base = BitsProblem { n: 1, min_known, queries };
    proof {
        assert forall|x: int| #[trigger] occurs(base.queries@[0]@, x) <==> x == 0 by {
            if x == 0 {
                assert(base.queries@[0]@[0] as int == x);
            }
        }
        assert(pow_two(0) == 1);
        let r = seq![0usize];
        assert(sorted_by_length(base.queries@, r)) by {
            assert forall|x: usize| x < base.queries.len() implies #[trigger] r.contains(x) by {
                assert(r[0] == x);
            }
        }
        let ord = choose|ord: int| 0 <= ord < r.len() && min_known == 2 * base.queries@[#[trigger] r[ord] as int].len() + 1 - ord;
        assert(ord == 0);
        assert(base.min_known == 3);
        assert forall|r2: Seq<usize>| #[trigger] by_length(base, r2) implies exists|o: int|
            0 <= o < r2.len() && base.min_known == 2 * base.queries@[#[trigger] r2[o] as int].len() + 1 - o by {
            assert(sorted_by_length(base.queries@, r2));
        }
    }
    bp.push(base);
    assert(bp@[0] == base);
    assert(bp@[0].queries.len() == pow_two(0) && 1 <= bp@[0].n <= pow_two(0));
    let mut m: usize = 1;
    while m < 10
        invariant
            1 <= m <= 10,
            bp.len() == m,
            levels_ok(bp@, m - 1),
            forall|k: int| 0 <= k < m ==> (#[trigger] bp@[k]).queries.len() == pow_two(k as nat) && 1 <= bp@[k].n <= (k + 1) * pow_two(k as nat),
        decreases 10 - m,
    {
        let cur = next_level(&bp[m - 1], m);
        let ghost before = bp@;
        bp.push(cur);
        proof {
            assert forall|k: int| 0 <= k < m implies bp@[k] == before[k] by {}
        }
        m = m + 1;
    }
    bp
}


// ---------------------------------------------------------------------------
// Decoding.

/// Number of `x` in `lo..hi` with `f(x)`.
pub open spec fn count_where(f: spec_fn(int) -> bool, lo: int, hi: int) -> int
    decreases hi - lo,
{
    if lo >= hi {
        0
    } else {
        count_where(f, lo, hi - 1) + if f(hi - 1) { 1int } else { 0 }
    }
}

/// The answer to query `q` for the bits `bits`: how many set bits it covers.
pub open spec fn tally(bits: Seq<bool>, q: Seq<usize>) -> int {
    count_where(|x: int| occurs(q, x) && bits[x], 0, bits.len() as int)
}

/// The answers to all queries of `p` for the bits `bits`.
pub open spec fn answers(p: BitsProblem, bits: Seq<bool>) -> Seq<int> {
    Seq::new(p.queries.len() as nat, |k: int| tally(bits, p.queries@[k]@))
}

pub(crate) proof fn lemma_count_split(f: spec_fn(int) -> bool, a: int, b: int, c: int)
    requires
        a <= b <= c,
    ensures
        count_where(f, a, c) == count_where(f, a, b) + count_where(f, b, c),
    decreases c - b,
{
    if b < c {
        lemma_count_split(f, a, b, c - 1);
    }
}

pub(crate) proof fn lemma_count_ext(f: spec_fn(int) -> bool, g: spec_fn(int) -> bool, lo: int, hi: int)
    requires
        forall|x: int| lo <= x < hi ==> #[trigger] f(x) == g(x),
    ensures
        count_where(f, lo, hi) == count_where(g, lo, hi),
    decreases hi - lo,
{
    if lo < hi {
        lemma_count_ext(f, g, lo, hi - 1);
    }
}

pub(crate) proof fn lemma_count_shift(f: spec_fn(int) -> bool, g: spec_fn(int) -> bool, lo: int, hi: int, d: int)
    requires
        forall|x: int| lo <= x < hi ==> #[trigger] g(x) == f(x + d),
    ensures
        count_where(g, lo, hi) == count_where(f, lo + d, hi + d),
    decreases hi - lo,
{
    if lo < hi {
        lemma_count_shift(f, g, lo, hi - 1, d);
    }
}

pub(crate) proof fn lemma_count_complement(a: spec_fn(int) -> bool, b: spec_fn(int) -> bool, lo: int, hi: int)
    ensures
        count_where(|x: int| a(x) && b(x), lo, hi) + count_where(|x: int| !a(x) && b(x), lo, hi)
            == count_where(b, lo, hi),
    decreases hi - lo,
{
    if lo < hi {
        lemma_count_complement(a, b, lo, hi - 1);
    }
}

pub(crate) proof fn lemma_count_none(f: spec_fn(int) -> bool, lo: int, hi: int)
    requires
        forall|x: int| lo <= x < hi ==> !#[trigger] f(x),
    ensures
        count_where(f, lo, hi) == 0,
    decreases hi - lo,
{
    if lo < hi {
        lemma_count_none(f, lo, hi - 1);
    }
}

pub(crate) proof fn lemma_count_one(f: spec_fn(int) -> bool, lo: int, hi: int, y: int)
    requires
        lo <= y < hi,
        forall|x: int| lo <= x < hi && x != y ==> !#[trigger] f(x),
    ensures
        count_where(f, lo, hi) == if f(y) { 1int } else { 0 },
    decreases hi - lo,
{
    if hi - 1 > y {
        lemma_count_one(f, lo, hi - 1, y);
    } else {
        lemma_count_none(f, lo, hi - 1);
    }
}

/// Number of set bits among `bits[lo..hi]`.
pub open spec fn ones(bits: Seq<bool>, lo: int, hi: int) -> int {
    count_where(|x: int| bits[x], lo, hi)
}

/// Counting one bit more.
pub proof fn lemma_ones_step(bits: Seq<bool>, lo: int, hi: int)
    requires
        lo <= hi,
    ensures
        ones(bits, lo, lo) == 0,
        ones(bits, lo, hi + 1) == ones(bits, lo, hi) + if bits[hi] { 1int } else { 0 },
{
}

/// Counting `lo..hi` in two parts.
pub proof fn lemma_ones_split(bits: Seq<bool>, lo: int, mid: int, hi: int)
    requires
        lo <= mid <= hi,
    ensures
        ones(bits, lo, hi) == ones(bits, lo, mid) + ones(bits, mid, hi),
{
    lemma_count_split(|x: int| bits[x], lo, mid, hi);
}

/// The answers of level `m` in terms of the left, right and extra bits.
proof fn lemma_level_answers(prev: BitsProblem, cur: BitsProblem, m: nat, bits: Seq<bool>)
    requires
        m >= 1,
        level_ok(prev, cur, m),
        queries_within(prev),
        bits.len() == cur.n,
    ensures
        ({
            let np = prev.n as int;
            let h = pow_two((m - 1) as nat) as int;
            let left = bits.subrange(0, np);
            let right = bits.subrange(np, 2 * np);
            let a = answers(cur, bits);
            &&& forall|i: int|
                0 <= i < h - 1 ==> a[2 * i] == tally(left, #[trigger] prev.queries@[i]@) + tally(right, prev.queries@[i]@)
            &&& forall|i: int|
                0 <= i < h - 1 ==> a[2 * i + 1] == tally(left, #[trigger] prev.queries@[i]@) + (ones(right, 0, np) - tally(right, prev.queries@[i]@)) + if bits[2 * np + i] { 1int } else { 0 }
            &&& a[2 * h - 2] == ones(right, 0, np)
            &&& a[2 * h - 1] == ones(left, 0, np) + ones(right, 0, np) + ones(bits, 2 * np, cur.n as int)
        }),
{
    let np = prev.n as int;
    let h = pow_two((m - 1) as nat) as int;
    let n = cur.n as int;
    let left = bits.subrange(0, np);
    let right = bits.subrange(np, 2 * np);
    let a = answers(cur, bits);
    assert(h >= 1) by {
        crate::candies::segtree::lemma_pow_two_pos((m - 1) as nat);
    }
    assert forall|i: int| 0 <= i < h - 1 implies a[2 * i] == tally(left, #[trigger] prev.queries@[i]@) + tally(right, prev.queries@[i]@) by {
        let k = 2 * i;
        let q = prev.queries@[i]@;
        let big = cur.queries@[k]@;
        assert(k / 2 == i && k % 2 == 0);
        let f = |x: int| occurs(big, x) && bits[x];
        lemma_count_split(f, 0, np, n);
        lemma_count_split(f, np, 2 * np, n);
        lemma_count_ext(f, |x: int| occurs(q, x) && left[x], 0, np);
        lemma_count_shift(f, |x: int| occurs(q, x) && right[x], 0, np, np);
        lemma_count_none(f, 2 * np, n);
    }
    assert forall|i: int| 0 <= i < h - 1 implies a[2 * i + 1] == tally(left, #[trigger] prev.queries@[i]@) + (ones(right, 0, np) - tally(right, prev.queries@[i]@)) + if bits[2 * np + i] { 1int } else { 0 } by {
        let k = 2 * i + 1;
        let q = prev.queries@[i]@;
        let big = cur.queries@[k]@;
        assert(k / 2 == i && k % 2 == 1);
        let f = |x: int| occurs(big, x) && bits[x];
        lemma_count_split(f, 0, np, n);
        lemma_count_split(f, np, 2 * np, n);
        lemma_count_ext(f, |x: int| occurs(q, x) && left[x], 0, np);
        lemma_count_shift(f, |x: int| !occurs(q, x) && right[x], 0, np, np);
        lemma_count_one(f, 2 * np, n, 2 * np + i);
        lemma_count_complement(|x: int| occurs(q, x), |x: int| right[x], 0, np);
        lemma_count_ext(|x: int| (|x: int| occurs(q, x))(x) && (|x: int| right[x])(x), |x: int| occurs(q, x) && right[x], 0, np);
        lemma_count_ext(|x: int| !(|x: int| occurs(q, x))(x) && (|x: int| right[x])(x), |x: int| !occurs(q, x) && right[x], 0, np);
    }
    {
        let f = |x: int| occurs(cur.queries@[2 * h - 2]@, x) && bits[x];
        lemma_count_split(f, 0, np, n);
        lemma_count_split(f, np, 2 * np, n);
        lemma_count_none(f, 0, np);
        lemma_count_none(f, 2 * np, n);
        lemma_count_shift(f, |x: int| right[x], 0, np, np);
    }
    {
        let f = |x: int| occurs(cur.queries@[2 * h - 1]@, x) && bits[x];
        lemma_count_split(f, 0, np, n);
        lemma_count_split(f, np, 2 * np, n);
        lemma_count_ext(f, |x: int| left[x], 0, np);
        lemma_count_shift(f, |x: int| right[x], 0, np, np);
        lemma_count_ext(f, |x: int| bits[x], 2 * np, n);
    }
}


/// The results `r` are the answers of problem `p` for the bits `b`.
pub open spec fn answered(p: BitsProblem, r: Seq<i64>, b: Seq<bool>) -> bool {
    &&& b.len() == p.n
    &&& r.len() == p.queries.len()
    &&& forall|k: int| 0 <= k < r.len() ==> #[trigger] r[k] as int == answers(p, b)[k]
}

/// A bound on the size of the results that decoding at level `m` can take without
/// overflow.
spec fn limit(m: int) -> int
    decreases 9 - m,
{
    if m >= 9 {
        0x100_0000_0000
    } else {
        4 * limit(m + 1)
    }
}

proof fn lemma_limit(m: int)
    requires
        0 <= m <= 9,
    ensures
        0x100_0000_0000 <= limit(m) <= 0x400_0000_0000_0000,
    decreases 9 - m,
{
    reveal_with_fuel(limit, 10);
    if m < 9 {
        lemma_limit(m + 1);
        assert(limit(m) == 4 * limit(m + 1));
        lemma_limit_le(m + 1);
    }
}

proof fn lemma_limit_le(m: int)
    requires
        1 <= m <= 9,
    ensures
        limit(m) <= 0x100_0000_0000_0000,
    decreases m,
{
    reveal_with_fuel(limit, 10);
    if m > 1 {
        lemma_limit_le(m - 1);
        assert(limit(m - 1) == 4 * limit(m));
    }
}

/// Splits the answers of a sum query and of a difference query into the count in the
/// left copy, the count in the right copy and the extra bit; `sum_r` is the answer of
/// the query of the whole right copy.
fn split_pair(q_sum: i64, q_diff: i64, sum_r: i64) -> (r: (i64, i64, bool))
    requires
        -0x100_0000_0000_0000 <= q_sum <= 0x100_0000_0000_0000,
        -0x100_0000_0000_0000 <= q_diff <= 0x100_0000_0000_0000,
        -0x100_0000_0000_0000 <= sum_r <= 0x100_0000_0000_0000,
    ensures
        r.2 == ((q_sum + q_diff - sum_r) % 2 == 1),
        2 * r.0 == q_sum + q_diff - sum_r - (if r.2 { 1int } else { 0 }),
        2 * r.1 == q_sum - q_diff + sum_r + (if r.2 { 1int } else { 0 }),
{
    let mut d = q_diff - sum_r;
    let bit = match (q_sum + d).checked_rem_euclid(2) {
        Some(x) => x != 0,
        None => false,
    };
    if bit {
        d = d - 1;
    }
    let l = match (q_sum + d).checked_div_euclid(2) {
        Some(v) => v,
        None => 0,
    };
    let r = match (q_sum - d).checked_div_euclid(2) {
        Some(v) => v,
        None => 0,
    };
    (l, r, bit)
}

/// `l[k]`, `r[k]` and `e[k]` are what `split_pair` makes of the `k`-th pair of results.
pub open spec fn pair_split(results: Seq<i64>, sum_r: int, l: Seq<i64>, r: Seq<i64>, e: Seq<bool>, k: int) -> bool {
    let s = results[2 * k] + results[2 * k + 1] - sum_r;
    let x: int = if e[k] { 1 } else { 0 };
    &&& e[k] == (s % 2 == 1)
    &&& 2 * l[k] == s - x
    &&& 2 * r[k] == results[2 * k] - results[2 * k + 1] + sum_r + x
}

proof fn lemma_ones_push(s: Seq<bool>, x: bool)
    ensures
        ones(s.push(x), 0, s.len() + 1int) == ones(s, 0, s.len() as int) + if x { 1int } else { 0 },
{
    let t = s.push(x);
    lemma_count_ext(|y: int| t[y], |y: int| s[y], 0, s.len() as int);
}

/// The results of level `m`, split pair by pair, are the answers of level `m - 1` for
/// the left and the right copy, and the extra bits.
proof fn lemma_decode_level(
    prev: BitsProblem,
    cur: BitsProblem,
    m: nat,
    results: Seq<i64>,
    res_l: Seq<i64>,
    res_r: Seq<i64>,
    ret_end: Seq<bool>,
    b: Seq<bool>,
)
    requires
        m >= 1,
        level_ok(prev, cur, m),
        queries_within(prev),
        forall|x: int| #[trigger] occurs(prev.queries@[prev.queries.len() - 1]@, x) <==> 0 <= x < prev.n,
        answered(cur, results, b),
        res_l.len() == prev.queries.len(),
        res_r.len() == prev.queries.len(),
        ret_end.len() == prev.queries.len() - 1,
        forall|k: int| 0 <= k < ret_end.len() ==> #[trigger] pair_split(results, results[2 * prev.queries.len() - 2] as int, res_l, res_r, ret_end, k),
        res_l[res_l.len() - 1] == results[2 * prev.queries.len() - 1] - results[2 * prev.queries.len() - 2] - ones(ret_end, 0, ret_end.len() as int),
        res_r[res_r.len() - 1] == results[2 * prev.queries.len() - 2],
    ensures
        answered(prev, res_l, b.subrange(0, prev.n as int)),
        answered(prev, res_r, b.subrange(prev.n as int, 2 * prev.n)),
        ret_end == b.subrange(2 * prev.n, cur.n as int),
{
    let np = prev.n as int;
    let h = prev.queries.len() as int;
    let n = cur.n as int;
    let left = b.subrange(0, np);
    let right = b.subrange(np, 2 * np);
    let sum_r = results[2 * h - 2] as int;
    lemma_level_answers(prev, cur, m, b);
    let a = answers(cur, b);
    assert(results[2 * h - 2] as int == a[2 * h - 2]);
    assert(results[2 * h - 1] as int == a[2 * h - 1]);
    assert forall|k: int| 0 <= k < h - 1 implies {
        &&& #[trigger] res_l[k] as int == answers(prev, left)[k]
        &&& res_r[k] as int == answers(prev, right)[k]
        &&& ret_end[k] == b[2 * np + k]
    } by {
        let q = prev.queries@[k]@;
        let lq = tally(left, q);
        let rq = tally(right, q);
        let e: int = if b[2 * np + k] { 1 } else { 0 };
        assert(pair_split(results, sum_r, res_l, res_r, ret_end, k));
        assert(results[2 * k] as int == a[2 * k]);
        assert(results[2 * k + 1] as int == a[2 * k + 1]);
        assert(results[2 * k] + results[2 * k + 1] - sum_r == 2 * lq + e);
        assert((2 * lq + e) % 2 == e);
    }
    // The extra bits.
    assert(ret_end =~= b.subrange(2 * np, n)) by {
        assert forall|k: int| 0 <= k < ret_end.len() implies ret_end[k] == b.subrange(2 * np, n)[k] by {
            assert(res_l[k] as int == answers(prev, left)[k]);
            assert(ret_end[k] == b[2 * np + k]);
        }
    }
    lemma_count_shift(|x: int| b[x], |x: int| ret_end[x], 0, h - 1, 2 * np);
    // The last query of the previous level counts everything.
    let all = prev.queries@[h - 1]@;
    lemma_count_ext(|x: int| occurs(all, x) && left[x], |x: int| left[x], 0, np);
    lemma_count_ext(|x: int| occurs(all, x) && right[x], |x: int| right[x], 0, np);
    assert forall|k: int| 0 <= k < h implies #[trigger] res_l[k] as int == answers(prev, left)[k] by {
        if k < h - 1 {
            assert(res_l[k] as int == answers(prev, left)[k]);
        }
    }
    assert forall|k: int| 0 <= k < h implies #[trigger] res_r[k] as int == answers(prev, right)[k] by {
        if k < h - 1 {
            assert(res_l[k] as int == answers(prev, left)[k]);
            assert(res_r[k] as int == answers(prev, right)[k]);
        }
    }
}

/// Decodes the results of the queries of level `m` into the bits they count.
#[verifier::rlimit(60)]
fn decode(bp: &Vec<BitsProblem>, m: usize, results: Vec<i64>) -> (bits: Vec<bool>)
    requires
        m <= 9,
        levels_ok(bp@, m as int),
        results.len() == bp@[m as int].queries.len(),
        forall|k: int| 0 <= k < results.len() ==> -limit(m as int) <= #[trigger] results@[k] <= limit(m as int),
    ensures
        bits.len() == bp@[m as int].n,
        forall|b: Seq<bool>| #[trigger] answered(bp@[m as int], results@, b) ==> bits@ == b,
    decreases m,
{
    let ghost cur = bp@[m as int];
    proof {
        lemma_limit(m as int);
    }
    if m == 0 {
        let mut r: Vec<bool> = Vec::new();
        r.push(results[0] == 1);
        proof {
            assert forall|b: Seq<bool>| #[trigger] answered(cur, results@, b) implies r@ == b by {
                let f = |x: int| occurs(cur.queries@[0]@, x) && b[x];
                lemma_count_one(f, 0, 1, 0);
                assert(results@[0] as int == answers(cur, b)[0]);
                assert(r@ =~= b);
            }
        }
        return r;
    }
    let ghost prev = bp@[m - 1];
    proof {
        assert(level_ok(prev, cur, m as nat));
        assert(queries_within(prev));
        lemma_limit(m - 1);
        reveal_with_fuel(limit, 2);
        assert(limit(m - 1) == 4 * limit(m as int));
        crate::candies::segtree::lemma_pow_two_pos((m - 1) as nat);
        lemma_pow_two_le((m - 1) as nat, 8);
        reveal_with_fuel(pow_two, 10);
    }
    let h = pow2(m - 1);
    let np = bp[m - 1].n;
    let sum = results[2 * h - 1];
    let sum_r = results[2 * h - 2];
    let mut res_l: Vec<i64> = Vec::new();
    let mut res_r: Vec<i64> = Vec::new();
    let mut ret_end: Vec<bool> = Vec::new();
    let mut ones_end: i64 = 0;
    let ghost lim = limit(m as int);
    let mut i: usize = 0;
    while i < h - 1
        invariant
            1 <= h <= 256,
            results.len() == 2 * h,
            0x100_0000_0000 <= lim <= 0x100_0000_0000_0000,
            forall|k: int| 0 <= k < results.len() ==> -lim <= #[trigger] results@[k] <= lim,
            sum_r == results@[2 * h - 2],
            i <= h - 1,
            res_l.len() == i,
            res_r.len() == i,
            ret_end.len() == i,
            ones_end == ones(ret_end@, 0, i as int),
            0 <= ones_end <= i,
            forall|k: int| 0 <= k < i ==> -2 * lim <= #[trigger] res_l@[k] <= 2 * lim,
            forall|k: int| 0 <= k < i ==> -2 * lim <= #[trigger] res_r@[k] <= 2 * lim,
            forall|k: int| 0 <= k < i ==> #[trigger] pair_split(results@, sum_r as int, res_l@, res_r@, ret_end@, k),
        decreases h - 1 - i,
    {
        let (l_val, r_val, bit) = split_pair(results[2 * i], results[2 * i + 1], sum_r);
        let ghost old_end = ret_end@;
        let ghost old_l = res_l@;
        let ghost old_r = res_r@;
        ret_end.push(bit);
        res_l.push(l_val);
        res_r.push(r_val);
        proof {
            lemma_ones_push(old_end, bit);
            assert forall|k: int| 0 <= k < i + 1 implies #[trigger] pair_split(results@, sum_r as int, res_l@, res_r@, ret_end@, k) by {
                if k < i {
                    assert(pair_split(results@, sum_r as int, old_l, old_r, old_end, k));
                    assert(res_l@[k] == old_l[k] && res_r@[k] == old_r[k] && ret_end@[k] == old_end[k]);
                }
            }
        }
        if bit {
            ones_end = ones_end + 1;
        }
        i = i + 1;
    }
    let ghost l0 = res_l@;
    let ghost r0 = res_r@;
    res_l.push(sum - sum_r - ones_end);
    res_r.push(sum_r);
    proof {
        let all = prev.queries@[h - 1]@;
        if m >= 2 {
            assert(level_ok(bp@[m - 2], prev, (m - 1) as nat));
            assert(pow_two((m - 1) as nat) == 2 * pow_two((m - 2) as nat));
        } else {
            assert(base_ok(prev));
        }
        assert(forall|x: int| #[trigger] occurs(all, x) <==> 0 <= x < np);
        assert forall|k: int| 0 <= k < i implies #[trigger] pair_split(results@, results@[2 * h - 2] as int, res_l@, res_r@, ret_end@, k) by {
            assert(pair_split(results@, sum_r as int, l0, r0, ret_end@, k));
            assert(res_l@[k] == l0[k] && res_r@[k] == r0[k]);
        }
        assert forall|b: Seq<bool>| #[trigger] answered(cur, results@, b) implies answered(prev, res_l@, b.subrange(0, np as int)) && answered(prev, res_r@, b.subrange(np as int, 2 * np)) && ret_end@ == b.subrange(2 * np, cur.n as int) by {
            lemma_decode_level(prev, cur, m as nat, results@, res_l@, res_r@, ret_end@, b);
        }
        lemma_limit(m - 1);
    }
    let mut ret_l = decode(bp, m - 1, res_l);
    let mut ret_r = decode(bp, m - 1, res_r);
    let ghost end = ret_end@;
    ret_l.append(&mut ret_r);
    ret_l.append(&mut ret_end);
    proof {
        assert forall|b: Seq<bool>| #[trigger] answered(cur, results@, b) implies ret_l@ == b by {
            assert(answered(prev, res_l@, b.subrange(0, np as int)));
            assert(answered(prev, res_r@, b.subrange(np as int, 2 * np)));
            assert(end == b.subrange(2 * np, cur.n as int));
            assert(ret_l@ =~= b);
        }
    }
    ret_l
}

/// The counts `r` are the answers of problem `p` for the bits `b`.
pub open spec fn explains(p: BitsProblem, r: Seq<usize>, b: Seq<bool>) -> bool {
    &&& b.len() == p.n
    &&& r.len() == p.queries.len()
    &&& forall|k: int| 0 <= k < r.len() ==> #[trigger] r[k] as int == answers(p, b)[k]
}

/// Recovers the `bp[m].n` bits from the answers to the `2^m` queries of level `m`:
/// whenever the results are the answers of the queries for some bits, those bits are
/// what comes back.
pub fn solve_bits_problem(bp: &Vec<BitsProblem>, m: usize, results: Vec<usize>) -> (bits: Vec<bool>)
    requires
        m <= 9,
        levels_ok(bp@, m as int),
        results.len() == bp@[m as int].queries.len(),
        forall|k: int| 0 <= k < results.len() ==> #[trigger] results@[k] <= i32::MAX,
    ensures
        bits.len() == bp@[m as int].n,
        forall|b: Seq<bool>| #[trigger] explains(bp@[m as int], results@, b) ==> bits@ == b,
{
    let mut counts: Vec<i64> = Vec::new();
    let mut k: usize = 0;
    while k < results.len()
        invariant
            k <= results.len(),
            counts.len() == k,
            forall|j: int| 0 <= j < k ==> #[trigger] counts@[j] == results@[j] as int,
            forall|j: int| 0 <= j < results.len() ==> #[trigger] results@[j] <= i32::MAX,
        decreases results.len() - k,
    {
        counts.push(results[k] as i64);
        k = k + 1;
    }
    proof {
        lemma_limit(m as int);
        assert forall|j: int| 0 <= j < counts.len() implies -limit(m as int) <= #[trigger] counts@[j] <= limit(m as int) by {
            assert(counts@[j] == results@[j] as int);
        }
    }
    let bits = decode(bp, m, counts);
    proof {
        assert forall|b: Seq<bool>| #[trigger] explains(bp@[m as int], results@, b) implies bits@ == b by {
            assert forall|j: int| 0 <= j < counts.len() implies #[trigger] counts@[j] as int == answers(bp@[m as int], b)[j] by {
                assert(counts@[j] == results@[j] as int);
            }
            assert(answered(bp@[m as int], counts@, b));
        }
    }
    bits
}

} // verus!
