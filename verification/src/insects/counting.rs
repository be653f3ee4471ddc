//! Counting insects by type: how many there are of a type, of the rarest type, inside
//! the machine, and in a list; and what the button shows.
use vstd::prelude::*;
use crate::insects::{count_type, max_count_upto, button};

verus! {

/// Number of the first `k` entries of `sel` that hold.
pub open spec fn count_true(sel: Seq<bool>, k: int) -> int
    decreases k,
{
    if k <= 0 {
        0
    } else {
        count_true(sel, k - 1) + if sel[k - 1] { 1int } else { 0 }
    }
}

/// Every one of `n` insects.
pub open spec fn all_in(n: int) -> Seq<bool> {
    Seq::new(n as nat, |j: int| true)
}

/// Number of insects of type `t`.
pub open spec fn freq(types: Seq<i32>, t: i32) -> int {
    count_type(types, all_in(types.len() as int), t, types.len() as int)
}

/// The fewest insects that one of the types of the first `k` insects has.
pub open spec fn rarest_upto(types: Seq<i32>, k: int) -> int
    decreases k,
{
    if k <= 1 {
        freq(types, types[0])
    } else {
        let a = rarest_upto(types, k - 1);
        let b = freq(types, types[k - 1]);
        if b < a {
            b
        } else {
            a
        }
    }
}

/// The number of insects of the rarest type.
pub open spec fn rarest(types: Seq<i32>) -> int {
    rarest_upto(types, types.len() as int)
}

/// Number of the first `k` insects of `list` that are of type `t`.
pub open spec fn list_count(types: Seq<i32>, list: Seq<usize>, t: i32, k: int) -> int
    decreases k,
{
    if k <= 0 {
        0
    } else {
        list_count(types, list, t, k - 1) + if types[list[k - 1] as int] == t { 1int } else { 0 }
    }
}

/// Number of insects of type `t` in `list`.
pub open spec fn in_list(types: Seq<i32>, list: Seq<usize>, t: i32) -> int {
    list_count(types, list, t, list.len() as int)
}

/// Insects inside the machine of type `t`.
pub open spec fn inside_count(types: Seq<i32>, inside: Seq<bool>, t: i32) -> int {
    count_type(types, inside, t, types.len() as int)
}

/// One insect of each type: `reps` lists insects of pairwise different types, and
/// every insect has the type of one of them.
pub open spec fn reps_ok(types: Seq<i32>, reps: Seq<usize>) -> bool {
    &&& forall|q: int| 0 <= q < reps.len() ==> #[trigger] reps[q] < types.len()
    &&& forall|q1: int, q2: int|
        0 <= q1 < q2 < reps.len() ==> types[#[trigger] reps[q1] as int] != types[#[trigger] reps[q2] as int]
    &&& forall|j: int| 0 <= j < types.len() ==> #[trigger] covered(types, reps, j)
}

/// Insect `j` has the type of one of `reps`.
pub open spec fn covered(types: Seq<i32>, reps: Seq<usize>, j: int) -> bool {
    exists|q: int| 0 <= q < reps.len() && types[#[trigger] reps[q] as int] == types[j]
}

/// Sum over the first `q` representatives of the number of insects of their type
/// among the first `k` with `sel`.
pub open spec fn sum_counts(types: Seq<i32>, sel: Seq<bool>, reps: Seq<usize>, q: int, k: int) -> int
    decreases q,
{
    if q <= 0 {
        0
    } else {
        sum_counts(types, sel, reps, q - 1, k) + count_type(types, sel, types[reps[q - 1] as int], k)
    }
}

/// Number of the first `q` representatives of type `x`.
pub open spec fn hits(types: Seq<i32>, reps: Seq<usize>, q: int, x: i32) -> int
    decreases q,
{
    if q <= 0 {
        0
    } else {
        hits(types, reps, q - 1, x) + if types[reps[q - 1] as int] == x { 1int } else { 0 }
    }
}

// ---------------------------------------------------------------------------

/// Changing entry `i` of `sel` changes the counts by what it adds or takes away.
pub proof fn lemma_count_type_update(types: Seq<i32>, sel: Seq<bool>, i: int, b: bool, t: i32, k: int)
    requires
        0 <= i < sel.len(),
        0 <= k <= sel.len(),
    ensures
        count_type(types, sel.update(i, b), t, k) == count_type(types, sel, t, k) + if i < k && types[i] == t {
            (if b { 1int } else { 0 }) - (if sel[i] { 1int } else { 0 })
        } else {
            0
        },
    decreases k,
{
    if k > 0 {
        lemma_count_type_update(types, sel, i, b, t, k - 1);
    }
}

pub proof fn lemma_count_true_update(sel: Seq<bool>, i: int, b: bool, k: int)
    requires
        0 <= i < sel.len(),
        0 <= k <= sel.len(),
    ensures
        count_true(sel.update(i, b), k) == count_true(sel, k) + if i < k {
            (if b { 1int } else { 0 }) - (if sel[i] { 1int } else { 0 })
        } else {
            0
        },
    decreases k,
{
    if k > 0 {
        lemma_count_true_update(sel, i, b, k - 1);
    }
}

pub proof fn lemma_count_true_bounds(sel: Seq<bool>, k: int)
    requires
        0 <= k,
    ensures
        0 <= count_true(sel, k) <= k,
    decreases k,
{
    if k > 0 {
        lemma_count_true_bounds(sel, k - 1);
    }
}

pub proof fn lemma_count_true_all(n: int, k: int)
    requires
        0 <= k <= n,
    ensures
        count_true(all_in(n), k) == k,
    decreases k,
{
    if k > 0 {
        lemma_count_true_all(n, k - 1);
    }
}

/// Nothing selected, nothing counted.
pub proof fn lemma_count_type_none(types: Seq<i32>, sel: Seq<bool>, t: i32, k: int)
    requires
        forall|j: int| 0 <= j < k ==> !#[trigger] sel[j],
    ensures
        count_type(types, sel, t, k) == 0,
    decreases k,
{
    if k > 0 {
        lemma_count_type_none(types, sel, t, k - 1);
    }
}

pub proof fn lemma_count_true_none(sel: Seq<bool>, k: int)
    requires
        forall|j: int| 0 <= j < k ==> !#[trigger] sel[j],
    ensures
        count_true(sel, k) == 0,
    decreases k,
{
    if k > 0 {
        lemma_count_true_none(sel, k - 1);
    }
}

/// Where every inside insect's type has at most `bound` inside, the button shows at
/// most `bound`; it shows at least the count of the type of any inside insect.
pub proof fn lemma_button(types: Seq<i32>, inside: Seq<bool>, bound: int, k: int)
    requires
        inside.len() == types.len(),
        0 <= k <= types.len(),
        0 <= bound,
        forall|j: int| 0 <= j < types.len() && inside[j] ==> #[trigger] inside_count(types, inside, types[j]) <= bound,
    ensures
        max_count_upto(types, inside, k) <= bound,
        forall|j: int| 0 <= j < k && inside[j] ==> #[trigger] inside_count(types, inside, types[j]) <= max_count_upto(types, inside, k),
    decreases k,
{
    if k > 0 {
        lemma_button(types, inside, bound, k - 1);
        if inside[k - 1] {
            assert(inside_count(types, inside, types[k - 1]) <= bound);
        }
    }
}

/// Adding the insects of a list one by one.
pub proof fn lemma_list_count_push(types: Seq<i32>, list: Seq<usize>, x: usize, t: i32)
    ensures
        in_list(types, list.push(x), t) == in_list(types, list, t) + if types[x as int] == t { 1int } else { 0 },
{
    lemma_list_count_prefix(types, list, list.push(x), t, list.len() as int);
}

/// Lists that agree on the first `k` insects count the same among them.
pub proof fn lemma_list_count_prefix(types: Seq<i32>, a: Seq<usize>, b: Seq<usize>, t: i32, k: int)
    requires
        0 <= k <= a.len(),
        k <= b.len(),
        forall|q: int| 0 <= q < k ==> #[trigger] a[q] == b[q],
    ensures
        list_count(types, a, t, k) == list_count(types, b, t, k),
    decreases k,
{
    if k > 0 {
        lemma_list_count_prefix(types, a, b, t, k - 1);
    }
}

/// Representatives of pairwise different types: one of them is of type `x` at most.
proof fn lemma_hits(types: Seq<i32>, reps: Seq<usize>, q: int, x: i32)
    requires
        0 <= q <= reps.len(),
        forall|q1: int, q2: int|
            0 <= q1 < q2 < reps.len() ==> types[#[trigger] reps[q1] as int] != types[#[trigger] reps[q2] as int],
    ensures
        hits(types, reps, q, x) == if exists|p: int| 0 <= p < q && types[#[trigger] reps[p] as int] == x { 1int } else { 0 },
    decreases q,
{
    if q > 0 {
        lemma_hits(types, reps, q - 1, x);
        if types[reps[q - 1] as int] == x {
            assert(types[reps[q - 1] as int] == x);
            if exists|p: int| 0 <= p < q - 1 && types[#[trigger] reps[p] as int] == x {
                let p = choose|p: int| 0 <= p < q - 1 && types[#[trigger] reps[p] as int] == x;
                assert(types[reps[p] as int] != types[reps[q - 1] as int]);
            }
        } else {
            if exists|p: int| 0 <= p < q && types[#[trigger] reps[p] as int] == x {
                let p = choose|p: int| 0 <= p < q && types[#[trigger] reps[p] as int] == x;
                assert(p < q - 1);
            }
        }
    }
}

/// One insect more among the first `k`: the sum grows by the representatives of its
/// type, when it is selected.
proof fn lemma_sum_step(types: Seq<i32>, sel: Seq<bool>, reps: Seq<usize>, q: int, k: int)
    requires
        0 <= q,
        1 <= k,
    ensures
        sum_counts(types, sel, reps, q, k) == sum_counts(types, sel, reps, q, k - 1) + if sel[k - 1] {
            hits(types, reps, q, types[k - 1])
        } else {
            0
        },
    decreases q,
{
    if q > 0 {
        lemma_sum_step(types, sel, reps, q - 1, k);
    }
}

/// Counting the selected insects type by type: with one representative per type, the
/// number of selected insects is the sum, over the representatives, of the selected
/// insects of their type.
pub proof fn lemma_double_count(types: Seq<i32>, sel: Seq<bool>, reps: Seq<usize>, k: int)
    requires
        reps_ok(types, reps),
        0 <= k <= types.len(),
    ensures
        count_true(sel, k) == sum_counts(types, sel, reps, reps.len() as int, k),
    decreases k,
{
    if k == 0 {
        lemma_sum_zero(types, sel, reps, reps.len() as int);
    } else {
        lemma_double_count(types, sel, reps, k - 1);
        lemma_sum_step(types, sel, reps, reps.len() as int, k);
        lemma_hits(types, reps, reps.len() as int, types[k - 1]);
        assert(covered(types, reps, k - 1));
    }
}

proof fn lemma_sum_zero(types: Seq<i32>, sel: Seq<bool>, reps: Seq<usize>, q: int)
    requires
        0 <= q,
    ensures
        sum_counts(types, sel, reps, q, 0) == 0,
    decreases q,
{
    if q > 0 {
        lemma_sum_zero(types, sel, reps, q - 1);
    }
}

/// Where each representative's type has at most `m` selected insects, the sum is at
/// most `q * m`, and reaches it exactly when each has `m`.
pub proof fn lemma_sum_at_most(types: Seq<i32>, sel: Seq<bool>, reps: Seq<usize>, q: int, m: int)
    requires
        0 <= q <= reps.len(),
        forall|p: int| 0 <= p < q ==> count_type(types, sel, types[#[trigger] reps[p] as int], types.len() as int) <= m,
    ensures
        sum_counts(types, sel, reps, q, types.len() as int) <= q * m,
        sum_counts(types, sel, reps, q, types.len() as int) == q * m <==> forall|p: int|
            0 <= p < q ==> count_type(types, sel, types[#[trigger] reps[p] as int], types.len() as int) == m,
    decreases q,
{
    if q == 0 {
        assert(q * m == 0) by (nonlinear_arith)
            requires
                q == 0,
        ;
    } else {
        lemma_sum_at_most(types, sel, reps, q - 1, m);
        assert(q * m == (q - 1) * m + m) by (nonlinear_arith);
        assert(count_type(types, sel, types[reps[q - 1] as int], types.len() as int) <= m);
        if sum_counts(types, sel, reps, q, types.len() as int) == q * m {
            assert forall|p: int| 0 <= p < q implies count_type(types, sel, types[#[trigger] reps[p] as int], types.len() as int) == m by {
                assert(count_type(types, sel, types[reps[q - 1] as int], types.len() as int) <= m);
            }
        }
    }
}

/// Where each representative's type has at least `m` selected insects, the sum is at
/// least `q * m`.
pub proof fn lemma_sum_at_least(types: Seq<i32>, sel: Seq<bool>, reps: Seq<usize>, q: int, m: int)
    requires
        0 <= q <= reps.len(),
        forall|p: int| 0 <= p < q ==> count_type(types, sel, types[#[trigger] reps[p] as int], types.len() as int) >= m,
    ensures
        sum_counts(types, sel, reps, q, types.len() as int) >= q * m,
    decreases q,
{
    if q == 0 {
        assert(q * m == 0) by (nonlinear_arith)
            requires
                q == 0,
        ;
    } else {
        lemma_sum_at_least(types, sel, reps, q - 1, m);
        assert(q * m == (q - 1) * m + m) by (nonlinear_arith);
        assert(count_type(types, sel, types[reps[q - 1] as int], types.len() as int) >= m);
    }
}

/// The rarest type has at most as many insects as any type, and at least `m` where
/// every type has.
pub proof fn lemma_rarest(types: Seq<i32>, k: int, m: int)
    requires
        1 <= k <= types.len(),
    ensures
        forall|i: int| 0 <= i < k ==> rarest_upto(types, k) <= #[trigger] freq(types, types[i]),
        (forall|i: int| 0 <= i < k ==> #[trigger] freq(types, types[i]) >= m) ==> rarest_upto(types, k) >= m,
    decreases k,
{
    if k > 1 {
        lemma_rarest(types, k - 1, m);
    }
}

/// Every insect's type has at least that insect.
pub proof fn lemma_freq_pos(types: Seq<i32>, i: int)
    requires
        0 <= i < types.len(),
    ensures
        freq(types, types[i]) >= 1,
{
    lemma_count_type_ge(types, all_in(types.len() as int), types[i], i, types.len() as int);
}

proof fn lemma_count_type_ge(types: Seq<i32>, sel: Seq<bool>, t: i32, i: int, k: int)
    requires
        0 <= i < k <= sel.len(),
        sel[i],
        types[i] == t,
    ensures
        count_type(types, sel, t, k) >= 1,
    decreases k,
{
    if k - 1 > i {
        lemma_count_type_ge(types, sel, t, i, k - 1);
    } else {
        lemma_count_type_nonneg(types, sel, t, k - 1);
    }
}

pub proof fn lemma_count_type_nonneg(types: Seq<i32>, sel: Seq<bool>, t: i32, k: int)
    ensures
        count_type(types, sel, t, k) >= 0,
    decreases k,
{
    if k > 0 {
        lemma_count_type_nonneg(types, sel, t, k - 1);
    }
}

/// `min(x, r)`.
pub open spec fn capped(x: int, r: int) -> int {
    if x < r {
        x
    } else {
        r
    }
}

/// A list that holds, once each, exactly the selected insects counts them by type.
pub proof fn lemma_list_matches(types: Seq<i32>, sel: Seq<bool>, list: Seq<usize>, t: i32)
    requires
        sel.len() == types.len(),
        types.len() <= usize::MAX,
        list.no_duplicates(),
        forall|q: int| 0 <= q < list.len() ==> #[trigger] list[q] < types.len() && sel[list[q] as int],
        forall|j: int| 0 <= j < types.len() && #[trigger] sel[j] ==> list.contains(j as usize),
    ensures
        in_list(types, list, t) == count_type(types, sel, t, types.len() as int),
    decreases list.len(),
{
    let n = types.len() as int;
    if list.len() == 0 {
        assert forall|j: int| 0 <= j < n implies !#[trigger] sel[j] by {
            if sel[j] {
                assert(list.contains(j as usize));
            }
        }
        lemma_count_type_none(types, sel, t, n);
    } else {
        let x = list.last();
        let l2 = list.drop_last();
        let sel2 = sel.update(x as int, false);
        assert forall|q: int| 0 <= q < l2.len() implies #[trigger] l2[q] < types.len() && sel2[l2[q] as int] by {
            assert(l2[q] == list[q]);
            assert(list[q] != list[list.len() - 1]);
        }
        assert forall|j: int| 0 <= j < n && #[trigger] sel2[j] implies l2.contains(j as usize) by {
            assert(j != x as int);
            assert(sel[j]);
            assert(list.contains(j as usize));
            let p = choose|p: int| 0 <= p < list.len() && list[p] == j as usize;
            assert(p != list.len() - 1);
            assert(l2[p] == j as usize);
        }
        assert(l2.no_duplicates());
        lemma_list_matches(types, sel2, l2, t);
        lemma_count_type_update(types, sel, x as int, false, t, n);
        lemma_list_count_push(types, l2, x, t);
        assert(l2.push(x) =~= list);
    }
}

/// Representatives one more.
pub proof fn lemma_hits_push(types: Seq<i32>, reps: Seq<usize>, x: usize, t: i32)
    ensures
        hits(types, reps.push(x), reps.len() + 1int, t) == hits(types, reps, reps.len() as int, t) + if types[x as int] == t { 1int } else { 0 },
{
    lemma_hits_prefix(types, reps, reps.push(x), t, reps.len() as int);
}

proof fn lemma_hits_prefix(types: Seq<i32>, a: Seq<usize>, b: Seq<usize>, t: i32, k: int)
    requires
        0 <= k <= a.len(),
        k <= b.len(),
        forall|q: int| 0 <= q < k ==> #[trigger] a[q] == b[q],
    ensures
        hits(types, a, k, t) == hits(types, b, k, t),
    decreases k,
{
    if k > 0 {
        lemma_hits_prefix(types, a, b, t, k - 1);
    }
}

/// With representatives of pairwise different types, at most one is of type `x`, and
/// one is exactly when some representative has that type.
pub proof fn lemma_hits_one(types: Seq<i32>, reps: Seq<usize>, x: i32)
    requires
        forall|q1: int, q2: int|
            0 <= q1 < q2 < reps.len() ==> types[#[trigger] reps[q1] as int] != types[#[trigger] reps[q2] as int],
    ensures
        0 <= hits(types, reps, reps.len() as int, x) <= 1,
        hits(types, reps, reps.len() as int, x) == 1 <==> exists|p: int| 0 <= p < reps.len() && types[#[trigger] reps[p] as int] == x,
{
    lemma_hits(types, reps, reps.len() as int, x);
}

} // verus!
