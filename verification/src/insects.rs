//! Rarest insects: with a machine that reports how many insects of the most frequent
//! type are inside, find how many insects the rarest type has.
use vstd::prelude::*;
use rand::seq::SliceRandom;
use rand::rngs::ThreadRng;
use crate::insects::protocol::{Call, moved_in, moved_out, presses, orderly, covers_once};
use crate::insects::counting::{
    count_true, all_in, freq, rarest, rarest_upto, list_count, in_list, inside_count, reps_ok,
    covered, sum_counts, hits, capped,
};

pub mod counting;
pub mod protocol;

verus! {

#[verifier::external_type_specification]
#[verifier::external_body]
pub struct ExThreadRng(ThreadRng);

/// `rand::thread_rng`: the thread's random number generator. Nothing is stated of it;
/// rand panics here only if the operating system cannot seed it.
#[verifier::external_body]
fn thread_rng() -> ThreadRng {
    rand::thread_rng()
}

/// `rand`'s `SliceRandom::shuffle` on the vector's slice: reorders the items at
/// random, by swaps, so the result is a permutation of the input. Which permutation
/// is left open.
#[verifier::external_body]
fn shuffle(v: &mut Vec<usize>, rng: &mut ThreadRng)
    ensures
        final(v)@.len() == old(v)@.len(),
        final(v)@.to_multiset() =~= old(v)@.to_multiset(),
{
    v.shuffle(rng);
}

/// Number of insects among the first `k` that are inside and of type `t`.
pub open spec fn count_type(types: Seq<i32>, inside: Seq<bool>, t: i32, k: int) -> int
    decreases k,
{
    if k <= 0 {
        0
    } else {
        count_type(types, inside, t, k - 1) + if inside[k - 1] && types[k - 1] == t {
            1int
        } else {
            0
        }
    }
}

/// The largest number of inside insects sharing a type, over the types of the first
/// `k` insects that are inside.
pub open spec fn max_count_upto(types: Seq<i32>, inside: Seq<bool>, k: int) -> int
    decreases k,
{
    if k <= 0 {
        0
    } else {
        let c = if inside[k - 1] {
            count_type(types, inside, types[k - 1], types.len() as int)
        } else {
            0
        };
        let m = max_count_upto(types, inside, k - 1);
        if c > m {
            c
        } else {
            m
        }
    }
}

/// What the button shows: the number of inside insects of the most frequent type
/// among those inside.
pub open spec fn button(types: Seq<i32>, inside: Seq<bool>) -> int {
    max_count_upto(types, inside, types.len() as int)
}

/// The machine of the task: insects are moved in and out, and the button reports
/// the most frequent type's count inside. Every call is logged, so that a caller's
/// contract can speak of the calls it made.
pub trait Machine {
    /// The type of each insect.
    spec fn types(&self) -> Seq<i32>;

    /// Which insects are inside the machine.
    spec fn inside(&self) -> Seq<bool>;

    /// The calls made so far; with a move, whether it found its insect on the other
    /// side.
    spec fn calls(&self) -> Seq<(Call, bool)>;

    /// The machine's own bookkeeping is in order.
    spec fn wf(&self) -> bool;

    fn move_inside(&mut self, i: usize)
        requires
            old(self).wf(),
            i < old(self).types().len(),
            old(self).inside().len() == old(self).types().len(),
        ensures
            final(self).wf(),
            final(self).types() == old(self).types(),
            final(self).inside() == old(self).inside().update(i as int, true),
            final(self).calls() == old(self).calls().push((Call::Inside(i), !old(self).inside()[i as int])),
    ;

    fn move_outside(&mut self, i: usize)
        requires
            old(self).wf(),
            i < old(self).types().len(),
            old(self).inside().len() == old(self).types().len(),
        ensures
            final(self).wf(),
            final(self).types() == old(self).types(),
            final(self).inside() == old(self).inside().update(i as int, false),
            final(self).calls() == old(self).calls().push((Call::Outside(i), old(self).inside()[i as int])),
    ;

    fn press_button(&mut self) -> (r: usize)
        requires
            old(self).wf(),
            old(self).inside().len() == old(self).types().len(),
        ensures
            final(self).wf(),
            final(self).types() == old(self).types(),
            final(self).inside() == old(self).inside(),
            final(self).calls() == old(self).calls().push((Call::Press, false)),
            r == button(old(self).types(), old(self).inside()),
    ;
}

/// Insects listed once each, each below `n` and outside the machine.
pub open spec fn outside_list(types: Seq<i32>, inside: Seq<bool>, list: Seq<usize>) -> bool {
    &&& list.no_duplicates()
    &&& forall|q: int| 0 <= q < list.len() ==> #[trigger] list[q] < types.len() && !inside[list[q] as int]
}

/// Tries the insects in the order of `perm`, keeping one of each type in the machine:
/// returns how many are kept (the number of types), the others, and the kept ones.
fn find_types<M: Machine>(machine: &mut M, perm: &Vec<usize>, Ghost(types): Ghost<Seq<i32>>) -> (r: (usize, Vec<usize>, Ghost<Seq<usize>>))
    requires
        old(machine).wf(),
        old(machine).types() == types,
        1 <= types.len() <= usize::MAX,
        old(machine).inside().len() == types.len(),
        forall|k: int| 0 <= k < types.len() ==> !#[trigger] old(machine).inside()[k],
        perm.len() == types.len(),
        perm@.no_duplicates(),
        forall|k: int| 0 <= k < perm.len() ==> #[trigger] perm@[k] < types.len(),
        forall|j: int| 0 <= j < types.len() ==> #[trigger] perm@.contains(j as usize),
    ensures
        final(machine).wf(),
        old(machine).calls().is_prefix_of(final(machine).calls()),
        orderly(final(machine).calls(), old(machine).calls().len() as int),
        moved_in(final(machine).calls()) == moved_in(old(machine).calls()) + perm@,
        presses(final(machine).calls()) == presses(old(machine).calls()) + types.len(),
        moved_out(final(machine).calls()).len() == moved_out(old(machine).calls()).len() + types.len() - r.0,
        final(machine).types() == types,
        final(machine).inside().len() == types.len(),
        r.0 == r.2@.len(),
        r.0 >= 1,
        r.0 == count_true(final(machine).inside(), types.len() as int),
        reps_ok(types, r.2@),
        forall|i: int| 0 <= i < types.len() ==> #[trigger] inside_count(types, final(machine).inside(), types[i]) == 1,
        outside_list(types, final(machine).inside(), r.1@),
        forall|i: int| 0 <= i < types.len() ==> 1 + in_list(types, r.1@, types[i]) == #[trigger] freq(types, types[i]),
{
    let n = perm.len();
    let mut num_inside: usize = 0;
    let mut insects: Vec<usize> = Vec::new();
    let ghost mut reps: Seq<usize> = Seq::empty();
    let ghost mut src: Seq<int> = Seq::empty();
    proof {
        counting::lemma_count_true_none(machine.inside(), n as int);
        assert forall|i: int| 0 <= i < n implies #[trigger] inside_count(types, machine.inside(), types[i]) == hits(types, reps, reps.len() as int, types[i]) by {
            counting::lemma_count_type_none(types, machine.inside(), types[i], n as int);
        }
    }
    let ghost start = machine.calls();
    let mut k: usize = 0;
    while k < n
        invariant
            machine.wf(),
            start.is_prefix_of(machine.calls()),
            orderly(machine.calls(), start.len() as int),
            moved_in(machine.calls()) == moved_in(start) + perm@.take(k as int),
            presses(machine.calls()) == presses(start) + k,
            moved_out(machine.calls()).len() == moved_out(start).len() + k - num_inside,
            machine.types() == types,
            machine.inside().len() == n,
            n == types.len(),
            perm.len() == n,
            perm@.no_duplicates(),
            forall|p: int| 0 <= p < n ==> #[trigger] perm@[p] < n,
            k <= n,
            forall|p: int| k <= p < n ==> !machine.inside()[#[trigger] perm@[p] as int],
            num_inside == reps.len(),
            num_inside == count_true(machine.inside(), n as int),
            num_inside <= k,
            forall|q: int| 0 <= q < reps.len() ==> #[trigger] reps[q] < n,
            forall|q1: int, q2: int| 0 <= q1 < q2 < reps.len() ==> types[#[trigger] reps[q1] as int] != types[#[trigger] reps[q2] as int],
            forall|i: int| 0 <= i < n ==> #[trigger] inside_count(types, machine.inside(), types[i]) == hits(types, reps, reps.len() as int, types[i]),
            forall|p: int| 0 <= p < k ==> #[trigger] covered(types, reps, perm@[p] as int),
            insects.len() == src.len(),
            insects.len() <= k,
            forall|q: int| 0 <= q < src.len() ==> 0 <= #[trigger] src[q] < k && insects@[q] == perm@[src[q]],
            forall|q1: int, q2: int| 0 <= q1 < q2 < src.len() ==> #[trigger] src[q1] < #[trigger] src[q2],
            forall|q: int| 0 <= q < insects.len() ==> !machine.inside()[#[trigger] insects@[q] as int],
            forall|i: int| 0 <= i < n ==> inside_count(types, machine.inside(), types[i]) + in_list(types, insects@, types[i])
                == #[trigger] list_count(types, perm@, types[i], k as int),
        decreases n - k,
    {
        let i = perm[k];
        let ghost before = machine.inside();
        let ghost log0 = machine.calls();
        let ghost ins0 = insects@;
        let ghost ti = types[i as int];
        proof {
            counting::lemma_hits_one(types, reps, ti);
            assert(inside_count(types, before, types[i as int]) == hits(types, reps, reps.len() as int, ti));
        }
        machine.move_inside(i);
        let ghost inside1 = machine.inside();
        proof {
            assert forall|t: i32| #[trigger] inside_count(types, inside1, t) == inside_count(types, before, t) + if ti == t { 1int } else { 0 } by {
                counting::lemma_count_type_update(types, before, i as int, true, t, n as int);
            }
            counting::lemma_count_true_update(before, i as int, true, n as int);
            if hits(types, reps, reps.len() as int, ti) == 1 {
                assert forall|j: int| 0 <= j < n && inside1[j] implies #[trigger] inside_count(types, inside1, types[j]) <= 2 by {
                    counting::lemma_hits_one(types, reps, types[j]);
                    assert(inside_count(types, before, types[j]) == hits(types, reps, reps.len() as int, types[j]));
                }
                counting::lemma_button(types, inside1, 2, n as int);
                assert(inside_count(types, inside1, types[i as int]) == 2);
            } else {
                assert forall|j: int| 0 <= j < n && inside1[j] implies #[trigger] inside_count(types, inside1, types[j]) <= 1 by {
                    counting::lemma_hits_one(types, reps, types[j]);
                    assert(inside_count(types, before, types[j]) == hits(types, reps, reps.len() as int, types[j]));
                }
                counting::lemma_button(types, inside1, 1, n as int);
            }
        }
        let c = machine.press_button();
        if c > 1 {
            machine.move_outside(i);
            let ghost old_insects = insects@;
            insects.push(i);
            proof {
                protocol::lemma_round(start, log0, machine.calls(), i, true);
                assert(machine.inside() =~= before);
                src = src.push(k as int);
                assert forall|t: i32| #[trigger] in_list(types, insects@, t) == in_list(types, old_insects, t) + if ti == t { 1int } else { 0 } by {
                    counting::lemma_list_count_push(types, old_insects, i, t);
                }
                let p = choose|p: int| 0 <= p < reps.len() && types[#[trigger] reps[p] as int] == ti;
                assert(covered(types, reps, i as int));
                assert forall|x: int| 0 <= x < n implies inside_count(types, machine.inside(), types[x]) + in_list(types, insects@, types[x])
                    == #[trigger] list_count(types, perm@, types[x], k + 1) by {
                    assert(inside_count(types, before, types[x]) + in_list(types, ins0, types[x]) == list_count(types, perm@, types[x], k as int));
                    assert(in_list(types, insects@, types[x]) == in_list(types, ins0, types[x]) + if ti == types[x] { 1int } else { 0 });
                }
            }
        } else {
            num_inside = num_inside + 1;
            proof {
                protocol::lemma_round(start, log0, machine.calls(), i, false);
                let old_reps = reps;
                reps = reps.push(i);
                assert forall|t: i32| #[trigger] hits(types, reps, reps.len() as int, t) == hits(types, old_reps, old_reps.len() as int, t) + if ti == t { 1int } else { 0 } by {
                    counting::lemma_hits_push(types, old_reps, i, t);
                }
                assert forall|q1: int, q2: int| 0 <= q1 < q2 < reps.len() implies types[#[trigger] reps[q1] as int] != types[#[trigger] reps[q2] as int] by {
                    if q2 == reps.len() - 1 {
                        assert(types[old_reps[q1] as int] != ti);
                    } else {
                        assert(reps[q1] == old_reps[q1] && reps[q2] == old_reps[q2]);
                    }
                }
                assert forall|p: int| 0 <= p < k + 1 implies #[trigger] covered(types, reps, perm@[p] as int) by {
                    if p < k {
                        assert(covered(types, old_reps, perm@[p] as int));
                        let q = choose|q: int| 0 <= q < old_reps.len() && types[#[trigger] old_reps[q] as int] == types[perm@[p] as int];
                        assert(reps[q] == old_reps[q]);
                    } else {
                        assert(reps[reps.len() - 1] == i);
                    }
                }
                assert forall|q: int| 0 <= q < insects.len() implies !machine.inside()[#[trigger] insects@[q] as int] by {
                    assert(insects@[q] == perm@[src[q]]);
                    assert(src[q] != k);
                }
                assert forall|x: int| 0 <= x < n implies inside_count(types, machine.inside(), types[x]) + in_list(types, insects@, types[x])
                    == #[trigger] list_count(types, perm@, types[x], k + 1) by {
                    assert(inside_count(types, before, types[x]) + in_list(types, ins0, types[x]) == list_count(types, perm@, types[x], k as int));
                    assert(inside_count(types, inside1, types[x]) == inside_count(types, before, types[x]) + if ti == types[x] { 1int } else { 0 });
                }
            }
        }
        proof {
            assert forall|p: int| k + 1 <= p < n implies !machine.inside()[#[trigger] perm@[p] as int] by {
                assert(perm@[p] != perm@[k as int]);
            }
            assert(moved_in(start) + perm@.take(k + 1) =~= (moved_in(start) + perm@.take(k as int)).push(i));
        }
        k = k + 1;
    }
    proof {
        assert(perm@.take(n as int) =~= perm@);
        assert forall|j: int| 0 <= j < n implies #[trigger] covered(types, reps, j) by {
            assert(perm@.contains(j as usize));
            let p = choose|p: int| 0 <= p < n && perm@[p] == j as usize;
            assert(covered(types, reps, perm@[p] as int));
        }
        assert forall|i: int| 0 <= i < n implies #[trigger] inside_count(types, machine.inside(), types[i]) == 1 by {
            assert(covered(types, reps, i));
            counting::lemma_hits_one(types, reps, types[i]);
        }
        assert forall|i: int| 0 <= i < n implies 1 + in_list(types, insects@, types[i]) == #[trigger] freq(types, types[i]) by {
            assert forall|q: int| 0 <= q < perm@.len() implies #[trigger] perm@[q] < types.len() && all_in(n as int)[perm@[q] as int] by {}
            assert forall|j: int| 0 <= j < types.len() && #[trigger] all_in(n as int)[j] implies perm@.contains(j as usize) by {}
            counting::lemma_list_matches(types, all_in(n as int), perm@, types[i]);
            assert(inside_count(types, machine.inside(), types[i]) == 1);
        }
        assert(insects@.no_duplicates()) by {
            assert forall|a: int, b: int| 0 <= a < insects.len() && 0 <= b < insects.len() && a != b implies insects@[a] != insects@[b] by {
                assert(src[a] != src[b]) by {
                    if a < b {
                        assert(src[a] < src[b]);
                    } else {
                        assert(src[b] < src[a]);
                    }
                }
            }
        }
        assert(covered(types, reps, 0));
        assert forall|q: int| 0 <= q < insects.len() implies #[trigger] insects@[q] < types.len() && !machine.inside()[insects@[q] as int] by {
            assert(insects@[q] == perm@[src[q]]);
        }
    }
    (num_inside, insects, Ghost(reps))
}

/// With one representative per type, and no type with more than `m` inside, the
/// number inside is at most `m` per representative, and reaches it exactly when every
/// type has `m` inside.
proof fn lemma_full(types: Seq<i32>, inside: Seq<bool>, reps: Seq<usize>, m: int)
    requires
        reps_ok(types, reps),
        inside.len() == types.len(),
        forall|i: int| 0 <= i < types.len() ==> #[trigger] inside_count(types, inside, types[i]) <= m,
    ensures
        count_true(inside, types.len() as int) <= reps.len() * m,
        count_true(inside, types.len() as int) == reps.len() * m <==> forall|i: int|
            0 <= i < types.len() ==> #[trigger] inside_count(types, inside, types[i]) == m,
{
    let n = types.len() as int;
    counting::lemma_double_count(types, inside, reps, n);
    assert forall|p: int| 0 <= p < reps.len() implies crate::insects::count_type(types, inside, types[#[trigger] reps[p] as int], n) <= m by {
        assert(inside_count(types, inside, types[reps[p] as int]) <= m);
    }
    counting::lemma_sum_at_most(types, inside, reps, reps.len() as int, m);
    if count_true(inside, n) == reps.len() * m {
        assert forall|i: int| 0 <= i < n implies #[trigger] inside_count(types, inside, types[i]) == m by {
            assert(covered(types, reps, i));
            let p = choose|p: int| 0 <= p < reps.len() && types[#[trigger] reps[p] as int] == types[i];
            assert(crate::insects::count_type(types, inside, types[reps[p] as int], n) == m);
        }
    }
    if forall|i: int| 0 <= i < n ==> #[trigger] inside_count(types, inside, types[i]) == m {
        assert forall|p: int| 0 <= p < reps.len() implies crate::insects::count_type(types, inside, types[#[trigger] reps[p] as int], n) == m by {
            assert(inside_count(types, inside, types[reps[p] as int]) == m);
        }
    }
}

/// Tries level `m`: moves in the insects of `insects` in turn while not every type has
/// `m` inside, and takes one back out when the button shows that its type had `m`
/// already. Returns the insects left inside, those left out, and the number inside.
fn try_level<M: Machine>(
    machine: &mut M,
    insects: &Vec<usize>,
    m: usize,
    d: usize,
    num_inside: usize,
    Ghost(types): Ghost<Seq<i32>>,
    Ghost(reps): Ghost<Seq<usize>>,
    Ghost(l): Ghost<int>,
) -> (r: (Vec<usize>, Vec<usize>, usize))
    requires
        old(machine).wf(),
        old(machine).types() == types,
        1 <= types.len() <= usize::MAX,
        old(machine).inside().len() == types.len(),
        reps_ok(types, reps),
        reps.len() == d,
        1 <= l < m,
        d * m <= types.len(),
        forall|i: int| 0 <= i < types.len() ==> #[trigger] inside_count(types, old(machine).inside(), types[i]) == l,
        num_inside == count_true(old(machine).inside(), types.len() as int),
        outside_list(types, old(machine).inside(), insects@),
    ensures
        final(machine).wf(),
        old(machine).calls().is_prefix_of(final(machine).calls()),
        orderly(final(machine).calls(), old(machine).calls().len() as int),
        presses(final(machine).calls()) - presses(old(machine).calls())
            == moved_in(final(machine).calls()).len() - moved_in(old(machine).calls()).len(),
        moved_in(final(machine).calls()).len() - moved_in(old(machine).calls()).len() <= insects.len(),
        (moved_in(final(machine).calls()).len() - moved_in(old(machine).calls()).len())
            - (moved_out(final(machine).calls()).len() - moved_out(old(machine).calls()).len()) == r.2 - num_inside,
        final(machine).types() == types,
        final(machine).inside().len() == types.len(),
        r.2 == count_true(final(machine).inside(), types.len() as int),
        forall|i: int| 0 <= i < types.len() ==> #[trigger] inside_count(types, final(machine).inside(), types[i])
            == capped(l + in_list(types, insects@, types[i]), m as int),
        forall|i: int| 0 <= i < types.len() ==> #[trigger] inside_count(types, final(machine).inside(), types[i])
            == l + in_list(types, r.0@, types[i]),
        forall|i: int| 0 <= i < types.len() ==> #[trigger] in_list(types, insects@, types[i])
            == in_list(types, r.0@, types[i]) + in_list(types, r.1@, types[i]),
        r.0@.no_duplicates(),
        forall|q: int| 0 <= q < r.0.len() ==> #[trigger] r.0@[q] < types.len() && final(machine).inside()[r.0@[q] as int],
        outside_list(types, final(machine).inside(), r.1@),
        (r.2 == d * m) <==> forall|i: int| 0 <= i < types.len() ==> #[trigger] inside_count(types, final(machine).inside(), types[i]) == m,
{
    let ghost n = types.len() as int;
    let mut num_inside = num_inside;
    let mut inside: Vec<usize> = Vec::new();
    let mut outside: Vec<usize> = Vec::new();
    let ghost mut si: Seq<int> = Seq::empty();
    let ghost mut so: Seq<int> = Seq::empty();
    let ghost start = machine.calls();
    let ghost ni0 = num_inside as int;
    let mut k: usize = 0;
    while k < insects.len()
        invariant
            machine.wf(),
            start.is_prefix_of(machine.calls()),
            orderly(machine.calls(), start.len() as int),
            presses(machine.calls()) - presses(start) == moved_in(machine.calls()).len() - moved_in(start).len(),
            moved_in(machine.calls()).len() - moved_in(start).len() <= k,
            (moved_in(machine.calls()).len() - moved_in(start).len())
                - (moved_out(machine.calls()).len() - moved_out(start).len()) == num_inside - ni0,
            machine.types() == types,
            machine.inside().len() == n,
            n == types.len(),
            1 <= n <= usize::MAX,
            reps_ok(types, reps),
            reps.len() == d,
            1 <= l < m,
            d * m <= n,
            outside_list(types, old(machine).inside(), insects@),
            k <= insects.len(),
            num_inside == count_true(machine.inside(), n),
            forall|i: int| 0 <= i < n ==> #[trigger] inside_count(types, machine.inside(), types[i])
                == capped(l + list_count(types, insects@, types[i], k as int), m as int),
            forall|i: int| 0 <= i < n ==> #[trigger] inside_count(types, machine.inside(), types[i])
                == l + in_list(types, inside@, types[i]),
            forall|i: int| 0 <= i < n ==> #[trigger] list_count(types, insects@, types[i], k as int)
                == in_list(types, inside@, types[i]) + in_list(types, outside@, types[i]),
            forall|p: int| k <= p < insects.len() ==> !machine.inside()[#[trigger] insects@[p] as int],
            inside.len() == si.len(),
            forall|q: int| 0 <= q < si.len() ==> 0 <= #[trigger] si[q] < k && inside@[q] == insects@[si[q]],
            forall|q1: int, q2: int| 0 <= q1 < q2 < si.len() ==> #[trigger] si[q1] < #[trigger] si[q2],
            forall|q: int| 0 <= q < inside.len() ==> machine.inside()[#[trigger] inside@[q] as int],
            outside.len() == so.len(),
            forall|q: int| 0 <= q < so.len() ==> 0 <= #[trigger] so[q] < k && outside@[q] == insects@[so[q]],
            forall|q1: int, q2: int| 0 <= q1 < q2 < so.len() ==> #[trigger] so[q1] < #[trigger] so[q2],
            forall|q: int| 0 <= q < outside.len() ==> !machine.inside()[#[trigger] outside@[q] as int],
        decreases insects.len() - k,
    {
        let i = insects[k];
        let ghost before = machine.inside();
        let ghost ti = types[i as int];
        let ghost in0 = inside@;
        let ghost out0 = outside@;
        let ghost log0 = machine.calls();
        proof {
            assert(i < n);
            assert(!before[i as int]);
            assert forall|x: int| 0 <= x < n implies #[trigger] inside_count(types, before, types[x]) <= m by {}
            lemma_full(types, before, reps, m as int);
        }
        if num_inside == d * m {
            outside.push(i);
            proof {
                so = so.push(k as int);
                assert forall|t: i32| #[trigger] in_list(types, outside@, t) == in_list(types, out0, t) + if ti == t { 1int } else { 0 } by {
                    counting::lemma_list_count_push(types, out0, i, t);
                }
                assert forall|x: int| 0 <= x < n implies #[trigger] inside_count(types, machine.inside(), types[x])
                    == capped(l + list_count(types, insects@, types[x], k + 1), m as int) by {
                    assert(inside_count(types, before, types[x]) == m);
                }
            }
        } else {
            machine.move_inside(i);
            let ghost inside1 = machine.inside();
            proof {
                assert forall|t: i32| #[trigger] inside_count(types, inside1, t) == inside_count(types, before, t) + if ti == t { 1int } else { 0 } by {
                    counting::lemma_count_type_update(types, before, i as int, true, t, n);
                }
                counting::lemma_count_true_update(before, i as int, true, n);
                if inside_count(types, before, ti) == m {
                    assert forall|j: int| 0 <= j < n && inside1[j] implies #[trigger] inside_count(types, inside1, types[j]) <= m + 1 by {
                        assert(inside_count(types, before, types[j]) <= m);
                    }
                    counting::lemma_button(types, inside1, m + 1, n);
                    assert(inside_count(types, inside1, types[i as int]) == m + 1);
                } else {
                    assert forall|j: int| 0 <= j < n && inside1[j] implies #[trigger] inside_count(types, inside1, types[j]) <= m by {
                        assert(inside_count(types, before, types[j]) <= m);
                        assert(inside_count(types, before, types[i as int]) <= m);
                    }
                    counting::lemma_button(types, inside1, m as int, n);
                }
            }
            if machine.press_button() > m {
                machine.move_outside(i);
                outside.push(i);
                proof {
                    protocol::lemma_round(start, log0, machine.calls(), i, true);
                    assert(machine.inside() =~= before);
                    so = so.push(k as int);
                    assert forall|t: i32| #[trigger] in_list(types, outside@, t) == in_list(types, out0, t) + if ti == t { 1int } else { 0 } by {
                        counting::lemma_list_count_push(types, out0, i, t);
                    }
                    assert forall|x: int| 0 <= x < n implies #[trigger] inside_count(types, machine.inside(), types[x])
                        == capped(l + list_count(types, insects@, types[x], k + 1), m as int) by {
                        if types[x] == ti {
                            assert(inside_count(types, before, types[i as int]) == m);
                        }
                    }
                }
            } else {
                inside.push(i);
                num_inside = num_inside + 1;
                proof {
                    protocol::lemma_round(start, log0, machine.calls(), i, false);
                    si = si.push(k as int);
                    assert forall|t: i32| #[trigger] in_list(types, inside@, t) == in_list(types, in0, t) + if ti == t { 1int } else { 0 } by {
                        counting::lemma_list_count_push(types, in0, i, t);
                    }
                    assert forall|x: int| 0 <= x < n implies #[trigger] inside_count(types, machine.inside(), types[x])
                        == capped(l + list_count(types, insects@, types[x], k + 1), m as int) by {
                        if types[x] == ti {
                            assert(inside_count(types, before, types[i as int]) < m);
                        }
                    }
                    assert forall|q: int| 0 <= q < outside.len() implies !machine.inside()[#[trigger] outside@[q] as int] by {
                        assert(outside@[q] == insects@[so[q]]);
                        assert(so[q] != k);
                    }
                    assert(machine.inside() == inside1);
                    assert forall|q: int| 0 <= q < inside.len() implies machine.inside()[#[trigger] inside@[q] as int] by {
                        if q < in0.len() {
                            assert(inside@[q] == in0[q]);
                            assert(in0[q] == insects@[si[q]]);
                            assert(in0[q] < n);
                            assert(before[in0[q] as int]);
                            assert(inside1[in0[q] as int]);
                        } else {
                            assert(inside@[q] == i);
                            assert(inside1[i as int]);
                        }
                    }
                }
            }
        }
        proof {
            assert forall|p: int| k + 1 <= p < insects.len() implies !machine.inside()[#[trigger] insects@[p] as int] by {
                assert(insects@[p] != insects@[k as int]);
            }
            assert forall|x: int| 0 <= x < n implies #[trigger] list_count(types, insects@, types[x], k + 1)
                == in_list(types, inside@, types[x]) + in_list(types, outside@, types[x]) by {
                assert(list_count(types, insects@, types[x], k as int) == in_list(types, in0, types[x]) + in_list(types, out0, types[x]));
            }
        }
        k = k + 1;
    }
    proof {
        assert forall|i: int| 0 <= i < n implies #[trigger] inside_count(types, machine.inside(), types[i]) <= m by {}
        lemma_full(types, machine.inside(), reps, m as int);
        assert forall|a: int, b: int| 0 <= a < inside.len() && 0 <= b < inside.len() && a != b implies inside@[a] != inside@[b] by {
            assert(si[a] != si[b]) by {
                if a < b {
                    assert(si[a] < si[b]);
                } else {
                    assert(si[b] < si[a]);
                }
            }
        }
        assert forall|a: int, b: int| 0 <= a < outside.len() && 0 <= b < outside.len() && a != b implies outside@[a] != outside@[b] by {
            assert(so[a] != so[b]) by {
                if a < b {
                    assert(so[a] < so[b]);
                } else {
                    assert(so[b] < so[a]);
                }
            }
        }
        assert forall|q: int| 0 <= q < inside.len() implies #[trigger] inside@[q] < types.len() && machine.inside()[inside@[q] as int] by {
            assert(inside@[q] == insects@[si[q]]);
        }
        assert forall|q: int| 0 <= q < outside.len() implies #[trigger] outside@[q] < types.len() && !machine.inside()[outside@[q] as int] by {
            assert(outside@[q] == insects@[so[q]]);
        }
    }
    (inside, outside, num_inside)
}

/// Moves the insects of `list`, which are inside, back out.
fn take_out<M: Machine>(machine: &mut M, list: &Vec<usize>, num_inside: usize, Ghost(types): Ghost<Seq<i32>>) -> (r: usize)
    requires
        old(machine).wf(),
        old(machine).types() == types,
        old(machine).inside().len() == types.len(),
        list@.no_duplicates(),
        forall|q: int| 0 <= q < list.len() ==> #[trigger] list@[q] < types.len() && old(machine).inside()[list@[q] as int],
        num_inside == count_true(old(machine).inside(), types.len() as int),
    ensures
        final(machine).wf(),
        old(machine).calls().is_prefix_of(final(machine).calls()),
        orderly(final(machine).calls(), old(machine).calls().len() as int),
        moved_in(final(machine).calls()) == moved_in(old(machine).calls()),
        presses(final(machine).calls()) == presses(old(machine).calls()),
        moved_out(final(machine).calls()).len() == moved_out(old(machine).calls()).len() + list.len(),
        r == num_inside - list.len(),
        final(machine).types() == types,
        final(machine).inside().len() == types.len(),
        r == count_true(final(machine).inside(), types.len() as int),
        forall|t: i32| #[trigger] inside_count(types, final(machine).inside(), t)
            == inside_count(types, old(machine).inside(), t) - in_list(types, list@, t),
        forall|q: int| 0 <= q < list.len() ==> !final(machine).inside()[#[trigger] list@[q] as int],
{
    let ghost n = types.len() as int;
    let mut num_inside = num_inside;
    let ghost start = machine.calls();
    let ghost ni0 = num_inside as int;
    let mut k: usize = 0;
    while k < list.len()
        invariant
            machine.wf(),
            start.is_prefix_of(machine.calls()),
            orderly(machine.calls(), start.len() as int),
            moved_in(machine.calls()) == moved_in(start),
            presses(machine.calls()) == presses(start),
            moved_out(machine.calls()).len() == moved_out(start).len() + k,
            num_inside == ni0 - k,
            machine.types() == types,
            machine.inside().len() == n,
            n == types.len(),
            list@.no_duplicates(),
            forall|q: int| 0 <= q < list.len() ==> #[trigger] list@[q] < n,
            k <= list.len(),
            num_inside == count_true(machine.inside(), n),
            forall|t: i32| #[trigger] inside_count(types, machine.inside(), t)
                == inside_count(types, old(machine).inside(), t) - list_count(types, list@, t, k as int),
            forall|q: int| 0 <= q < k ==> !machine.inside()[#[trigger] list@[q] as int],
            forall|q: int| k <= q < list.len() ==> machine.inside()[#[trigger] list@[q] as int],
        decreases list.len() - k,
    {
        let i = list[k];
        let ghost before = machine.inside();
        let ghost log0 = machine.calls();
        machine.move_outside(i);
        proof {
            protocol::lemma_out(start, log0, i);
            assert forall|t: i32| #[trigger] inside_count(types, machine.inside(), t)
                == inside_count(types, old(machine).inside(), t) - list_count(types, list@, t, k + 1) by {
                counting::lemma_count_type_update(types, before, i as int, false, t, n);
                assert(inside_count(types, before, t) == inside_count(types, old(machine).inside(), t) - list_count(types, list@, t, k as int));
            }
            counting::lemma_count_true_update(before, i as int, false, n);
            assert forall|q: int| k + 1 <= q < list.len() implies machine.inside()[#[trigger] list@[q] as int] by {
                assert(list@[q] != list@[k as int]);
            }
            counting::lemma_count_true_bounds(machine.inside(), n);
        }
        num_inside = num_inside - 1;
        k = k + 1;
    }
    num_inside
}

/// Finds the number of insects of the rarest type, using the machine's button.
/// The insects are first tried in a random order.
///
/// The calls it makes keep the rules of `orderly`: an insect is moved inside only
/// from outside and outside only from inside, and each move inside is followed at
/// once by a press of the button. Its first `n` moves inside take each insect once.
pub fn solve<M: Machine>(n: usize, machine: &mut M) -> (result: usize)
    requires
        old(machine).wf(),
        1 <= n,
        old(machine).types().len() == n,
        old(machine).inside().len() == n,
        forall|k: int| 0 <= k < n ==> !#[trigger] old(machine).inside()[k],
    ensures
        final(machine).wf(),
        final(machine).types() == old(machine).types(),
        result == rarest(old(machine).types()),
        old(machine).calls().is_prefix_of(final(machine).calls()),
        orderly(final(machine).calls(), old(machine).calls().len() as int),
        covers_once(moved_in(final(machine).calls()), moved_in(old(machine).calls()).len() as int, n as int),
        presses(final(machine).calls()) - presses(old(machine).calls())
            == moved_in(final(machine).calls()).len() - moved_in(old(machine).calls()).len(),
        moved_out(final(machine).calls()).len() - moved_out(old(machine).calls()).len()
            <= moved_in(final(machine).calls()).len() - moved_in(old(machine).calls()).len(),
{
    let ghost types = machine.types();
    let ghost start = machine.calls();
    let mut perm: Vec<usize> = Vec::with_capacity(n);
    let mut i: usize = 0;
    while i < n
        invariant
            i <= n,
            perm@.len() == i,
            forall|k: int| 0 <= k < i ==> #[trigger] perm@[k] == k,
        decreases n - i,
    {
        perm.push(i);
        i = i + 1;
    }
    let ghost before = perm@;
    let mut rng = thread_rng();
    shuffle(&mut perm, &mut rng);
    proof {
        broadcast use vstd::seq_lib::group_to_multiset_ensures;
        assert(before.no_duplicates());
        before.lemma_multiset_has_no_duplicates();
        assert forall|x: usize| perm@.to_multiset().contains(x) implies perm@.to_multiset().count(x) == 1 by {}
        perm@.lemma_multiset_has_no_duplicates_conv();
        assert forall|k: int| 0 <= k < perm.len() implies #[trigger] perm@[k] < n by {
            assert(perm@.contains(perm@[k]));
            assert(perm@.to_multiset().count(perm@[k]) > 0);
            assert(before.contains(perm@[k]));
        }
        assert forall|j: int| 0 <= j < n implies #[trigger] perm@.contains(j as usize) by {
            assert(before[j] == j as usize);
            assert(before.contains(j as usize));
            assert(before.to_multiset().count(j as usize) > 0);
            assert(perm@.to_multiset().count(j as usize) > 0);
        }
    }
    // Find the number of distinct types.
    let (num_inside0, insects0, Ghost(reps)) = find_types(machine, &perm, Ghost(types));
    let ghost first = machine.calls();
    let mut num_inside = num_inside0;
    let mut insects = insects0;

    // We have D types of insects.
    let d = num_inside;

    // Binary search for the largest value such that all insects have at least that
    // frequency.
    let mut l: usize = 1;
    let mut r: usize = n / d;
    proof {
        assert(d * (n / d) <= n) by (nonlinear_arith)
            requires d >= 1;
        assert(n / d <= n) by (nonlinear_arith)
            requires d >= 1;
        assert forall|k: int| 0 <= k < n implies #[trigger] freq(types, types[k]) >= 1 by {
            counting::lemma_freq_pos(types, k);
        }
        counting::lemma_rarest(types, n as int, 1);
        let rr = rarest(types);
        counting::lemma_rarest(types, n as int, rr);
        counting::lemma_count_true_all(n as int, n as int);
        counting::lemma_double_count(types, all_in(n as int), reps, n as int);
        assert forall|p: int| 0 <= p < reps.len() implies crate::insects::count_type(types, all_in(n as int), types[#[trigger] reps[p] as int], n as int) >= rr by {
            assert(freq(types, types[reps[p] as int]) >= rr);
        }
        counting::lemma_sum_at_least(types, all_in(n as int), reps, d as int, rr);
        assert(rr <= n / d) by (nonlinear_arith)
            requires d >= 1, d * rr <= n;
        assert(d <= n) by {
            counting::lemma_count_true_bounds(machine.inside(), n as int);
        }
        assert(n / d >= 1) by (nonlinear_arith)
            requires d >= 1, d <= n;
    }
    while l < r
        invariant
            machine.wf(),
            start.is_prefix_of(machine.calls()),
            orderly(machine.calls(), start.len() as int),
            first.is_prefix_of(machine.calls()),
            presses(machine.calls()) - presses(start) == moved_in(machine.calls()).len() - moved_in(start).len(),
            (moved_in(machine.calls()).len() - moved_in(start).len())
                - (moved_out(machine.calls()).len() - moved_out(start).len()) == num_inside,
            machine.types() == types,
            machine.inside().len() == n,
            types.len() == n,
            1 <= n <= usize::MAX,
            1 <= d <= n,
            reps_ok(types, reps),
            reps.len() == d,
            1 <= l <= r,
            r <= n / d,
            d * (n / d) <= n,
            l <= rarest(types) <= r,
            forall|i: int| 0 <= i < n ==> #[trigger] inside_count(types, machine.inside(), types[i]) == l,
            num_inside == count_true(machine.inside(), n as int),
            outside_list(types, machine.inside(), insects@),
            forall|i: int| 0 <= i < n ==> capped(l + in_list(types, insects@, types[i]), r as int)
                == #[trigger] capped(freq(types, types[i]), r as int),
        decreases r - l,
    {
        // (l + r + 1) / 2, without overflow.
        let m = l + (r - l + 1) / 2;
        proof {
            assert(d * m <= d * (n / d)) by (nonlinear_arith)
                requires m <= n / d;
        }
        // Let's see if all insect types have frequency at least m.
        let ghost avail_before = insects@;
        let ghost log0 = machine.calls();
        let (inside, outside, ni) = try_level(machine, &insects, m, d, num_inside, Ghost(types), Ghost(reps), Ghost(l as int));
        num_inside = ni;
        proof {
            protocol::lemma_join(start, log0, machine.calls());
            protocol::lemma_prefix_trans(first, log0, machine.calls());
        }
        if num_inside == d * m {
            // There are at least m of each type. Keep the insects that are in the machine
            // forever - all subsequent checks will be with larger m.
            proof {
                assert forall|k: int| 0 <= k < n implies #[trigger] freq(types, types[k]) >= m by {
                    assert(inside_count(types, machine.inside(), types[k]) == m);
                    assert(capped(l + in_list(types, avail_before, types[k]), r as int) == capped(freq(types, types[k]), r as int));
                }
                counting::lemma_rarest(types, n as int, m as int);
                assert forall|k: int| 0 <= k < n implies capped(m + in_list(types, outside@, types[k]), r as int)
                    == #[trigger] capped(freq(types, types[k]), r as int) by {
                    assert(inside_count(types, machine.inside(), types[k]) == m);
                    assert(in_list(types, avail_before, types[k]) == in_list(types, inside@, types[k]) + in_list(types, outside@, types[k]));
                    assert(capped(l + in_list(types, avail_before, types[k]), r as int) == capped(freq(types, types[k]), r as int));
                }
            }
            insects = outside;
            l = m;
        } else {
            // Ignore all the insects outside the machine - they all belong to types that
            // are more frequent. Take the insects we just added back out.
            let ghost round = machine.inside();
            proof {
                let x = choose|x: int| 0 <= x < n && #[trigger] inside_count(types, round, types[x]) != m;
                assert(capped(l + in_list(types, avail_before, types[x]), r as int) == capped(freq(types, types[x]), r as int));
                counting::lemma_rarest(types, n as int, 0);
                assert(rarest(types) <= freq(types, types[x]));
            }
            let ghost log1 = machine.calls();
            num_inside = take_out(machine, &inside, num_inside, Ghost(types));
            proof {
                protocol::lemma_join(start, log1, machine.calls());
                protocol::lemma_prefix_trans(first, log1, machine.calls());
                assert forall|k: int| 0 <= k < n implies #[trigger] inside_count(types, machine.inside(), types[k]) == l by {
                    assert(inside_count(types, round, types[k]) == l + in_list(types, inside@, types[k]));
                }
                assert forall|k: int| 0 <= k < n implies capped(l + in_list(types, inside@, types[k]), m - 1)
                    == #[trigger] capped(freq(types, types[k]), m - 1) by {
                    assert(inside_count(types, round, types[k]) == l + in_list(types, inside@, types[k]));
                    assert(inside_count(types, round, types[k]) == capped(l + in_list(types, avail_before, types[k]), m as int));
                    assert(capped(l + in_list(types, avail_before, types[k]), r as int) == capped(freq(types, types[k]), r as int));
                }
            }
            insects = inside;
            r = m - 1;
        }
    }
    proof {
        let ids = moved_in(machine.calls());
        let m0 = moved_in(start).len() as int;
        protocol::lemma_moved_in_prefix(first, machine.calls());
        let mf = moved_in(first);
        assert(mf == moved_in(start) + perm@);
        assert(mf =~= ids.subrange(0, mf.len() as int));
        assert forall|k: int| 0 <= k < n implies ids.subrange(m0, m0 + n)[k] == perm@[k] by {
            assert(ids.subrange(0, mf.len() as int)[m0 + k] == mf[m0 + k]);
        }
        assert(ids.subrange(m0, m0 + n) =~= perm@);
    }
    l
}

/// A simulated machine holding the types of the insects.
pub struct Testcase {
    pub types: Vec<i32>,
    /// Which insects are inside.
    pub machine: Vec<bool>,
    /// Number of calls to `move_inside`, `move_outside` and `press_button`.
    pub num_calls: (i32, i32, i32),
    /// The calls made so far.
    pub log: Ghost<Seq<(Call, bool)>>,
}

/// A number of calls as a counter keeps it: it stops at `i32::MAX`.
pub open spec fn saturate(k: nat) -> i32 {
    if k < i32::MAX {
        k as i32
    } else {
        i32::MAX
    }
}

/// The largest of the three counters that a log of calls gives: moves inside, moves
/// outside and presses.
pub open spec fn busiest(log: Seq<(Call, bool)>) -> i32 {
    let a = saturate(moved_in(log).len());
    let b = saturate(moved_out(log).len());
    let c = saturate(presses(log));
    let ab = if a > b { a } else { b };
    if ab > c { ab } else { c }
}

/// A counter after one more call.
pub open spec fn next_count(c: i32) -> i32 {
    if c < i32::MAX {
        (c + 1) as i32
    } else {
        c
    }
}

/// One more call, stopping at `i32::MAX`.
fn count_call(c: i32) -> (r: i32)
    ensures
        r == next_count(c),
{
    if c < i32::MAX {
        c + 1
    } else {
        c
    }
}

impl Machine for Testcase {
    open spec fn types(&self) -> Seq<i32> {
        self.types@
    }

    open spec fn inside(&self) -> Seq<bool> {
        self.machine@
    }

    open spec fn calls(&self) -> Seq<(Call, bool)> {
        self.log@
    }

    /// Each counter counts its kind of call in the log.
    open spec fn wf(&self) -> bool {
        &&& self.num_calls.0 == saturate(moved_in(self.log@).len())
        &&& self.num_calls.1 == saturate(moved_out(self.log@).len())
        &&& self.num_calls.2 == saturate(presses(self.log@))
    }

    fn move_inside(&mut self, i: usize)
        ensures
            final(self).num_calls == (next_count(old(self).num_calls.0), old(self).num_calls.1, old(self).num_calls.2),
    {
        let ghost entry = (Call::Inside(i), !self.machine@[i as int]);
        proof {
            protocol::lemma_log_push(self.log@, entry);
        }
        self.num_calls.0 = count_call(self.num_calls.0);
        self.machine.set(i, true);
        self.log = Ghost(self.log@.push(entry));
    }

    fn move_outside(&mut self, i: usize)
        ensures
            final(self).num_calls == (old(self).num_calls.0, next_count(old(self).num_calls.1), old(self).num_calls.2),
    {
        let ghost entry = (Call::Outside(i), self.machine@[i as int]);
        proof {
            protocol::lemma_log_push(self.log@, entry);
        }
        self.num_calls.1 = count_call(self.num_calls.1);
        self.machine.set(i, false);
        self.log = Ghost(self.log@.push(entry));
    }

    fn press_button(&mut self) -> (r: usize)
        ensures
            final(self).num_calls == (old(self).num_calls.0, old(self).num_calls.1, next_count(old(self).num_calls.2)),
    {
        proof {
            protocol::lemma_log_push(self.log@, (Call::Press, false));
        }
        self.num_calls.2 = count_call(self.num_calls.2);
        self.log = Ghost(self.log@.push((Call::Press, false)));
        let n = self.types.len();
        let ghost types = self.types@;
        let ghost inside = self.machine@;
        let mut best: usize = 0;
        let mut k: usize = 0;
        while k < n
            invariant
                n == types.len(),
                types == self.types@,
                inside == self.machine@,
                inside.len() == n,
                k <= n,
                best == max_count_upto(types, inside, k as int),
                0 <= best <= n,
            decreases n - k,
        {
            if self.machine[k] {
                let t = self.types[k];
                let mut count: usize = 0;
                let mut j: usize = 0;
                while j < n
                    invariant
                        n == types.len(),
                        types == self.types@,
                        inside == self.machine@,
                        inside.len() == n,
                        j <= n,
                        count == count_type(types, inside, t, j as int),
                        count <= j,
                    decreases n - j,
                {
                    if self.machine[j] && self.types[j] == t {
                        count = count + 1;
                    }
                    j = j + 1;
                }
                if count > best {
                    best = count;
                }
            }
            k = k + 1;
        }
        best
    }
}

/// Runs `solve` against a simulated machine for the given insect types; returns the
/// answer and the largest number of calls made to any one of the machine's operations.
/// That number is the busiest counter of the run's log of calls, a log that keeps the
/// rules of `orderly` and whose first moves inside take each insect once; which log
/// it is depends on the random order in which the insects are tried. It is at least
/// the number of insects. The counters are `i32`, so the insects are fewer than `2^31`.
pub fn run(types: Vec<i32>) -> (res: (usize, i32))
    requires
        1 <= types.len() < 0x8000_0000,
    ensures
        res.0 == rarest(types@),
        res.1 >= types.len(),
        exists|log: Seq<(Call, bool)>|
            #![trigger busiest(log)]
            orderly(log, 0) && covers_once(moved_in(log), 0, types.len() as int) && res.1 == busiest(log)
                && presses(log) == moved_in(log).len() && moved_out(log).len() <= moved_in(log).len()
                && res.1 == saturate(moved_in(log).len()),
{
    let n = types.len();
    let mut machine: Vec<bool> = Vec::new();
    while machine.len() < n
        invariant
            machine.len() <= n,
            forall|k: int| 0 <= k < machine.len() ==> !#[trigger] machine@[k],
        decreases n - machine.len(),
    {
        machine.push(false);
    }
    let mut m = Testcase { types, machine, num_calls: (0, 0, 0), log: Ghost(Seq::empty()) };
    proof {
        assert(moved_in(m.log@) =~= Seq::<usize>::empty());
        assert(moved_out(m.log@) =~= Seq::<usize>::empty());
    }
    let result = solve(n, &mut m);
    let (a, b, c) = m.num_calls;
    let ab = if a > b { a } else { b };
    let num_calls = if ab > c { ab } else { c };
    proof {
        assert(Seq::<(Call, bool)>::empty().len() == 0);
        assert(num_calls == busiest(m.log@));
    }
    (result, num_calls)
}

} // verus!
