//! A stable sort of positions by key: merge sort on the indices `0..keys.len()`.
use vstd::prelude::*;

verus! {

/// Index `a` comes before index `b`: by key, and by index among equal keys.
pub open spec fn before(keys: Seq<i64>, a: int, b: int) -> bool {
    keys[a] < keys[b] || (keys[a] == keys[b] && a < b)
}

/// `s` lists indices strictly increasing in the `before` order.
pub open spec fn ordered(keys: Seq<i64>, s: Seq<usize>) -> bool {
    forall|i: int, j: int| 0 <= i < j < s.len() ==> before(keys, #[trigger] s[i] as int, #[trigger] s[j] as int)
}

proof fn lemma_before_trans(keys: Seq<i64>, a: int, b: int, c: int)
    requires
        before(keys, a, b),
        before(keys, b, c),
    ensures
        before(keys, a, c),
{
}

pub proof fn lemma_push_contains(s: Seq<usize>, y: usize, x: usize)
    ensures
        s.push(y).contains(x) <==> s.contains(x) || x == y,
{
    if s.contains(x) {
        let k = choose|k: int| 0 <= k < s.len() && s[k] == x;
        assert(s.push(y)[k] == x);
    }
    if x == y {
        assert(s.push(y)[s.len() as int] == x);
    }
    if s.push(y).contains(x) {
        let k = choose|k: int| 0 <= k < s.len() + 1 && s.push(y)[k] == x;
        if k < s.len() {
            assert(s[k] == x);
        }
    }
}

/// Merges two ordered lists of indices.
fn merge(keys: &Vec<i64>, a: Vec<usize>, b: Vec<usize>) -> (r: Vec<usize>)
    requires
        ordered(keys@, a@),
        ordered(keys@, b@),
        forall|i: int| 0 <= i < a.len() ==> #[trigger] a@[i] < keys.len(),
        forall|i: int| 0 <= i < b.len() ==> #[trigger] b@[i] < keys.len(),
        a.len() + b.len() <= usize::MAX,
        forall|x: usize| #[trigger] a@.contains(x) ==> !b@.contains(x),
    ensures
        ordered(keys@, r@),
        r.len() == a.len() + b.len(),
        forall|x: usize| #[trigger] r@.contains(x) <==> a@.contains(x) || b@.contains(x),
{
    let mut r: Vec<usize> = Vec::new();
    let mut i: usize = 0;
    let mut j: usize = 0;
    while i < a.len() || j < b.len()
        invariant
            ordered(keys@, a@),
            ordered(keys@, b@),
            forall|k: int| 0 <= k < a.len() ==> #[trigger] a@[k] < keys.len(),
            forall|k: int| 0 <= k < b.len() ==> #[trigger] b@[k] < keys.len(),
            i <= a.len(),
            j <= b.len(),
            forall|x: usize| #[trigger] a@.contains(x) ==> !b@.contains(x),
            r.len() == i + j,
            ordered(keys@, r@),
            forall|x: usize| #[trigger] r@.contains(x) <==> a@.subrange(0, i as int).contains(x)
                || b@.subrange(0, j as int).contains(x),
            r.len() > 0 && i < a.len() ==> before(keys@, r@.last() as int, a@[i as int] as int),
            r.len() > 0 && j < b.len() ==> before(keys@, r@.last() as int, b@[j as int] as int),
        decreases a.len() + b.len() - i - j,
    {
        let ghost r0 = r@;
        let take_a = if i < a.len() && j < b.len() {
            let x = a[i];
            let y = b[j];
            keys[x] < keys[y] || (keys[x] == keys[y] && x < y)
        } else {
            i < a.len()
        };
        if take_a {
            r.push(a[i]);
            proof {
                assert forall|k1: int, k2: int| 0 <= k1 < k2 < r@.len() implies before(keys@, #[trigger] r@[k1] as int, #[trigger] r@[k2] as int) by {
                    if k2 == r@.len() - 1 && k1 < k2 {
                        if k1 < r0.len() - 1 {
                            assert(before(keys@, r0[k1] as int, r0.last() as int));
                            lemma_before_trans(keys@, r0[k1] as int, r0.last() as int, a@[i as int] as int);
                        }
                    } else {
                        assert(r@[k1] == r0[k1]);
                    }
                }
                assert forall|x: usize| #[trigger] r@.contains(x) <==> a@.subrange(0, i + 1).contains(x)
                    || b@.subrange(0, j as int).contains(x) by {
                    assert(a@.subrange(0, i + 1) =~= a@.subrange(0, i as int).push(a@[i as int]));
                    assert(r@ =~= r0.push(a@[i as int]));
                    lemma_push_contains(r0, a@[i as int], x);
                    lemma_push_contains(a@.subrange(0, i as int), a@[i as int], x);
                    assert(r0.contains(x) <==> a@.subrange(0, i as int).contains(x) || b@.subrange(0, j as int).contains(x));
                }
                if i + 1 < a.len() {
                    assert(before(keys@, a@[i as int] as int, a@[i + 1] as int));
                }
            }
            i = i + 1;
        } else {
            proof {
                if i < a.len() {
                    assert(a@.contains(a@[i as int]));
                    assert(a@[i as int] != b@[j as int]);
                }
            }
            r.push(b[j]);
            proof {
                assert forall|k1: int, k2: int| 0 <= k1 < k2 < r@.len() implies before(keys@, #[trigger] r@[k1] as int, #[trigger] r@[k2] as int) by {
                    if k2 == r@.len() - 1 && k1 < k2 {
                        if k1 < r0.len() - 1 {
                            assert(before(keys@, r0[k1] as int, r0.last() as int));
                            lemma_before_trans(keys@, r0[k1] as int, r0.last() as int, b@[j as int] as int);
                        }
                    } else {
                        assert(r@[k1] == r0[k1]);
                    }
                }
                assert forall|x: usize| #[trigger] r@.contains(x) <==> a@.subrange(0, i as int).contains(x)
                    || b@.subrange(0, j + 1).contains(x) by {
                    assert(b@.subrange(0, j + 1) =~= b@.subrange(0, j as int).push(b@[j as int]));
                    assert(r@ =~= r0.push(b@[j as int]));
                    lemma_push_contains(r0, b@[j as int], x);
                    lemma_push_contains(b@.subrange(0, j as int), b@[j as int], x);
                    assert(r0.contains(x) <==> a@.subrange(0, i as int).contains(x) || b@.subrange(0, j as int).contains(x));
                }
                if j + 1 < b.len() {
                    assert(before(keys@, b@[j as int] as int, b@[j + 1] as int));
                }
            }
            j = j + 1;
        }
    }
    proof {
        assert(a@.subrange(0, i as int) =~= a@);
        assert(b@.subrange(0, j as int) =~= b@);
    }
    r
}

/// Sorts the indices `lo..hi` by key, stably.
fn sort_range(keys: &Vec<i64>, lo: usize, hi: usize) -> (r: Vec<usize>)
    requires
        lo <= hi <= keys.len(),
    ensures
        ordered(keys@, r@),
        r.len() == hi - lo,
        forall|x: usize| #[trigger] r@.contains(x) <==> lo <= x < hi,
    decreases hi - lo,
{
    if hi - lo <= 1 {
        let mut r: Vec<usize> = Vec::new();
        if hi - lo == 1 {
            r.push(lo);
        }
        proof {
            assert forall|x: usize| #[trigger] r@.contains(x) <==> lo <= x < hi by {
                if lo <= x < hi {
                    assert(r@[0] == x);
                }
            }
        }
        return r;
    }
    let m = lo + (hi - lo) / 2;
    let a = sort_range(keys, lo, m);
    let b = sort_range(keys, m, hi);
    proof {
        assert forall|x: usize| #[trigger] a@.contains(x) implies !b@.contains(x) by {}
        assert forall|i: int| 0 <= i < a.len() implies #[trigger] a@[i] < keys.len() by {
            assert(a@.contains(a@[i]));
        }
        assert forall|i: int| 0 <= i < b.len() implies #[trigger] b@[i] < keys.len() by {
            assert(b@.contains(b@[i]));
        }
    }
    merge(keys, a, b)
}

/// The indices `0..keys.len()` ordered by key, and by index among equal keys.
pub fn sort_indices_by_key(keys: &Vec<i64>) -> (r: Vec<usize>)
    ensures
        r.len() == keys.len(),
        ordered(keys@, r@),
        forall|i: int| 0 <= i < r.len() ==> #[trigger] r@[i] < keys.len(),
        forall|x: usize| x < keys.len() ==> #[trigger] r@.contains(x),
{
    let r = sort_range(keys, 0, keys.len());
    proof {
        assert forall|i: int| 0 <= i < r.len() implies #[trigger] r@[i] < keys.len() by {
            assert(r@.contains(r@[i]));
        }
    }
    r
}

} // verus!
