//! Extended Euclidean algorithm on `i64`.
use vstd::prelude::*;
use vstd::arithmetic::div_mod::{lemma_fundamental_div_mod, lemma_mod_bound, lemma_div_pos_is_pos};

verus! {

/// Absolute value of a mathematical integer.
pub open spec fn abs(x: int) -> int {
    if x < 0 { -x } else { x }
}

/// Quotient of `x` by `d` rounded toward zero, as Rust's `/` computes it.
pub open spec fn quot_toward_zero(x: int, d: int) -> int {
    if x >= 0 && d > 0 {
        x / d
    } else if x < 0 && d < 0 {
        (-x) / (-d)
    } else if x < 0 {
        -((-x) / d)
    } else {
        -(x / (-d))
    }
}

/// Remainder of `x` by `d` whose sign follows `x`, as Rust's `%` computes it.
pub open spec fn rem_toward_zero(x: int, d: int) -> int {
    if x >= 0 && d > 0 {
        x % d
    } else if x < 0 && d < 0 {
        -((-x) % (-d))
    } else if x < 0 {
        -((-x) % d)
    } else {
        x % (-d)
    }
}

/// `d` divides `x`.
pub open spec fn divides(d: int, x: int) -> bool {
    exists|k: int| #[trigger] (k * d) == x
}

/// The triple `(x, y, d)` that the extended Euclidean recursion yields for `(a, b)`:
/// it stops at `a == b` with `(1, 0, a)` and at `a == 0` with `(0, 1, b)`, and
/// otherwise recurses on `(b rem a, a)`.
pub open spec fn ext_gcd(a: int, b: int) -> (int, int, int)
    decreases abs(a),
{
    if a == b {
        (1, 0, a)
    } else if a == 0 {
        (0, 1, b)
    } else {
        if abs(rem_toward_zero(b, a)) < abs(a) {
            let (x, y, d) = ext_gcd(rem_toward_zero(b, a), a);
            (y - quot_toward_zero(b, a) * x, x, d)
        } else {
            (0, 0, 0)
        }
    }
}

/// Division toward zero: `x == q * d + r`, `|r| < |d|`, `r` has the sign of `x`
/// (or is zero), and `|q * d| == |x| - |r|`.
pub proof fn lemma_toward_zero_division(x: int, d: int)
    requires
        d != 0,
    ensures
        x == quot_toward_zero(x, d) * d + rem_toward_zero(x, d),
        abs(rem_toward_zero(x, d)) < abs(d),
        x >= 0 ==> rem_toward_zero(x, d) >= 0,
        x < 0 ==> rem_toward_zero(x, d) <= 0,
        abs(quot_toward_zero(x, d) * d) == abs(x) - abs(rem_toward_zero(x, d)),
        abs(quot_toward_zero(x, d)) * abs(d) == abs(x) - abs(rem_toward_zero(x, d)),
{
    let ax = abs(x);
    let ad = abs(d);
    lemma_fundamental_div_mod(ax, ad);
    lemma_mod_bound(ax, ad);
    lemma_div_pos_is_pos(ax, ad);
    let q = ax / ad;
    let r = ax % ad;
    assert(ax == ad * q + r);
    assert(q * ad >= 0) by (nonlinear_arith)
        requires q >= 0, ad > 0;
    if x >= 0 && d > 0 {
        assert(x == q * d + r) by (nonlinear_arith)
            requires ax == ad * q + r, ax == x, ad == d;
    } else if x < 0 && d < 0 {
        assert(x == q * d + (-r)) by (nonlinear_arith)
            requires ax == ad * q + r, ax == -x, ad == -d;
        assert(q * d == -(q * ad)) by (nonlinear_arith)
            requires ad == -d;
    } else if x < 0 {
        assert(x == (-q) * d + (-r)) by (nonlinear_arith)
            requires ax == ad * q + r, ax == -x, ad == d;
        assert((-q) * d == -(q * ad)) by (nonlinear_arith)
            requires ad == d;
    } else {
        assert(x == (-q) * d + r) by (nonlinear_arith)
            requires ax == ad * q + r, ax == x, ad == -d;
        assert((-q) * d == q * ad) by (nonlinear_arith)
            requires ad == -d;
    }
}

/// `k * d == x` together with `j * d == y` give `(k*q + j) * d == x*q + y`.
proof fn lemma_divides_combination(d: int, x: int, y: int, q: int)
    requires
        divides(d, x),
        divides(d, y),
    ensures
        divides(d, q * x + y),
{
    let k = choose|k: int| #[trigger] (k * d) == x;
    let j = choose|j: int| #[trigger] (j * d) == y;
    assert((q * k + j) * d == q * x + y) by (nonlinear_arith)
        requires k * d == x, j * d == y;
}

/// What `ext_gcd` yields: Bézout's identity, a common divisor, and bounds on the
/// coefficients.
pub proof fn lemma_ext_gcd(a: int, b: int)
    ensures
        ({
            let (x, y, d) = ext_gcd(a, b);
            &&& a * x + b * y == d
            &&& divides(d, a)
            &&& divides(d, b)
            &&& abs(x) <= if abs(b) > 1 { abs(b) } else { 1 }
            &&& abs(y) <= if abs(a) > 1 { abs(a) } else { 1 }
            &&& (a == 0 && b != 0 ==> x == 0 && y == 1)
        }),
    decreases abs(a),
{
    if a == b {
        assert(a * 1 + b * 0 == a);
        assert(1 * a == a);
        assert(divides(a, a));
    } else if a == 0 {
        assert(a * 0 + b * 1 == b);
        assert(1 * b == b);
        assert(0 * b == 0);
        assert(divides(b, b));
        assert(divides(b, 0));
    } else {
        lemma_toward_zero_division(b, a);
        let r = rem_toward_zero(b, a);
        let q = quot_toward_zero(b, a);
        lemma_ext_gcd(r, a);
        let (x1, y1, d) = ext_gcd(r, a);
        assert(ext_gcd(a, b) == (y1 - q * x1, x1, d));
        // Bézout: a * (y1 - q x1) + b * x1 == r x1 + a y1.
        assert(a * (y1 - q * x1) + b * x1 == r * x1 + a * y1) by (nonlinear_arith)
            requires b == q * a + r;
        // d divides b = q * a + r.
        lemma_divides_combination(d, a, r, q);
        assert(q * a + r == b);
        // Bounds.
        let x = y1 - q * x1;
        if r == 0 {
            assert(x1 == 0 && y1 == 1);
            assert(q * x1 == 0);
            assert(x == 1);
        } else {
            assert(abs(q * x1) <= abs(q) * abs(a)) by (nonlinear_arith)
                requires abs(x1) <= abs(a), abs(a) >= 1;
            assert(abs(x) <= abs(y1) + abs(q * x1));
            assert(abs(x) <= abs(b));
        }
        assert(a * x + b * x1 == d);
        assert(abs(x1) <= abs(a));
    }
}

/// The number of binary digits of `x` (`0` for `x <= 0`).
pub open spec fn bits(x: int) -> nat
    decreases x,
{
    if x <= 0 {
        0
    } else {
        1 + bits(x / 2)
    }
}

/// A bound on how deep `euclid(a, b)` recurses: the binary digits of `|a|` and `|b|`,
/// and one more while `|a| > |b|`. Each recursive call lowers it by at least one.
pub open spec fn euclid_depth(a: int, b: int) -> nat {
    bits(abs(a)) + bits(abs(b)) + if abs(a) > abs(b) {
        1nat
    } else {
        0nat
    }
}

proof fn lemma_bits_mono(x: int, y: int)
    requires
        0 <= x <= y,
    ensures
        bits(x) <= bits(y),
    decreases y,
{
    if x > 0 {
        lemma_bits_mono(x / 2, y / 2);
    }
}

proof fn lemma_bits_half(x: int, y: int)
    requires
        0 <= x,
        2 * x < y,
    ensures
        bits(x) + 1 <= bits(y),
{
    lemma_bits_mono(x, y / 2);
}

/// One step of the recursion, from `(a, b)` to `(b rem a, a)`, lowers the depth bound.
proof fn lemma_euclid_step(a: int, b: int)
    requires
        a != b,
        a != 0,
    ensures
        euclid_depth(rem_toward_zero(b, a), a) < euclid_depth(a, b),
{
    lemma_toward_zero_division(b, a);
    let r = rem_toward_zero(b, a);
    let q = abs(quot_toward_zero(b, a));
    assert(q * abs(a) == abs(b) - abs(r));
    if abs(a) > abs(b) {
        if q >= 1 {
            assert(q * abs(a) >= abs(a)) by (nonlinear_arith)
                requires q >= 1, abs(a) >= 0;
        } else {
            assert(q * abs(a) == 0) by (nonlinear_arith)
                requires q == 0;
        }
        assert(abs(r) == abs(b));
    } else {
        if q == 0 {
            assert(q * abs(a) == 0) by (nonlinear_arith)
                requires q == 0;
        }
        assert(q * abs(a) >= abs(a)) by (nonlinear_arith)
            requires q >= 1, abs(a) >= 0;
        lemma_bits_half(abs(r), abs(b));
    }
}

/// `euclid(a, b)` recurses at most `2 * bits(max(|a|, |b|)) + 1` calls deep: a number
/// of calls logarithmic in its arguments.
pub proof fn law_euclid_depth(a: int, b: int)
    ensures
        euclid_depth(a, b) <= 2 * bits(if abs(a) > abs(b) { abs(a) } else { abs(b) }) + 1,
{
    lemma_bits_mono(abs(a), if abs(a) > abs(b) { abs(a) } else { abs(b) });
    lemma_bits_mono(abs(b), if abs(a) > abs(b) { abs(a) } else { abs(b) });
}

/// Extended Euclidean algorithm: returns `(x, y, d)` with `a*x + b*y == d`,
/// where `d` divides both `a` and `b` (so `|d|` is their greatest common divisor).
/// Each recursive call lowers `euclid_depth(a, b)` (the `decreases` clause), so the
/// recursion is logarithmic in `|a|` and `|b|` (`law_euclid_depth`).
pub fn euclid(a: i64, b: i64) -> (res: (i64, i64, i64))
    requires
        (a != i64::MIN && b != i64::MIN) || a == b || a == 0,
    ensures
        a * res.0 + b * res.1 == res.2,
        divides(res.2 as int, a as int),
        divides(res.2 as int, b as int),
        (res.0 as int, res.1 as int, res.2 as int) == ext_gcd(a as int, b as int),
    decreases euclid_depth(a as int, b as int),
{
    proof {
        lemma_ext_gcd(a as int, b as int);
    }
    if a == b {
        return (1, 0, a);
    }
    if a == 0 {
        return (0, 1, b);
    }
    proof {
        lemma_toward_zero_division(b as int, a as int);
        lemma_euclid_step(a as int, b as int);
    }
    let r = match b.checked_rem(a) {
        Some(r) => r,
        None => 0,
    };
    let q = match b.checked_div(a) {
        Some(q) => q,
        None => 0,
    };
    let (x, y, d) = euclid(r, a);
    proof {
        lemma_ext_gcd(r as int, a as int);
        let qq = q as int;
        if r == 0 {
            assert(x == 0);
            assert(qq * x == 0) by (nonlinear_arith)
                requires x == 0;
        } else {
            assert(abs(qq * x) <= abs(qq) * abs(a as int)) by (nonlinear_arith)
                requires abs(x as int) <= abs(a as int), abs(a as int) >= 1;
        }
        assert(abs(qq * x) <= abs(b as int));
        assert(abs(y - qq * x) <= abs(b as int) + 1);
    }
    (y - q * x, x, d)
}

} // verus!
