//! Dungeons game: a hero moves through dungeons `0..n`, fighting the opponent of
//! each; winning sends it on to `w[i]`, losing to `l[i]`, and either way its strength
//! grows. The run ends at dungeon `n`. The answers are computed by binary lifting,
//! in phases by the powers of two of the hero's strength.
use vstd::prelude::*;
use crate::candies::segtree::{pow_two, lemma_pow_two_mono};

verus! {

pub const J_BOUND: usize = 25;
pub const K_BOUND: usize = 25;

/// Larger than every strength a hero reaches.
pub const CAP: i64 = 0x1_0000_0000_0000;

/// The largest opponent strength or strength gain.
pub open spec fn max_stat() -> int {
    10_000_000
}

/// The largest number of dungeons.
pub open spec fn max_dungeons() -> int {
    28_147_495
}

#[derive(Copy, Clone)]
pub struct Entry {
    pub ending_dungeon: i32,
    /// This simulation is "valid" only for starting strengths >= 2^k and <= this value.
    pub max_starting_strength: i64,
    pub gained_strength: i64,
}

/// The game is well formed: `n` dungeons, opponents and gains between `1` and
/// `max_stat()`, winning always leads further on, and losing leads to a dungeon.
pub open spec fn game_ok(s: Seq<i32>, p: Seq<i32>, w: Seq<i32>, l: Seq<i32>) -> bool {
    &&& 1 <= s.len() <= max_dungeons()
    &&& p.len() == s.len()
    &&& w.len() == s.len()
    &&& l.len() == s.len()
    &&& forall|i: int|
        0 <= i < s.len() ==> {
            &&& 1 <= #[trigger] s[i] <= max_stat()
            &&& 1 <= p[i] <= max_stat()
            &&& i < w[i] <= s.len()
            &&& 0 <= l[i] <= s.len()
        }
}

/// One move of the hero at dungeon `x` with strength `z`; dungeon `n` is final.
pub open spec fn step(s: Seq<i32>, p: Seq<i32>, w: Seq<i32>, l: Seq<i32>, x: int, z: int) -> (int, int) {
    if x < 0 || x >= s.len() {
        (x, z)
    } else if z >= s[x] {
        (w[x] as int, z + s[x])
    } else {
        (l[x] as int, z + p[x])
    }
}

/// The hero's dungeon and strength after `t` moves.
pub open spec fn run(s: Seq<i32>, p: Seq<i32>, w: Seq<i32>, l: Seq<i32>, x: int, z: int, t: nat) -> (int, int)
    decreases t,
{
    if t == 0 {
        (x, z)
    } else {
        let (x1, z1) = step(s, p, w, l, x, z);
        run(s, p, w, l, x1, z1, (t - 1) as nat)
    }
}

/// In the phase for threshold `th`, the move at `(x, z)` is predicted by the
/// threshold: the hero beats exactly the opponents of strength at most `th`, and its
/// strength is at most `CAP`.
pub open spec fn predicted(s: Seq<i32>, th: int, x: int, z: int) -> bool {
    z <= CAP && (x < 0 || x >= s.len() || s[x] <= th || z < s[x])
}

/// The next `t` moves from `(x, z)` are all predicted by the threshold.
pub open spec fn valid(s: Seq<i32>, p: Seq<i32>, w: Seq<i32>, l: Seq<i32>, th: int, x: int, z: int, t: nat) -> bool
    decreases t,
{
    if t == 0 {
        true
    } else {
        let (x1, z1) = step(s, p, w, l, x, z);
        predicted(s, th, x, z) && valid(s, p, w, l, th, x1, z1, (t - 1) as nat)
    }
}

pub proof fn lemma_run_add(s: Seq<i32>, p: Seq<i32>, w: Seq<i32>, l: Seq<i32>, x: int, z: int, a: nat, b: nat)
    ensures
        run(s, p, w, l, x, z, a + b) == ({
            let (x1, z1) = run(s, p, w, l, x, z, a);
            run(s, p, w, l, x1, z1, b)
        }),
    decreases a,
{
    if a > 0 {
        let (x1, z1) = step(s, p, w, l, x, z);
        lemma_run_add(s, p, w, l, x1, z1, (a - 1) as nat, b);
        assert((a + b - 1) as nat == (a - 1) as nat + b);
    }
}

pub proof fn lemma_valid_add(s: Seq<i32>, p: Seq<i32>, w: Seq<i32>, l: Seq<i32>, th: int, x: int, z: int, a: nat, b: nat)
    ensures
        valid(s, p, w, l, th, x, z, a + b) == (valid(s, p, w, l, th, x, z, a) && ({
            let (x1, z1) = run(s, p, w, l, x, z, a);
            valid(s, p, w, l, th, x1, z1, b)
        })),
    decreases a,
{
    if a > 0 {
        let (x1, z1) = step(s, p, w, l, x, z);
        lemma_valid_add(s, p, w, l, th, x1, z1, (a - 1) as nat, b);
        assert((a + b - 1) as nat == (a - 1) as nat + b);
    }
}

/// The final dungeon is never left.
pub proof fn lemma_run_at_end(s: Seq<i32>, p: Seq<i32>, w: Seq<i32>, l: Seq<i32>, z: int, t: nat)
    ensures
        run(s, p, w, l, s.len() as int, z, t) == (s.len() as int, z),
    decreases t,
{
    if t > 0 {
        lemma_run_at_end(s, p, w, l, z, (t - 1) as nat);
    }
}

/// Moves keep the hero among the dungeons, and each move away from the final dungeon
/// gains at least one and at most `max_stat()`.
pub proof fn lemma_run_bounds(s: Seq<i32>, p: Seq<i32>, w: Seq<i32>, l: Seq<i32>, x: int, z: int, t: nat)
    requires
        game_ok(s, p, w, l),
        0 <= x <= s.len(),
    ensures
        ({
            let (x1, z1) = run(s, p, w, l, x, z, t);
            &&& 0 <= x1 <= s.len()
            &&& z <= z1 <= z + max_stat() * t
            &&& x1 != s.len() ==> z + t <= z1
        }),
    decreases t,
{
    if t > 0 {
        let (xa, za) = step(s, p, w, l, x, z);
        if x < s.len() {
            assert(1 <= s[x] <= max_stat());
        }
        lemma_run_bounds(s, p, w, l, xa, za, (t - 1) as nat);
        assert(max_stat() * t == max_stat() * (t - 1) + max_stat()) by (nonlinear_arith);
        if xa == s.len() {
            lemma_run_at_end(s, p, w, l, za, (t - 1) as nat);
        }
    }
}

/// Along any run the strength stays at most `2 * max_stat()` plus `max_stat()` for
/// each dungeon before the current one: a hero loses only while weaker than
/// `max_stat()`, and each win moves it on by at least one dungeon.
pub proof fn lemma_run_strength(s: Seq<i32>, p: Seq<i32>, w: Seq<i32>, l: Seq<i32>, x: int, z: int, t: nat)
    requires
        game_ok(s, p, w, l),
        0 <= x <= s.len(),
        z <= 2 * max_stat() + max_stat() * x,
    ensures
        ({
            let (x1, z1) = run(s, p, w, l, x, z, t);
            z1 <= 2 * max_stat() + max_stat() * x1
        }),
    decreases t,
{
    if t > 0 {
        let (xa, za) = step(s, p, w, l, x, z);
        if x < s.len() {
            assert(1 <= s[x] <= max_stat() && 1 <= p[x] <= max_stat());
            assert(x < w[x] <= s.len() && 0 <= l[x] <= s.len());
        }
        lemma_run_strength(s, p, w, l, xa, za, (t - 1) as nat);
    }
}

/// What a table entry promises for `2^j` moves from dungeon `i` in the phase with
/// threshold `th`: from every strength `z >= th`, the moves are predicted exactly when
/// `z` is at most the entry's maximum, and then they end at the entry's dungeon with
/// the entry's gain.
pub open spec fn entry_ok(s: Seq<i32>, p: Seq<i32>, w: Seq<i32>, l: Seq<i32>, th: int, j: nat, i: int, e: Entry) -> bool {
    &&& 0 <= e.ending_dungeon <= s.len()
    &&& 0 <= e.gained_strength <= max_stat() * pow_two(j)
    &&& -(max_stat() * pow_two(j)) <= e.max_starting_strength <= CAP
    &&& forall|z: int|
        th <= z ==> (#[trigger] valid(s, p, w, l, th, i, z, pow_two(j)) <==> z <= e.max_starting_strength)
    &&& forall|z: int|
        th <= z <= e.max_starting_strength ==> #[trigger] run(s, p, w, l, i, z, pow_two(j)) == (
            e.ending_dungeon as int,
            z + e.gained_strength,
        )
}


/// The entry for a single move.
pub open spec fn base_entry(s: Seq<i32>, p: Seq<i32>, w: Seq<i32>, l: Seq<i32>, th: int, i: int) -> Entry {
    if i >= s.len() {
        Entry { ending_dungeon: s.len() as i32, max_starting_strength: CAP, gained_strength: 0 }
    } else if s[i] <= th {
        Entry { ending_dungeon: w[i], max_starting_strength: CAP, gained_strength: s[i] as i64 }
    } else {
        Entry { ending_dungeon: l[i], max_starting_strength: (s[i] - 1) as i64, gained_strength: p[i] as i64 }
    }
}

/// The entry for `2^j` moves made of the entries for the two halves.
pub open spec fn combine(e1: Entry, e2: Entry) -> Entry {
    Entry {
        ending_dungeon: e2.ending_dungeon,
        max_starting_strength: if e1.max_starting_strength <= e2.max_starting_strength - e1.gained_strength {
            e1.max_starting_strength
        } else {
            (e2.max_starting_strength - e1.gained_strength) as i64
        },
        gained_strength: (e1.gained_strength + e2.gained_strength) as i64,
    }
}

pub proof fn lemma_base_entry(s: Seq<i32>, p: Seq<i32>, w: Seq<i32>, l: Seq<i32>, th: int, i: int)
    requires
        game_ok(s, p, w, l),
        0 <= i <= s.len(),
        1 <= th,
    ensures
        entry_ok(s, p, w, l, th, 0, i, base_entry(s, p, w, l, th, i)),
{
    let e = base_entry(s, p, w, l, th, i);
    assert(pow_two(0) == 1);
    reveal_with_fuel(valid, 2);
    reveal_with_fuel(run, 2);
    if i < s.len() {
        assert(1 <= s[i] <= max_stat());
    }
    assert forall|z: int| th <= z implies (#[trigger] valid(s, p, w, l, th, i, z, pow_two(0)) <==> z <= e.max_starting_strength) by {
        assert(valid(s, p, w, l, th, i, z, 1) == predicted(s, th, i, z));
    }
    assert forall|z: int| th <= z <= e.max_starting_strength implies #[trigger] run(s, p, w, l, i, z, pow_two(0)) == (
        e.ending_dungeon as int,
        z + e.gained_strength,
    ) by {
        assert(run(s, p, w, l, i, z, 1) == step(s, p, w, l, i, z));
    }
}

pub proof fn lemma_combine(s: Seq<i32>, p: Seq<i32>, w: Seq<i32>, l: Seq<i32>, th: int, j: nat, i: int, e1: Entry, e2: Entry)
    requires
        1 <= j,
        pow_two(j) <= 0x100_0000,
        entry_ok(s, p, w, l, th, (j - 1) as nat, i, e1),
        entry_ok(s, p, w, l, th, (j - 1) as nat, e1.ending_dungeon as int, e2),
    ensures
        entry_ok(s, p, w, l, th, j, i, combine(e1, e2)),
{
    let h = pow_two((j - 1) as nat);
    let e = combine(e1, e2);
    let g1 = e1.gained_strength as int;
    assert(pow_two(j) == h + h);
    assert(max_stat() * pow_two(j) == max_stat() * h + max_stat() * h) by (nonlinear_arith)
        requires pow_two(j) == h + h;
    assert(max_stat() * h <= max_stat() * 0x100_0000) by (nonlinear_arith)
        requires h <= 0x100_0000;
    let bound = max_stat() * h;
    assert(bound <= 167_772_160_000_000);
    assert(-bound <= e2.max_starting_strength <= CAP);
    assert(0 <= g1 <= bound);
    assert(i64::MIN <= e2.max_starting_strength - g1 <= i64::MAX);
    assert(e.max_starting_strength == if e1.max_starting_strength <= e2.max_starting_strength - g1 {
        e1.max_starting_strength as int
    } else {
        e2.max_starting_strength - g1
    });
    assert(e.gained_strength == g1 + e2.gained_strength);
    assert forall|z: int| th <= z implies (#[trigger] valid(s, p, w, l, th, i, z, pow_two(j)) <==> z <= e.max_starting_strength) by {
        lemma_valid_add(s, p, w, l, th, i, z, h, h);
        if z <= e1.max_starting_strength {
            assert(run(s, p, w, l, i, z, h) == (e1.ending_dungeon as int, z + g1));
            assert(valid(s, p, w, l, th, e1.ending_dungeon as int, z + g1, h) <==> z + g1 <= e2.max_starting_strength);
        } else {
            assert(!valid(s, p, w, l, th, i, z, h));
        }
    }
    assert forall|z: int| th <= z <= e.max_starting_strength implies #[trigger] run(s, p, w, l, i, z, pow_two(j)) == (
        e.ending_dungeon as int,
        z + e.gained_strength,
    ) by {
        lemma_run_add(s, p, w, l, i, z, h, h);
        assert(run(s, p, w, l, i, z, h) == (e1.ending_dungeon as int, z + g1));
        assert(run(s, p, w, l, e1.ending_dungeon as int, z + g1, h) == (
            e2.ending_dungeon as int,
            z + g1 + e2.gained_strength,
        ));
    }
}


/// Once the hero beats every opponent, each move is a win: the dungeon grows by at
/// least one per move until the end, and the strength grows by at most `max_stat()`
/// per dungeon passed.
pub proof fn lemma_run_winning(s: Seq<i32>, p: Seq<i32>, w: Seq<i32>, l: Seq<i32>, th: int, x: int, z: int, t: nat)
    requires
        game_ok(s, p, w, l),
        0 <= x <= s.len(),
        max_stat() <= th <= z,
    ensures
        ({
            let (x1, z1) = run(s, p, w, l, x, z, t);
            &&& x1 == s.len() || x + t <= x1
            &&& x <= x1 <= s.len()
            &&& z <= z1 <= z + max_stat() * (x1 - x)
        }),
    decreases t,
{
    if t > 0 {
        if x == s.len() {
            lemma_run_at_end(s, p, w, l, z, t);
        } else {
            assert(1 <= s[x] <= max_stat());
            assert(x < w[x] <= s.len());
            let (xa, za) = step(s, p, w, l, x, z);
            lemma_run_winning(s, p, w, l, th, xa, za, (t - 1) as nat);
            let (x1, z1) = run(s, p, w, l, xa, za, (t - 1) as nat);
            assert(max_stat() * (x1 - xa) + max_stat() <= max_stat() * (x1 - x)) by (nonlinear_arith)
                requires xa >= x + 1;
        }
    }
}

/// In the last phase every move is predicted as long as the strength stays at most
/// `CAP`, which it does from a strength that leaves room for `n` more gains.
pub proof fn lemma_last_phase_valid(s: Seq<i32>, p: Seq<i32>, w: Seq<i32>, l: Seq<i32>, th: int, x: int, z: int, t: nat)
    requires
        game_ok(s, p, w, l),
        0 <= x <= s.len(),
        max_stat() <= th <= z,
        z + max_stat() * (s.len() - x) <= CAP,
    ensures
        valid(s, p, w, l, th, x, z, t),
    decreases t,
{
    if t > 0 {
        let (xa, za) = step(s, p, w, l, x, z);
        if x < s.len() {
            assert(1 <= s[x] <= max_stat());
            assert(x < w[x] <= s.len());
            assert(za + max_stat() * (s.len() - xa) <= CAP) by (nonlinear_arith)
                requires za <= z + max_stat(), xa >= x + 1, z + max_stat() * (s.len() - x) <= CAP;
        }
        lemma_last_phase_valid(s, p, w, l, th, xa, za, (t - 1) as nat);
    }
}


/// A hero starting at dungeon `x` with strength `z` reaches the final dungeon with
/// strength `r`.
pub open spec fn ends_with(s: Seq<i32>, p: Seq<i32>, w: Seq<i32>, l: Seq<i32>, x: int, z: int, r: int) -> bool {
    exists|t: nat| #[trigger] run(s, p, w, l, x, z, t) == (s.len() as int, r)
}

/// A bound on the strength of every hero in the game: see `lemma_run_strength`.
pub open spec fn strength_cap() -> int {
    2 * max_stat() + max_stat() * max_dungeons()
}

proof fn lemma_pow_two_values()
    ensures
        pow_two(24) == 0x100_0000,
        pow_two(25) == 0x200_0000,
{
    reveal_with_fuel(pow_two, 26);
}

/// The table for the phase with threshold `th` is complete: entry `(j, i)` describes
/// `2^j` moves from dungeon `i`.
pub open spec fn table_ok(s: Seq<i32>, p: Seq<i32>, w: Seq<i32>, l: Seq<i32>, th: int, dp: Seq<Vec<Entry>>, rows: int) -> bool {
    &&& dp.len() == J_BOUND
    &&& forall|j: int| 0 <= j < J_BOUND ==> (#[trigger] dp[j]).len() == s.len() + 1
    &&& forall|j: int, i: int|
        0 <= j < rows && 0 <= i <= s.len() ==> entry_ok(s, p, w, l, th, j as nat, i, #[trigger] dp[j]@[i])
}

/// A query's state before a phase: the hero is at dungeon `x` with strength `z`
/// after `t` moves from its start, and has either finished or reached the phase's
/// threshold.
pub open spec fn query_ok(s: Seq<i32>, p: Seq<i32>, w: Seq<i32>, l: Seq<i32>, start: (i32, i32), cur: (i32, i64), t: nat, th: int, cap: int) -> bool {
    &&& 0 <= cur.0 <= s.len()
    &&& run(s, p, w, l, start.0 as int, start.1 as int, t) == (cur.0 as int, cur.1 as int)
    &&& cur.0 == s.len() || th <= cur.1
    &&& 1 <= cur.1 <= cap
    &&& cur.1 <= 2 * max_stat() + max_stat() * cur.0
}

/// Where the lifting of one phase leaves a hero: finished, strong enough for the next
/// phase, or facing an opponent it beats and whose strength takes it there. In the
/// last phase every hero finishes.
proof fn lemma_phase_end(
    s: Seq<i32>,
    p: Seq<i32>,
    w: Seq<i32>,
    l: Seq<i32>,
    th: int,
    k: int,
    x0: int,
    z0: int,
    steps: nat,
    jj: nat,
)
    requires
        game_ok(s, p, w, l),
        0 <= k < K_BOUND,
        th == pow_two(k as nat),
        1 <= th <= 0x100_0000,
        k + 1 == K_BOUND ==> th == 0x100_0000,
        pow_two(25) == 0x200_0000,
        0 <= x0 < s.len(),
        th <= z0 <= strength_cap(),
        z0 <= 2 * max_stat() + max_stat() * x0,
        jj == 0 || run(s, p, w, l, x0, z0, steps).0 == s.len() || (k + 1 < K_BOUND && run(s, p, w, l, x0, z0, steps).1 >= 2 * th),
        steps + pow_two(jj) <= pow_two(25),
        !valid(s, p, w, l, th, run(s, p, w, l, x0, z0, steps).0, run(s, p, w, l, x0, z0, steps).1, pow_two(jj)) || steps + pow_two(jj) >= pow_two(25),
        k + 1 < K_BOUND ==> run(s, p, w, l, x0, z0, steps).1 <= strength_cap(),
    ensures
        ({
            let (x, z) = run(s, p, w, l, x0, z0, steps);
            &&& k + 1 < K_BOUND ==> (x == s.len() || z >= 2 * th || (0 <= x < s.len() && s[x] <= z && z + s[x] >= 2 * th))
            &&& k + 1 == K_BOUND ==> x == s.len() && z <= CAP
        }),
{
    let (x, z) = run(s, p, w, l, x0, z0, steps);
    lemma_run_bounds(s, p, w, l, x0, z0, steps);
    assert(pow_two(0) == 1);
    reveal_with_fuel(valid, 2);
    if k + 1 < K_BOUND {
        if x != s.len() && z < 2 * th {
            assert(jj == 0);
            if steps + 1 >= pow_two(25) {
                assert(z >= z0 + steps);
            } else {
                assert(!valid(s, p, w, l, th, x, z, 1));
                assert(!predicted(s, th, x, z));
            }
        }
    } else {
        lemma_run_winning(s, p, w, l, th, x0, z0, steps);
        assert(max_stat() * (s.len() - x0) <= max_stat() * max_dungeons()) by (nonlinear_arith)
            requires s.len() - x0 <= max_dungeons();
        assert(max_stat() * (x - x0) <= max_stat() * (s.len() - x0)) by (nonlinear_arith)
            requires x <= s.len();
        if x != s.len() {
            assert(jj == 0);
            lemma_last_phase_valid(s, p, w, l, th, x0, z0, steps + 1);
            lemma_valid_add(s, p, w, l, th, x0, z0, steps, 1);
        }
    }
}

/// Answers each query `(x, z)`: the strength of a hero that starts at dungeon `x`
/// with strength `z` when it reaches dungeon `n`.
pub fn solve(
    n: i32,
    s: Vec<i32>,
    p: Vec<i32>,
    w: Vec<i32>,
    l: Vec<i32>,
    queries: Vec<(i32, i32)>,
) -> (result: Vec<i64>)
    requires
        n == s.len(),
        game_ok(s@, p@, w@, l@),
        forall|q: int| 0 <= q < queries.len() ==> 0 <= (#[trigger] queries@[q]).0 <= n && 1 <= queries@[q].1 <= max_stat(),
    ensures
        result.len() == queries.len(),
        forall|q: int|
            0 <= q < queries.len() ==> #[trigger] ends_with(s@, p@, w@, l@, queries@[q].0 as int, queries@[q].1 as int, result@[q] as int),
{
    let ghost (gs, gp, gw, gl) = (s@, p@, w@, l@);
    let nu = n as usize;
    proof {
        lemma_pow_two_values();
    }

    // dp[j][i] = simulation starting at i, with 2^j steps; no strength increase, we
    //            beat opponents iff their strength is <= 2^k.
    let mut dp: Vec<Vec<Entry>> = Vec::with_capacity(J_BOUND);
    let mut j: usize = 0;
    while j < J_BOUND
        invariant
            dp.len() == j <= J_BOUND,
            nu <= max_dungeons(),
            forall|jj: int| 0 <= jj < j ==> (#[trigger] dp@[jj]).len() == nu + 1,
        decreases J_BOUND - j,
    {
        let mut row: Vec<Entry> = Vec::with_capacity(nu + 1);
        while row.len() <= nu
            invariant
                row.len() <= nu + 1,
            decreases nu + 1 - row.len(),
        {
            row.push(Entry { ending_dungeon: 0, max_starting_strength: 0, gained_strength: 0 });
        }
        dp.push(row);
        j = j + 1;
    }

    let mut qs: Vec<(i32, i64)> = Vec::with_capacity(queries.len());
    let mut qi: usize = 0;
    while qi < queries.len()
        invariant
            qi <= queries.len(),
            qs.len() == qi,
            forall|q: int| 0 <= q < qi ==> (#[trigger] qs@[q]).0 == queries@[q].0 && qs@[q].1 == queries@[q].1 as i64,
        decreases queries.len() - qi,
    {
        let (x, z) = queries[qi];
        qs.push((x, z as i64));
        qi = qi + 1;
    }
    let ghost mut taken: Seq<nat> = Seq::new(queries.len() as nat, |q: int| 0nat);
    proof {
        assert forall|q: int| 0 <= q < queries.len() implies query_ok(gs, gp, gw, gl, queries@[q], #[trigger] qs@[q], taken[q], pow_two(0) as int, strength_cap()) by {
            assert(0 <= queries@[q].0 <= n && 1 <= queries@[q].1 <= max_stat());
        }
    }

    let mut strength: i32 = 1;
    let mut k: usize = 0;
    while k < K_BOUND
        invariant
            gs == s@, gp == p@, gw == w@, gl == l@,
            n == s.len(),
            nu == n,
            game_ok(gs, gp, gw, gl),
            k <= K_BOUND,
            k < K_BOUND ==> strength == pow_two(k as nat),
            pow_two(24) == 0x100_0000,
            pow_two(25) == 0x200_0000,
            dp.len() == J_BOUND,
            forall|jj: int| 0 <= jj < J_BOUND ==> (#[trigger] dp@[jj]).len() == nu + 1,
            qs.len() == queries.len(),
            taken.len() == queries.len(),
            k < K_BOUND ==> forall|q: int| 0 <= q < queries.len() ==> query_ok(gs, gp, gw, gl, queries@[q], #[trigger] qs@[q], taken[q], strength as int, strength_cap()),
            k == K_BOUND ==> forall|q: int| 0 <= q < queries.len() ==> query_ok(gs, gp, gw, gl, queries@[q], #[trigger] qs@[q], taken[q], 0, CAP as int) && qs@[q].0 == n,
        decreases K_BOUND - k,
    {
        proof {
            lemma_pow_two_mono(k as nat, 24);
        }
        let ghost th = strength as int;
        let mut i: usize = 0;
        while i < nu
            invariant
                gs == s@, gp == p@, gw == w@, gl == l@,
                n == s.len(),
                nu == n,
                game_ok(gs, gp, gw, gl),
                th == strength,
                1 <= th,
                i <= nu,
                dp.len() == J_BOUND,
                forall|jj: int| 0 <= jj < J_BOUND ==> (#[trigger] dp@[jj]).len() == nu + 1,
                forall|ii: int| 0 <= ii < i ==> #[trigger] dp@[0]@[ii] == base_entry(gs, gp, gw, gl, th, ii),
            decreases nu - i,
        {
            let e = if s[i] <= strength {
                Entry { ending_dungeon: w[i], max_starting_strength: CAP, gained_strength: s[i] as i64 }
            } else {
                Entry { ending_dungeon: l[i], max_starting_strength: s[i] as i64 - 1, gained_strength: p[i] as i64 }
            };
            let ghost before = dp@;
            dp[0].set(i, e);
            proof {
                assert forall|jj: int| 0 <= jj < J_BOUND implies (#[trigger] dp@[jj]).len() == nu + 1 by {
                    if jj != 0 {
                        assert(dp@[jj] == before[jj]);
                    }
                }
            }
            i = i + 1;
        }
        let ghost before = dp@;
        dp[0].set(nu, Entry { ending_dungeon: n, max_starting_strength: CAP, gained_strength: 0 });
        proof {
            assert forall|jj: int| 0 <= jj < J_BOUND implies (#[trigger] dp@[jj]).len() == nu + 1 by {
                if jj != 0 {
                    assert(dp@[jj] == before[jj]);
                }
            }
            assert forall|ii: int| 0 <= ii <= nu implies entry_ok(gs, gp, gw, gl, th, 0, ii, #[trigger] dp@[0]@[ii]) by {
                lemma_base_entry(gs, gp, gw, gl, th, ii);
            }
            assert(table_ok(gs, gp, gw, gl, th, dp@, 1));
        }

        let mut j: usize = 1;
        while j < J_BOUND
            invariant
                gs == s@, gp == p@, gw == w@, gl == l@,
                n == s.len(),
                nu == n,
                game_ok(gs, gp, gw, gl),
                th == strength,
                1 <= th,
                pow_two(24) == 0x100_0000,
                1 <= j <= J_BOUND,
                table_ok(gs, gp, gw, gl, th, dp@, j as int),
            decreases J_BOUND - j,
        {
            proof {
                lemma_pow_two_mono(j as nat, 24);
            }
            let mut i: usize = 0;
            while i <= nu
                invariant
                    gs == s@, gp == p@, gw == w@, gl == l@,
                    n == s.len(),
                    nu == n,
                    game_ok(gs, gp, gw, gl),
                    th == strength,
                    1 <= j < J_BOUND,
                    pow_two(j as nat) <= 0x100_0000,
                    i <= nu + 1,
                    table_ok(gs, gp, gw, gl, th, dp@, j as int),
                    forall|ii: int| 0 <= ii < i ==> entry_ok(gs, gp, gw, gl, th, j as nat, ii, #[trigger] dp@[j as int]@[ii]),
                decreases nu + 1 - i,
            {
                let e1 = dp[j - 1][i];
                let e2 = dp[j - 1][e1.ending_dungeon as usize];
                proof {
                    assert(entry_ok(gs, gp, gw, gl, th, (j - 1) as nat, i as int, dp@[j - 1]@[i as int]));
                    assert(entry_ok(gs, gp, gw, gl, th, (j - 1) as nat, e1.ending_dungeon as int, dp@[j - 1]@[e1.ending_dungeon as int]));
                    lemma_combine(gs, gp, gw, gl, th, j as nat, i as int, e1, e2);
                    let h = pow_two((j - 1) as nat);
                    assert(max_stat() * h <= max_stat() * 0x100_0000) by (nonlinear_arith)
                        requires h <= 0x100_0000;
                }
                let bound = e2.max_starting_strength - e1.gained_strength;
                let e = Entry {
                    ending_dungeon: e2.ending_dungeon,
                    max_starting_strength: if e1.max_starting_strength <= bound { e1.max_starting_strength } else { bound },
                    gained_strength: e1.gained_strength + e2.gained_strength,
                };
                let ghost before = dp@;
                dp[j].set(i, e);
                proof {
                    assert(e == combine(e1, e2));
                    assert forall|jj: int| 0 <= jj < J_BOUND implies (#[trigger] dp@[jj]).len() == nu + 1 by {
                        if jj != j {
                            assert(dp@[jj] == before[jj]);
                        }
                    }
                    assert forall|jj: int, ii: int| 0 <= jj < j && 0 <= ii <= nu implies entry_ok(gs, gp, gw, gl, th, jj as nat, ii, #[trigger] dp@[jj]@[ii]) by {
                        assert(dp@[jj] == before[jj]);
                    }
                    assert forall|ii: int| 0 <= ii < i + 1 implies entry_ok(gs, gp, gw, gl, th, j as nat, ii, #[trigger] dp@[j as int]@[ii]) by {
                        if ii < i {
                            assert(dp@[j as int]@[ii] == before[j as int]@[ii]);
                        }
                    }
                }
                i = i + 1;
            }
            j = j + 1;
        }

        let ghost cap_k = strength_cap();
        let mut qi: usize = 0;
        while qi < qs.len()
            invariant
                gs == s@, gp == p@, gw == w@, gl == l@,
                n == s.len(),
                nu == n,
                game_ok(gs, gp, gw, gl),
                th == strength,
                th == pow_two(k as nat),
                1 <= th <= 0x100_0000,
                k < K_BOUND,
                pow_two(25) == 0x200_0000,
                cap_k == strength_cap(),
                table_ok(gs, gp, gw, gl, th, dp@, J_BOUND as int),
                qs.len() == queries.len(),
                taken.len() == queries.len(),
                qi <= qs.len(),
                forall|q: int| qi <= q < queries.len() ==> query_ok(gs, gp, gw, gl, queries@[q], #[trigger] qs@[q], taken[q], th, cap_k),
                k + 1 < K_BOUND ==> forall|q: int| 0 <= q < qi ==> query_ok(gs, gp, gw, gl, queries@[q], #[trigger] qs@[q], taken[q], 2 * th, strength_cap()),
                k + 1 == K_BOUND ==> forall|q: int| 0 <= q < qi ==> query_ok(gs, gp, gw, gl, queries@[q], #[trigger] qs@[q], taken[q], 0, CAP as int) && qs@[q].0 == n,
            decreases qs.len() - qi,
        {
            let (x0, z0) = qs[qi];
            let mut x = x0;
            let mut z = z0;
            let ghost start = queries@[qi as int];
            let ghost t0 = taken[qi as int];
            let ghost mut steps: nat = 0;
            proof {
                assert(query_ok(gs, gp, gw, gl, start, qs@[qi as int], t0, th, cap_k));
            }
            if x != n {
                let mut jj: usize = J_BOUND;
                while jj > 0 && !(x == n || (k < K_BOUND - 1 && z >= 2 * strength as i64))
                    invariant
                        gs == s@, gp == p@, gw == w@, gl == l@,
                        n == s.len(),
                        nu == n,
                        game_ok(gs, gp, gw, gl),
                        th == strength,
                        1 <= th <= 0x100_0000,
                        k < K_BOUND,
                        pow_two(25) == 0x200_0000,
                        table_ok(gs, gp, gw, gl, th, dp@, J_BOUND as int),
                        jj <= J_BOUND,
                        0 <= x <= n,
                        x0 != n,
                        th <= z0 <= cap_k,
                        z0 <= 2 * max_stat() + max_stat() * x0,
                        z <= 2 * max_stat() + max_stat() * x,
                        cap_k == strength_cap(),
                        run(gs, gp, gw, gl, x0 as int, z0 as int, steps) == (x as int, z as int),
                        z0 <= z,
                        k + 1 < K_BOUND ==> z <= cap_k,
                        z <= 2 * CAP,
                        steps + pow_two(jj as nat) <= pow_two(25),
                        !valid(gs, gp, gw, gl, th, x as int, z as int, pow_two(jj as nat)) || steps + pow_two(jj as nat) >= pow_two(25),
                    decreases jj,
                {
                    jj = jj - 1;
                    let e = dp[jj][x as usize];
                    proof {
                        assert(entry_ok(gs, gp, gw, gl, th, jj as nat, x as int, dp@[jj as int]@[x as int]));
                        assert(pow_two((jj + 1) as nat) == 2 * pow_two(jj as nat));
                        lemma_valid_add(gs, gp, gw, gl, th, x as int, z as int, pow_two(jj as nat), pow_two(jj as nat));
                        lemma_pow_two_mono(jj as nat, 24);
                        assert(max_stat() * pow_two(jj as nat) <= max_stat() * 0x100_0000) by (nonlinear_arith)
                            requires pow_two(jj as nat) <= 0x100_0000;
                    }
                    if e.max_starting_strength >= strength as i64 && z <= e.max_starting_strength {
                        proof {
                            lemma_run_strength(gs, gp, gw, gl, x as int, z as int, pow_two(jj as nat));
                            lemma_run_add(gs, gp, gw, gl, x0 as int, z0 as int, steps, pow_two(jj as nat));
                            steps = steps + pow_two(jj as nat);
                        }
                        x = e.ending_dungeon;
                        z = z + e.gained_strength;
                    }
                }
                proof {
                    lemma_phase_end(gs, gp, gw, gl, th, k as int, x0 as int, z0 as int, steps, jj as nat);
                }
                if x != n {
                    if s[x as usize] as i64 <= z {
                        proof {
                            assert(1 <= gs[x as int] <= max_stat());
                            assert(x < gw[x as int] <= n);
                            lemma_run_add(gs, gp, gw, gl, x0 as int, z0 as int, steps, 1);
                            reveal_with_fuel(run, 2);
                            assert(run(gs, gp, gw, gl, x as int, z as int, 1) == step(gs, gp, gw, gl, x as int, z as int));
                            steps = steps + 1;
                        }
                        z = z + s[x as usize] as i64;
                        x = w[x as usize];
                    }
                }
                proof {
                    assert(run(gs, gp, gw, gl, x0 as int, z0 as int, steps) == (x as int, z as int));
                }
            }
            proof {
                assert(run(gs, gp, gw, gl, x0 as int, z0 as int, steps) == (x as int, z as int));
                assert(run(gs, gp, gw, gl, start.0 as int, start.1 as int, t0) == (x0 as int, z0 as int));
            }
            proof {
                lemma_run_add(gs, gp, gw, gl, start.0 as int, start.1 as int, t0, steps);
                taken = taken.update(qi as int, t0 + steps);
                assert(run(gs, gp, gw, gl, start.0 as int, start.1 as int, taken[qi as int]) == (x as int, z as int));
                assert(0 <= x <= n);
                if k + 1 < K_BOUND {
                    assert(x == n || z >= 2 * th);
                    assert(1 <= z <= strength_cap());
                } else {
                    assert(x == n);
                    assert(1 <= z <= CAP);
                }
            }
            let ghost old_qs = qs@;
            qs.set(qi, (x, z));
            proof {
                assert forall|q: int| qi + 1 <= q < queries.len() implies query_ok(gs, gp, gw, gl, queries@[q], #[trigger] qs@[q], taken[q], th, cap_k) by {
                    assert(qs@[q] == old_qs[q]);
                }
                if k + 1 < K_BOUND {
                    assert forall|q: int| 0 <= q < qi + 1 implies query_ok(gs, gp, gw, gl, queries@[q], #[trigger] qs@[q], taken[q], 2 * th, strength_cap()) by {
                        if q < qi {
                            assert(qs@[q] == old_qs[q]);
                        }
                    }
                } else {
                    assert forall|q: int| 0 <= q < qi + 1 implies query_ok(gs, gp, gw, gl, queries@[q], #[trigger] qs@[q], taken[q], 0, CAP as int) && qs@[q].0 == n by {
                        if q < qi {
                            assert(qs@[q] == old_qs[q]);
                        }
                    }
                }
            }
            qi = qi + 1;
        }
        if k + 1 < K_BOUND {
            strength = strength * 2;
            proof {
                assert(pow_two((k + 1) as nat) == 2 * pow_two(k as nat));
            }
        }
        k = k + 1;
    }

    let mut result: Vec<i64> = Vec::with_capacity(qs.len());
    let mut qi: usize = 0;
    while qi < qs.len()
        invariant
            gs == s@, gp == p@, gw == w@, gl == l@,
            n == s.len(),
            qs.len() == queries.len(),
            taken.len() == queries.len(),
            qi <= qs.len(),
            result.len() == qi,
            forall|q: int| 0 <= q < queries.len() ==> query_ok(gs, gp, gw, gl, queries@[q], #[trigger] qs@[q], taken[q], 0, CAP as int) && qs@[q].0 == n,
            forall|q: int| 0 <= q < qi ==> #[trigger] result@[q] == qs@[q].1,
        decreases qs.len() - qi,
    {
        result.push(qs[qi].1);
        qi = qi + 1;
    }
    proof {
        assert forall|q: int| 0 <= q < queries.len() implies #[trigger] ends_with(gs, gp, gw, gl, queries@[q].0 as int, queries@[q].1 as int, result@[q] as int) by {
            assert(query_ok(gs, gp, gw, gl, queries@[q], qs@[q], taken[q], 0, CAP as int));
            assert(run(gs, gp, gw, gl, queries@[q].0 as int, queries@[q].1 as int, taken[q]) == (n as int, result@[q] as int));
        }
    }
    result
}

} // verus!
