//! The counting strategies as a state machine: the solver asks a query, takes in the
//! machine's answer, and so on until it gives the number of mushrooms of species A.
use vstd::prelude::*;
use crate::candies::segtree::pow_two;
use crate::mushrooms::bits::{
    BitsProblem, levels_ok, init_bits_problem, solve_bits_problem, sorted, sorted_by_length,
    tally, explains, answers, ones, count_where, occurs, queries_within, pow2, min_known_ok,
    by_length,
};
use crate::mushrooms::plan::{choose_plan, plan_ok, reach, step, steps_ok, steps_grow, finish_steps, total_cost};
use crate::mushrooms::cost::{plan_queries, lemma_plan_cost, lemma_finish_mono, lemma_plan_queries_nonneg};
use crate::mushrooms::query::{
    differs, species, truthful, valid_query, interleaved, ones_upto, ones_at, lemma_answer,
    lemma_ones_shifted,
};
use crate::mushrooms::types::{Known, Type, type_if, a_if};

verus! {

/// What the solver does next: ask the machine about a sequence of mushrooms, or give
/// the number of mushrooms of species A.
pub enum Action {
    Query(Vec<usize>),
    Answer(usize),
}

/// Where the solver is in its strategy.
#[derive(Copy, Clone)]
enum Stage {
    /// About to ask for the species of mushroom 1.
    First,
    /// About to ask for the species of mushroom 2.
    Second,
    /// Finding the species of `x` and `x + 1` with one query (simple strategy).
    Pairs { x: usize },
    /// Running the `p`-th bit problem of the plan from mushroom `start`: `ord` of its
    /// queries are answered.
    Bits { p: usize, ord: usize, start: usize },
    /// Counting from mushroom `x` on; `count` mushrooms of species A were counted.
    Rest { x: usize, count: usize },
    /// The answer is known.
    Done { answer: usize },
}

/// The state of a run of one of the strategies on `n` mushrooms.
pub struct Solver {
    n: usize,
    /// The full strategy (bit problems), or the simple one (pairs).
    full: bool,
    bp: Vec<BitsProblem>,
    plan: Vec<usize>,
    best: usize,
    known: Known,
    stage: Stage,
    /// The queries of the current bit problem by increasing length.
    order: Vec<usize>,
    /// Their answers so far.
    res: Vec<usize>,
    /// A query was asked and its answer has not come yet.
    waiting: bool,
    /// Of that query: the species of the list it alternates with, the number of
    /// mushrooms it counts and its last mushroom.
    freq: Type,
    len: usize,
    extra: usize,
    asked: Ghost<Seq<usize>>,
    log: Ghost<Seq<(Seq<usize>, int)>>,
}

/// Every mushroom of `s` lies below `lo` or in `mid..hi`.
pub open spec fn region(s: Seq<usize>, lo: int, mid: int, hi: int) -> bool {
    forall|i: int| 0 <= i < s.len() ==> #[trigger] s[i] < lo || (mid <= s[i] && s[i] < hi)
}

/// No mushroom occurs twice in `s`.
pub open spec fn distinct(s: Seq<usize>) -> bool {
    forall|i: int, j: int| 0 <= i < j < s.len() ==> #[trigger] s[i] != #[trigger] s[j]
}

/// No mushroom occurs in both `a` and `b`.
pub open spec fn apart(a: Seq<usize>, b: Seq<usize>) -> bool {
    forall|i: int, j: int| 0 <= i < a.len() && 0 <= j < b.len() ==> #[trigger] a[i] != #[trigger] b[j]
}

/// The queries of a valid plan step can be run: a query of the level is within the
/// longer list when `known` mushrooms are known, `ord` queries in.
proof fn lemma_query_fits(p: BitsProblem, order: Seq<usize>, ord: int, start: int, len: int)
    requires
        min_known_ok(p),
        sorted_by_length(p.queries@, order),
        0 <= ord < order.len(),
        start >= 3,
        start >= p.min_known,
        len == p.queries@[order[ord] as int].len(),
    ensures
        2 * len + 1 <= start + ord,
{
    assert(by_length(p, order));
    assert(2 * p.queries@[order[ord] as int].len() + 1 - ord <= p.min_known);
}

/// A query alternating the distinct mushrooms of `f` with distinct others `c` is valid.
proof fn lemma_query_valid(q: Seq<usize>, f: Seq<usize>, c: Seq<usize>, n: int)
    requires
        interleaved(q, f, c),
        c.len() >= 1,
        distinct(f),
        distinct(c),
        apart(f, c),
        forall|j: int| 0 <= j < f.len() ==> #[trigger] f[j] < n,
        forall|i: int| 0 <= i < c.len() ==> #[trigger] c[i] < n,
    ensures
        valid_query(q, n),
{
    assert forall|i: int| 0 <= i < q.len() implies #[trigger] q[i] < n by {
        let k = i / 2;
        if i % 2 == 0 {
            assert(q[2 * k] == f[k]);
        } else {
            assert(q[2 * k + 1] == c[k]);
        }
    }
    assert forall|i: int, j: int| 0 <= i < j < q.len() implies #[trigger] q[i] != #[trigger] q[j] by {
        let ki = i / 2;
        let kj = j / 2;
        if i % 2 == 0 {
            assert(q[2 * ki] == f[ki]);
        } else {
            assert(q[2 * ki + 1] == c[ki]);
        }
        if j % 2 == 0 {
            assert(q[2 * kj] == f[kj]);
        } else {
            assert(q[2 * kj + 1] == c[kj]);
        }
        if i % 2 == 0 && j % 2 == 0 {
            assert(f[ki] != f[kj]);
        } else if i % 2 == 1 && j % 2 == 1 {
            assert(c[ki] != c[kj]);
        } else if i % 2 == 0 {
            assert(f[ki] != c[kj]);
        } else {
            assert(f[kj] != c[ki]);
        }
    }
}

/// Facts about the levels that `init_bits_problem` builds.
spec fn levels_shape(bp: Seq<BitsProblem>) -> bool {
    &&& bp.len() == 10
    &&& levels_ok(bp, 9)
    &&& forall|m: int| 0 <= m < 10 ==> (#[trigger] bp[m]).queries.len() == pow_two(m as nat) && 1 <= bp[m].n <= 5120
}

/// Running steps keeps at least three mushrooms known, and each step adds some.
proof fn lemma_reach_mono(bp: Seq<BitsProblem>, plan: Seq<usize>, p: int, q: int)
    requires
        levels_shape(bp),
        forall|k: int| 0 <= k < plan.len() ==> #[trigger] plan[k] <= 9,
        0 <= p <= q <= plan.len(),
    ensures
        3 <= reach(bp, plan, 3, p) <= reach(bp, plan, 3, q),
        p < q ==> reach(bp, plan, 3, p) + step(bp, plan[p] as int) <= reach(bp, plan, 3, q),
    decreases q,
{
    if p < q {
        lemma_reach_mono(bp, plan, p, q - 1);
        crate::candies::segtree::lemma_pow_two_pos(plan[q - 1] as nat);
        assert(bp[plan[q - 1] as int].n >= 1);
    } else {
        lemma_reach_low(bp, plan, p);
    }
}

proof fn lemma_reach_low(bp: Seq<BitsProblem>, plan: Seq<usize>, p: int)
    requires
        levels_shape(bp),
        forall|k: int| 0 <= k < plan.len() ==> #[trigger] plan[k] <= 9,
        0 <= p <= plan.len(),
    ensures
        3 <= reach(bp, plan, 3, p),
    decreases p,
{
    if p > 0 {
        lemma_reach_low(bp, plan, p - 1);
        crate::candies::segtree::lemma_pow_two_pos(plan[p - 1] as nat);
        assert(bp[plan[p - 1] as int].n >= 1);
    }
}

impl Solver {
    /// Number of mushrooms.
    pub closed spec fn mushrooms(&self) -> int {
        self.n as int
    }

    /// The queries asked and the answers taken in so far, in order.
    pub closed spec fn log(&self) -> Seq<(Seq<usize>, int)> {
        self.log@
    }

    /// The last query asked.
    pub closed spec fn asked(&self) -> Seq<usize> {
        self.asked@
    }

    /// A query was asked and its answer was not taken in yet.
    pub closed spec fn waiting(&self) -> bool {
        self.waiting
    }

    spec fn lens(&self) -> int {
        (self.known.a@.len() + self.known.b@.len()) as int
    }

    /// The first mushroom that the stage has not settled yet.
    spec fn frontier(&self) -> int {
        match self.stage {
            Stage::First => 1,
            Stage::Second => 2,
            Stage::Pairs { x } => x as int,
            Stage::Bits { p, ord, start } => start + ord,
            Stage::Rest { x, count } => x as int,
            Stage::Done { answer } => self.n as int,
        }
    }

    /// The mushrooms the stage has not settled yet.
    spec fn unsettled(&self) -> int {
        if self.frontier() < self.n {
            self.n - self.frontier()
        } else {
            0
        }
    }

    /// A bound on the number of queries still to come: each answer taken in lowers
    /// it. The full strategy follows its plan: what is left of the first two queries
    /// and of the bit problems, then the queries of the counting phase.
    pub closed spec fn budget(&self) -> int {
        if self.full && self.n >= 4 {
            let fin = finish_steps(self.best as int, self.n - self.best);
            match self.stage {
                Stage::First => 2 + plan_queries(self.plan@, 0) + fin,
                Stage::Second => 1 + plan_queries(self.plan@, 0) + fin,
                Stage::Bits { p, ord, start } => pow_two(self.level(p as int) as nat) - ord + plan_queries(self.plan@, p + 1) + fin,
                Stage::Rest { x, count } => finish_steps(self.lens(), self.n - x),
                Stage::Done { answer } => 0,
                Stage::Pairs { x } => self.unsettled(),
            }
        } else {
            self.unsettled()
        }
    }

    /// The levels of the bit problems.
    pub closed spec fn levels(&self) -> Seq<BitsProblem> {
        self.bp@
    }

    /// The number of known mushrooms the plan reaches before counting the rest.
    pub closed spec fn target(&self) -> int {
        self.best as int
    }

    /// Both lists lie below `lo` or in `mid..hi`.
    spec fn lists_in(&self, lo: int, mid: int, hi: int) -> bool {
        region(self.known.a@, lo, mid, hi) && region(self.known.b@, lo, mid, hi)
    }

    /// The level of the `p`-th problem of the plan.
    spec fn level(&self, p: int) -> int {
        self.plan@[p] as int
    }

    spec fn width(&self, p: int) -> int {
        self.bp@[self.level(p)].n as int
    }

    spec fn stage_shape(&self) -> bool {
        match self.stage {
            Stage::First => self.known.a@ == seq![0usize] && self.known.b@.len() == 0,
            Stage::Second => self.n >= 3 && self.lens() == 2 && self.lists_in(2, 2, 2),
            Stage::Pairs { x } => {
                &&& !self.full
                &&& 3 <= x < 150
                &&& x + 1 < self.n
                &&& self.lens() == x
                &&& self.lists_in(x as int, x as int, x as int)
            },
            Stage::Bits { p, ord, start } => {
                let m = self.level(p as int);
                let w = self.width(p as int);
                &&& self.full
                &&& self.n >= 4
                &&& p < self.plan.len()
                &&& start == reach(self.bp@, self.plan@, 3, p as int)
                &&& ord < pow_two(m as nat)
                &&& self.lens() == start + ord
                &&& self.lists_in(start as int, start + w, start + w + ord)
                &&& sorted_by_length(self.bp@[m].queries@, self.order@)
                &&& self.res.len() == pow_two(m as nat)
                &&& forall|k: int| 0 <= k < self.res.len() ==> #[trigger] self.res@[k] <= 5120
            },
            Stage::Rest { x, count } => {
                &&& x < self.n
                &&& count <= x
                &&& self.lens() <= x
                &&& self.lists_in(x as int, x as int, x as int)
            },
            Stage::Done { answer } => true,
        }
    }

    /// The mushrooms that a query of the current stage counts, when it counts `len`.
    spec fn elems_for(&self, len: int) -> Seq<usize> {
        match self.stage {
            Stage::Pairs { x } => seq![x],
            Stage::Bits { p, ord, start } => {
                let q = self.bp@[self.level(p as int)].queries@[self.order@[ord as int] as int]@;
                Seq::new(q.len(), |k: int| (start + q[k]) as usize)
            },
            Stage::Rest { x, count } => Seq::new(len as nat, |k: int| (x + k) as usize),
            _ => Seq::empty(),
        }
    }

    /// The last mushroom of a query of the current stage that counts `len`.
    spec fn extra_for(&self, len: int) -> int {
        match self.stage {
            Stage::First => 1,
            Stage::Second => 2,
            Stage::Pairs { x } => x + 1,
            Stage::Bits { p, ord, start } => start + self.width(p as int) + ord,
            Stage::Rest { x, count } => x + len,
            Stage::Done { answer } => 0,
        }
    }

    /// The mushrooms the pending query counts.
    spec fn pending_elems(&self) -> Seq<usize> {
        self.elems_for(self.len as int)
    }

    /// The last mushroom of the pending query.
    spec fn pending_extra(&self) -> int {
        self.extra_for(self.len as int)
    }

    spec fn pending_shape(&self) -> bool {
        &&& !(self.stage is Done)
        &&& self.freq == self.known.frequent()
        &&& self.extra == self.pending_extra()
        &&& self.pending_elems().len() == self.len
        &&& interleaved(self.asked@, self.known.list(self.freq), self.pending_elems().push(self.extra))
        &&& (self.stage is Rest ==> self.pending_extra() < self.n)
        &&& (self.stage is Rest ==> 2 * (self.len + 1) >= self.lens() || self.stage->Rest_x + self.len + 1 >= self.n)
    }

    /// The shape of the state whatever the stage.
    spec fn base_shape(&self) -> bool {
        &&& self.config_ok()
        &&& self.lists_shape()
    }

    /// The strategy's data.
    spec fn config_ok(&self) -> bool {
        &&& 2 <= self.n <= 20000
        &&& self.full ==> levels_shape(self.bp@)
        &&& (self.full && self.n >= 4) ==> plan_ok(self.bp@, self.plan@, self.best as int) && 3 <= self.best < self.n
    }

    /// The lists of known mushrooms.
    spec fn lists_shape(&self) -> bool {
        &&& self.known.a@.len() >= 1
        &&& self.known.a@[0] == 0
        &&& distinct(self.known.a@)
        &&& distinct(self.known.b@)
        &&& apart(self.known.a@, self.known.b@)
        &&& self.lists_in(self.n as int, self.n as int, self.n as int)
    }

    spec fn shape(&self) -> bool {
        &&& self.base_shape()
        &&& self.stage_shape()
        &&& self.waiting ==> self.pending_shape()
    }

    /// Where `t` gives the species, the lists are right.
    spec fn lists_ok(&self, t: Seq<bool>) -> bool {
        &&& forall|i: int| 0 <= i < self.known.a@.len() ==> t[#[trigger] self.known.a@[i] as int]
        &&& forall|i: int| 0 <= i < self.known.b@.len() ==> !t[#[trigger] self.known.b@[i] as int]
    }

    /// What the solver knows when `t` gives the species: the lists are right, and the
    /// counts and answers so far are those of `t`.
    spec fn knows(&self, t: Seq<bool>) -> bool {
        &&& self.lists_ok(t)
        &&& match self.stage {
            Stage::First => true,
            Stage::Second => ones(t, 0, 2) == self.known.a@.len(),
            Stage::Pairs { x } => ones(t, 0, x as int) == self.known.a@.len(),
            Stage::Bits { p, ord, start } => {
                let m = self.level(p as int);
                let w = self.width(p as int);
                &&& ones(t, 0, start as int) + ones(t, start + w, start + w + ord) == self.known.a@.len()
                &&& forall|o: int|
                    0 <= o < ord ==> self.res@[#[trigger] self.order@[o] as int] == tally(
                        t.subrange(start as int, start + w),
                        self.bp@[m].queries@[self.order@[o] as int]@,
                    )
            },
            Stage::Rest { x, count } => ones(t, 0, x as int) == self.known.a@.len() + count,
            Stage::Done { answer } => answer == ones(t, 0, self.n as int),
        }
    }

    /// The solver's invariant: its shape, and what it knows for every assignment of
    /// species that agrees with the answers it took in.
    pub closed spec fn wf(&self) -> bool {
        &&& self.shape()
        &&& forall|t: Seq<bool>| species(t, self.n as int) && #[trigger] truthful(self.log@, t) ==> self.knows(t)
    }
}

impl Solver {
    /// While a query waits for its answer, its stage has not reached the last mushroom.
    proof fn lemma_frontier_below(&self)
        requires
            self.wf(),
            self.waiting,
        ensures
            self.frontier() < self.n,
    {
        if let Stage::Bits { p, ord, start } = self.stage {
            assert forall|k: int| 0 <= k < self.plan.len() implies #[trigger] self.plan@[k] <= 9 by {
                assert(steps_ok(self.bp@, self.plan@, 3));
            }
            lemma_reach_mono(self.bp@, self.plan@, p as int, self.plan.len() as int);
        }
    }

    /// The budget is never negative.
    proof fn lemma_budget_nonneg(&self)
        requires
            self.stage_shape(),
        ensures
            0 <= self.budget(),
    {
        lemma_finish_mono(self.best as int, self.n - self.best, self.n - self.best);
        lemma_plan_queries_nonneg(self.plan@, 0);
        match self.stage {
            Stage::Bits { p, ord, start } => {
                lemma_plan_queries_nonneg(self.plan@, p + 1);
            },
            Stage::Rest { x, count } => {
                lemma_finish_mono(self.lens(), self.n - x, self.n - x);
            },
            _ => {},
        }
    }
}

impl Solver {
    /// Asks the query that counts `elems` and ends with `extra`, for the current stage.
    fn ask(&mut self, elems: Vec<usize>, extra: usize) -> (q: Vec<usize>)
        requires
            old(self).shape(),
            !old(self).waiting,
            !(old(self).stage is Done),
            elems@ == old(self).elems_for(elems.len() as int),
            extra == old(self).extra_for(elems.len() as int),
            elems.len() < old(self).known.list(old(self).known.frequent()).len(),
            distinct(elems@.push(extra)),
            forall|i: int| 0 <= i < elems.len() + 1 ==> #[trigger] elems@.push(extra)[i] < old(self).n,
            apart(old(self).known.a@, elems@.push(extra)),
            apart(old(self).known.b@, elems@.push(extra)),
            old(self).stage is Rest ==> 2 * (elems.len() + 1) >= old(self).lens() || old(self).stage->Rest_x + elems.len() + 1 >= old(self).n,
        ensures
            final(self).shape(),
            final(self).waiting,
            final(self).asked@ == q@,
            valid_query(q@, old(self).n as int),
            final(self).n == old(self).n,
            final(self).full == old(self).full,
            final(self).bp == old(self).bp,
            final(self).plan == old(self).plan,
            final(self).best == old(self).best,
            final(self).known == old(self).known,
            final(self).stage == old(self).stage,
            final(self).order == old(self).order,
            final(self).res == old(self).res,
            final(self).log == old(self).log,
    {
        let (q, freq) = self.known.build_query(&elems, extra);
        proof {
            let f = self.known.list(freq);
            let c = elems@.push(extra);
            assert forall|j: int| 0 <= j < f.len() implies #[trigger] f[j] < self.n by {
                if freq == Type::A {
                    assert(self.known.a@[j] < self.n);
                } else {
                    assert(self.known.b@[j] < self.n);
                }
            }
            lemma_query_valid(q@, f, c, self.n as int);
        }
        self.freq = freq;
        self.len = elems.len();
        self.extra = extra;
        self.asked = Ghost(q@);
        self.waiting = true;
        proof {
            assert(elems@.push(extra)[elems.len() as int] == extra);
            assert(self.pending_elems() == elems@);
            assert(self.pending_extra() == extra);
            assert(self.pending_shape());
            assert(self.stage_shape());
        }
        q
    }
}

/// The levels that `init_bits_problem` builds, with the facts the solver needs of them.
fn levels() -> (bp: Vec<BitsProblem>)
    ensures
        levels_shape(bp@),
        steps_grow(bp@),
{
    let bp = init_bits_problem();
    proof {
        crate::mushrooms::bits::lemma_levels_built(bp@, 9);
        assert forall|m: int| 0 <= m < 9 implies #[trigger] step(bp@, m) < step(bp@, m + 1) by {
            assert(crate::mushrooms::bits::level_ok(bp@[m], bp@[m + 1], (m + 1) as nat));
            assert(pow_two((m + 1) as nat) == 2 * pow_two(m as nat));
            crate::candies::segtree::lemma_pow_two_pos(m as nat);
            assert(bp@[m].n >= 1);
        }
        assert forall|m: int| 0 <= m < 10 implies (#[trigger] bp@[m]).queries.len() == pow_two(m as nat) && 1 <= bp@[m].n <= 5120 by {
            crate::mushrooms::bits::lemma_pow_two_le(m as nat, 9);
            reveal_with_fuel(pow_two, 10);
            assert((m + 1) * pow_two(m as nat) <= 10 * 512) by (nonlinear_arith)
                requires
                    0 <= m < 10,
                    pow_two(m as nat) <= 512,
            ;
        }
    }
    bp
}

/// The full strategy on `n` mushrooms, before its first query: two queries find the
/// species of mushrooms 1 and 2, the bit problems of the plan that `choose_plan` makes
/// follow, and the rest is counted against the longer list. Its levels are the bit
/// problems of `init_bits_problem`, as `levels_ok` describes them.
///
/// `n` is at most 20000, the task's limit: the proofs bound the queries of the last
/// phase (`finish_cost`) and of the chosen plan (`choose_plan`) by constants worked
/// out for that many mushrooms.
pub fn solve(n: usize) -> (s: Solver)
    requires
        2 <= n <= 20000,
    ensures
        s.wf(),
        s.levels().len() == 10,
        levels_ok(s.levels(), 9),
        s.mushrooms() == n,
        s.log() == Seq::<(Seq<usize>, int)>::empty(),
        !s.waiting(),
        n < 4 ==> s.budget() == n - 1,
        n >= 4 ==> s.budget() == total_cost(s.levels(), n as int, s.target()),
        n >= 4 ==> forall|i: int| 3 <= i < n && i < 1000 ==> s.budget() <= #[trigger] total_cost(s.levels(), n as int, i),
{
    let bp = levels();
    let mut best: usize = 3;
    let mut plan: Vec<usize> = Vec::new();
    if n >= 4 {
        let (b, p) = choose_plan(&bp, n);
        best = b;
        plan = p;
        proof {
            lemma_plan_cost(bp@, best as int);
        }
    }
    let s = Solver {
        n,
        full: true,
        bp,
        plan,
        best,
        known: Known::new(),
        stage: Stage::First,
        order: Vec::new(),
        res: Vec::new(),
        waiting: false,
        freq: Type::A,
        len: 0,
        extra: 0,
        asked: Ghost(Seq::empty()),
        log: Ghost(Seq::empty()),
    };
    proof {
        assert forall|t: Seq<bool>| species(t, n as int) && #[trigger] truthful(s.log@, t) implies s.knows(t) by {
            assert(s.known.a@[0] == 0);
        }
    }
    s
}

/// The simple strategy on `n` mushrooms, before its first query: after mushrooms 1
/// and 2, one query finds the species of two more mushrooms at a time up to mushroom
/// 150, and the rest is counted against the longer list.
///
/// `n` is at most 20000, the task's limit, as for `solve`: the solver's invariant
/// keeps its query bounds for that many mushrooms.
pub fn solve_92(n: usize) -> (s: Solver)
    requires
        2 <= n <= 20000,
    ensures
        s.wf(),
        s.mushrooms() == n,
        s.log() == Seq::<(Seq<usize>, int)>::empty(),
        !s.waiting(),
        s.budget() == n - 1,
{
    let s = Solver {
        n,
        full: false,
        bp: Vec::new(),
        plan: Vec::new(),
        best: 3,
        known: Known::new(),
        stage: Stage::First,
        order: Vec::new(),
        res: Vec::new(),
        waiting: false,
        freq: Type::A,
        len: 0,
        extra: 0,
        asked: Ghost(Seq::empty()),
        log: Ghost(Seq::empty()),
    };
    proof {
        assert forall|t: Seq<bool>| species(t, n as int) && #[trigger] truthful(s.log@, t) implies s.knows(t) by {
            assert(s.known.a@[0] == 0);
        }
    }
    s
}

/// `start + q[k]` for each `k`.
fn shifted(q: &Vec<usize>, start: usize) -> (r: Vec<usize>)
    requires
        forall|k: int| 0 <= k < q.len() ==> start + #[trigger] q@[k] <= usize::MAX,
    ensures
        r@ == Seq::new(q.len() as nat, |k: int| (start + q@[k]) as usize),
{
    let mut r: Vec<usize> = Vec::new();
    let mut k: usize = 0;
    while k < q.len()
        invariant
            k <= q.len(),
            forall|j: int| 0 <= j < q.len() ==> start + #[trigger] q@[j] <= usize::MAX,
            r@ == Seq::new(k as nat, |j: int| (start + q@[j]) as usize),
        decreases q.len() - k,
    {
        r.push(start + q[k]);
        k = k + 1;
        proof {
            assert(r@ =~= Seq::new(k as nat, |j: int| (start + q@[j]) as usize));
        }
    }
    r
}

impl Solver {
    /// The next step: the query to ask, or the answer once it is known.
    pub fn next(&mut self) -> (a: Action)
        requires
            old(self).wf(),
            !old(self).waiting(),
        ensures
            final(self).wf(),
            final(self).mushrooms() == old(self).mushrooms(),
            final(self).log() == old(self).log(),
            final(self).budget() == old(self).budget(),
            match a {
                Action::Query(q) => final(self).waiting() && final(self).asked() == q@ && valid_query(q@, old(self).mushrooms()),
                Action::Answer(x) => !final(self).waiting() && forall|t: Seq<bool>|
                    species(t, old(self).mushrooms()) && truthful(old(self).log(), t) ==> x == ones(t, 0, old(self).mushrooms()),
            },
    {
        let stage = self.stage;
        let q = match stage {
            Stage::Done { answer } => {
                proof {
                    assert forall|t: Seq<bool>| species(t, self.n as int) && truthful(self.log@, t) implies answer == ones(t, 0, self.n as int) by {
                        assert(self.knows(t));
                    }
                }
                return Action::Answer(answer);
            },
            Stage::First => {
                let e: Vec<usize> = Vec::new();
                proof {
                    assert(e@.push(1usize)[0] == 1);
                }
                self.ask(e, 1)
            },
            Stage::Second => {
                let e: Vec<usize> = Vec::new();
                proof {
                    assert(e@.push(2usize)[0] == 2);
                }
                self.ask(e, 2)
            },
            Stage::Pairs { x } => {
                let mut e: Vec<usize> = Vec::new();
                e.push(x);
                proof {
                    let c = e@.push((x + 1) as usize);
                    assert(c[0] == x && c[1] == x + 1);
                    assert(e@ == seq![x]);
                }
                self.ask(e, x + 1)
            },
            Stage::Bits { p, ord, start } => self.next_bits(p, ord, start),
            Stage::Rest { x, count } => self.next_rest(x),
        };
        proof {
            assert forall|t: Seq<bool>| species(t, self.n as int) && #[trigger] truthful(self.log@, t) implies self.knows(t) by {
                assert(old(self).knows(t));
            }
        }
        Action::Query(q)
    }

    fn next_bits(&mut self, p: usize, ord: usize, start: usize) -> (q: Vec<usize>)
        requires
            old(self).shape(),
            !old(self).waiting,
            old(self).stage == (Stage::Bits { p, ord, start }),
        ensures
            final(self).shape(),
            final(self).waiting,
            final(self).asked@ == q@,
            valid_query(q@, old(self).n as int),
            final(self).n == old(self).n,
            final(self).full == old(self).full,
            final(self).bp == old(self).bp,
            final(self).plan == old(self).plan,
            final(self).best == old(self).best,
            final(self).known == old(self).known,
            final(self).stage == old(self).stage,
            final(self).order == old(self).order,
            final(self).res == old(self).res,
            final(self).log == old(self).log,
    {
        let m = self.plan[p];
        proof {
            assert(self.plan@[p as int] <= 9);
            lemma_reach_mono(self.bp@, self.plan@, p as int, p as int + 1);
            lemma_reach_mono(self.bp@, self.plan@, p as int + 1, self.plan.len() as int);
            crate::mushrooms::bits::lemma_level_facts(self.bp@, 9, m as int);
        }
        let qi = self.order[ord];
        let w = self.bp[m].n;
        let ghost qs = self.bp@[m as int].queries@[qi as int]@;
        proof {
            assert(crate::mushrooms::bits::increasing(qs));
        }
        let e = shifted(&self.bp[m].queries[qi], start);
        let extra = start + w + ord;
        proof {
            lemma_query_fits(self.bp@[m as int], self.order@, ord as int, start as int, qs.len() as int);
            let c = e@.push(extra);
            assert forall|i: int, j: int| 0 <= i < j < c.len() implies #[trigger] c[i] != #[trigger] c[j] by {
                if j < e.len() {
                    assert(qs[i] < qs[j]);
                }
            }
            assert forall|i: int| 0 <= i < e.len() + 1 implies #[trigger] c[i] < self.n by {}
            assert forall|i: int, j: int| 0 <= i < self.known.a@.len() && 0 <= j < c.len() implies #[trigger] self.known.a@[i] != #[trigger] c[j] by {}
            assert forall|i: int, j: int| 0 <= i < self.known.b@.len() && 0 <= j < c.len() implies #[trigger] self.known.b@[i] != #[trigger] c[j] by {}
        }
        self.ask(e, extra)
    }

    fn next_rest(&mut self, x: usize) -> (q: Vec<usize>)
        requires
            old(self).shape(),
            !old(self).waiting,
            old(self).stage is Rest,
            old(self).stage->Rest_x == x,
        ensures
            final(self).shape(),
            final(self).waiting,
            final(self).asked@ == q@,
            valid_query(q@, old(self).n as int),
            final(self).n == old(self).n,
            final(self).full == old(self).full,
            final(self).bp == old(self).bp,
            final(self).plan == old(self).plan,
            final(self).best == old(self).best,
            final(self).known == old(self).known,
            final(self).stage == old(self).stage,
            final(self).order == old(self).order,
            final(self).res == old(self).res,
            final(self).log == old(self).log,
    {
        let mq = self.known.max_query();
        let num = if mq < self.n - x { mq } else { self.n - x };
        let e = crate::mushrooms::bits::range_vec(x, x + num - 1);
        let extra = x + num - 1;
        proof {
            assert(e@ =~= Seq::new((num - 1) as nat, |k: int| (x + k) as usize));
            let c = e@.push(extra);
            assert forall|i: int| 0 <= i < c.len() implies #[trigger] c[i] == x + i by {}
            assert forall|i: int, j: int| 0 <= i < j < c.len() implies #[trigger] c[i] != #[trigger] c[j] by {
                assert(c[i] == x + i && c[j] == x + j);
            }
            assert forall|i: int| 0 <= i < e.len() + 1 implies #[trigger] c[i] < self.n by {
                assert(c[i] == x + i);
            }
            assert forall|i: int, j: int| 0 <= i < self.known.a@.len() && 0 <= j < c.len() implies #[trigger] self.known.a@[i] != #[trigger] c[j] by {
                assert(c[j] == x + j);
            }
            assert forall|i: int, j: int| 0 <= i < self.known.b@.len() && 0 <= j < c.len() implies #[trigger] self.known.b@[i] != #[trigger] c[j] by {
                assert(c[j] == x + j);
            }
        }
        self.ask(e, extra)
    }
}

/// A truthful log stays truthful without its last entry, and that entry is the answer
/// of its query.
proof fn lemma_truthful_push(log: Seq<(Seq<usize>, int)>, e: (Seq<usize>, int), t: Seq<bool>)
    requires
        truthful(log.push(e), t),
    ensures
        truthful(log, t),
        e.1 == differs(t, e.0),
{
    assert forall|j: int| 0 <= j < log.len() implies #[trigger] log[j].1 == differs(t, log[j].0) by {
        assert(log.push(e)[j] == log[j]);
    }
    assert(log.push(e)[log.len() as int] == e);
}

/// Pushing a mushroom that is in neither list keeps the lists distinct and apart.
proof fn lemma_push_fresh(a: Seq<usize>, b: Seq<usize>, y: usize)
    requires
        distinct(a),
        distinct(b),
        apart(a, b),
        forall|i: int| 0 <= i < a.len() ==> #[trigger] a[i] != y,
        forall|i: int| 0 <= i < b.len() ==> #[trigger] b[i] != y,
    ensures
        distinct(a.push(y)),
        distinct(b.push(y)),
        apart(a.push(y), b),
        apart(a, b.push(y)),
{
    let a2 = a.push(y);
    let b2 = b.push(y);
    assert forall|i: int, j: int| 0 <= i < j < a2.len() implies #[trigger] a2[i] != #[trigger] a2[j] by {
        if j < a.len() {
            assert(a[i] != a[j]);
        } else {
            assert(a[i] != y);
        }
    }
    assert forall|i: int, j: int| 0 <= i < j < b2.len() implies #[trigger] b2[i] != #[trigger] b2[j] by {
        if j < b.len() {
            assert(b[i] != b[j]);
        } else {
            assert(b[i] != y);
        }
    }
    assert forall|i: int, j: int| 0 <= i < a2.len() && 0 <= j < b.len() implies #[trigger] a2[i] != #[trigger] b[j] by {
        if i < a.len() {
            assert(a[i] != b[j]);
        } else {
            assert(b[j] != y);
        }
    }
    assert forall|i: int, j: int| 0 <= i < a.len() && 0 <= j < b2.len() implies #[trigger] a[i] != #[trigger] b2[j] by {
        if j < b.len() {
            assert(a[i] != b[j]);
        } else {
            assert(a[i] != y);
        }
    }
}

/// Once every query of the problem is answered, the answers explain the bits.
proof fn lemma_explains(p: BitsProblem, order: Seq<usize>, res: Seq<usize>, b: Seq<bool>)
    requires
        sorted_by_length(p.queries@, order),
        res.len() == p.queries.len(),
        b.len() == p.n,
        forall|o: int| 0 <= o < order.len() ==> res[#[trigger] order[o] as int] == tally(b, p.queries@[order[o] as int]@),
    ensures
        explains(p, res, b),
{
    assert forall|k: int| 0 <= k < res.len() implies #[trigger] res[k] as int == answers(p, b)[k] by {
        assert(order.contains(k as usize));
        let o = choose|o: int| 0 <= o < order.len() && order[o] == k as usize;
        assert(res[order[o] as int] == tally(b, p.queries@[order[o] as int]@));
    }
}

impl Solver {
    /// The mushroom that ends the pending query is in neither list, and below `n`.
    proof fn lemma_extra_fresh(&self)
        requires
            self.shape(),
            self.waiting,
        ensures
            self.extra < self.n,
            forall|i: int| 0 <= i < self.known.a@.len() ==> #[trigger] self.known.a@[i] != self.extra,
            forall|i: int| 0 <= i < self.known.b@.len() ==> #[trigger] self.known.b@[i] != self.extra,
    {
        match self.stage {
            Stage::Bits { p, ord, start } => {
                assert(self.plan@[p as int] <= 9);
                lemma_reach_mono(self.bp@, self.plan@, p as int, p as int + 1);
                lemma_reach_mono(self.bp@, self.plan@, p as int + 1, self.plan.len() as int);
            },
            _ => {},
        }
    }

    /// Where `t` gives the species and the pending query was answered `r` as the
    /// machine answers it, `record` counts the mushrooms of species A the query counts
    /// and finds the species of its last mushroom.
    proof fn lemma_take(&self, t: Seq<bool>, r: int)
        requires
            self.shape(),
            self.waiting,
            self.lists_ok(t),
            r == differs(t, self.asked@),
        ensures
            (if self.freq == Type::A { self.len - r / 2 } else { r / 2 }) == ones_at(t, self.pending_elems()),
            t[self.extra as int] == ((self.freq == Type::A) != (r % 2 == 1)),
    {
        let f = self.known.list(self.freq);
        let e = self.pending_elems();
        let c = e.push(self.extra);
        let sp = self.freq == Type::A;
        assert forall|k: int| 0 <= k < c.len() implies t[#[trigger] f[k] as int] == sp by {
            if sp {
                assert(t[self.known.a@[k] as int]);
            } else {
                assert(!t[self.known.b@[k] as int]);
            }
        }
        lemma_answer(t, self.asked@, f, c, sp);
        crate::mushrooms::query::lemma_ones_upto_push(t, e, self.extra, e.len() as int);
        assert(c[c.len() - 1] == self.extra);
    }

    /// The answer to a query of a bit problem counts the set bits the query covers.
    proof fn lemma_bits_answer(&self, t: Seq<bool>, r: int, p: usize, ord: usize, start: usize)
        requires
            self.shape(),
            self.waiting,
            self.stage == (Stage::Bits { p, ord, start }),
            self.lists_ok(t),
            r == differs(t, self.asked@),
            t.len() == self.n,
        ensures
            (if self.freq == Type::A { self.len - r / 2 } else { r / 2 }) == tally(
                t.subrange(start as int, start + self.width(p as int)),
                self.bp@[self.level(p as int)].queries@[self.order@[ord as int] as int]@,
            ),
            t[self.extra as int] == ((self.freq == Type::A) != (r % 2 == 1)),
    {
        let m = self.level(p as int);
        let w = self.width(p as int);
        assert(self.plan@[p as int] <= 9);
        crate::mushrooms::bits::lemma_level_facts(self.bp@, 9, m);
        lemma_reach_mono(self.bp@, self.plan@, p as int, p as int + 1);
        lemma_reach_mono(self.bp@, self.plan@, p as int + 1, self.plan.len() as int);
        self.lemma_take(t, r);
        let q = self.bp@[m].queries@[self.order@[ord as int] as int]@;
        lemma_ones_shifted(t, q, self.pending_elems(), start as int, w);
    }

    /// Takes in the answer to the pending query: logs it and records the species of
    /// the query's last mushroom.
    fn take(&mut self, response: usize) -> (r: (usize, Type))
        requires
            old(self).shape(),
            old(self).waiting,
            response < old(self).asked@.len(),
        ensures
            final(self).log@ == old(self).log@.push((old(self).asked@, response as int)),
            !final(self).waiting,
            final(self).n == old(self).n,
            final(self).full == old(self).full,
            final(self).bp == old(self).bp,
            final(self).plan == old(self).plan,
            final(self).best == old(self).best,
            final(self).stage == old(self).stage,
            final(self).order == old(self).order,
            final(self).res == old(self).res,
            final(self).len == old(self).len,
            final(self).extra == old(self).extra,
            final(self).freq == old(self).freq,
            r.0 == if old(self).freq == Type::A { old(self).len - response / 2 } else { (response / 2) as int },
            r.0 <= old(self).len,
            r.1 == type_if((old(self).freq == Type::A) != (response % 2 == 1)),
            r.1 == Type::A ==> final(self).known.a@ == old(self).known.a@.push(old(self).extra)
                && final(self).known.b@ == old(self).known.b@,
            r.1 == Type::B ==> final(self).known.b@ == old(self).known.b@.push(old(self).extra)
                && final(self).known.a@ == old(self).known.a@,
    {
        proof {
            assert(self.asked@.len() == 2 * (self.len + 1));
        }
        let r = self.known.record(self.freq, self.len, self.extra, response);
        self.log = Ghost(self.log@.push((self.asked@, response as int)));
        self.waiting = false;
        r
    }

    /// Takes in the machine's answer to the pending query.
    pub fn receive(&mut self, response: usize)
        requires
            old(self).wf(),
            old(self).waiting(),
            response < old(self).asked().len(),
        ensures
            final(self).wf(),
            !final(self).waiting(),
            final(self).mushrooms() == old(self).mushrooms(),
            final(self).log() == old(self).log().push((old(self).asked(), response as int)),
            final(self).budget() < old(self).budget(),
            0 <= final(self).budget(),
    {
        proof {
            self.lemma_frontier_below();
        }
        let stage = self.stage;
        match stage {
            Stage::First => self.receive_first(response),
            Stage::Second => self.receive_second(response),
            Stage::Pairs { x } => self.receive_pairs(response, x),
            Stage::Bits { p, ord, start } => self.receive_bits(response, p, ord, start),
            Stage::Rest { x, count } => self.receive_rest(response, x, count),
            Stage::Done { answer } => {},
        }
    }

    fn receive_first(&mut self, response: usize)
        requires
            old(self).wf(),
            old(self).waiting,
            old(self).frontier() < old(self).n,
            response < old(self).asked@.len(),
            old(self).stage is First,
        ensures
            final(self).wf(),
            !final(self).waiting,
            final(self).n == old(self).n,
            final(self).log@ == old(self).log@.push((old(self).asked@, response as int)),
            old(self).frontier() < final(self).frontier(),
            final(self).budget() < old(self).budget(),
            0 <= final(self).budget(),
    {
        proof {
            self.lemma_extra_fresh();
        }
        let (c, ty) = self.take(response);
        proof {
            lemma_push_fresh(old(self).known.a@, old(self).known.b@, 1);
        }
        if self.n == 2 {
            self.stage = Stage::Done { answer: self.known.a.len() };
        } else {
            self.stage = Stage::Second;
        }
        proof {
            assert forall|t: Seq<bool>| species(t, self.n as int) && #[trigger] truthful(self.log@, t) implies self.knows(t) by {
                lemma_truthful_push(old(self).log@, (old(self).asked@, response as int), t);
                assert(old(self).knows(t));
                old(self).lemma_take(t, response as int);
                crate::mushrooms::bits::lemma_ones_step(t, 0, 0);
                crate::mushrooms::bits::lemma_ones_step(t, 0, 1);
            }
        }
        proof {
            self.lemma_budget_nonneg();
        }
    }

    #[verifier::rlimit(50)]
    fn receive_second(&mut self, response: usize)
        requires
            old(self).wf(),
            old(self).waiting,
            old(self).frontier() < old(self).n,
            response < old(self).asked@.len(),
            old(self).stage is Second,
        ensures
            final(self).wf(),
            !final(self).waiting,
            final(self).n == old(self).n,
            final(self).log@ == old(self).log@.push((old(self).asked@, response as int)),
            old(self).frontier() < final(self).frontier(),
            final(self).budget() < old(self).budget(),
            0 <= final(self).budget(),
    {
        proof {
            self.lemma_extra_fresh();
        }
        let (c, ty) = self.take(response);
        let ghost mid = *self;
        proof {
            lemma_push_fresh(old(self).known.a@, old(self).known.b@, 2);
            assert forall|t: Seq<bool>| species(t, self.n as int) && #[trigger] truthful(self.log@, t) implies mid.lists_ok(t) && ones(t, 0, 3) == self.known.a@.len() by {
                lemma_truthful_push(old(self).log@, (old(self).asked@, response as int), t);
                assert(old(self).knows(t));
                old(self).lemma_take(t, response as int);
                crate::mushrooms::bits::lemma_ones_step(t, 0, 2);
            }
        }
        if self.n == 3 {
            self.stage = Stage::Done { answer: self.known.a.len() };
            proof {
                assert forall|t: Seq<bool>| species(t, self.n as int) && #[trigger] truthful(self.log@, t) implies self.knows(t) by {
                    assert(mid.lists_ok(t));
                }
            }
        } else if self.full {
            proof {
                assert(reach(self.bp@, self.plan@, 3, 0) == 3);
                assert forall|t: Seq<bool>| species(t, self.n as int) && #[trigger] truthful(self.log@, t) implies self.lists_ok(t)
                    && ones(t, 0, self.lens()) == self.known.a@.len() by {
                    assert(mid.lists_ok(t));
                }
            }
            self.begin_phase(0);
        } else {
            self.stage = Stage::Rest { x: 3, count: 0 };
            if 3 + 1 < self.n {
                self.stage = Stage::Pairs { x: 3 };
            }
            proof {
                assert forall|t: Seq<bool>| species(t, self.n as int) && #[trigger] truthful(self.log@, t) implies self.knows(t) by {
                    assert(mid.lists_ok(t));
                }
            }
        }
        proof {
            self.lemma_budget_nonneg();
        }
    }

    /// Starts the `p`-th problem of the plan, or the counting phase after the last.
    #[verifier::rlimit(50)]
    fn begin_phase(&mut self, p: usize)
        requires
            old(self).base_shape(),
            !old(self).waiting,
            old(self).full,
            old(self).n >= 4,
            p <= old(self).plan.len(),
            old(self).lens() == reach(old(self).bp@, old(self).plan@, 3, p as int),
            old(self).lists_in(old(self).lens(), old(self).lens(), old(self).lens()),
            forall|t: Seq<bool>|
                species(t, old(self).n as int) && #[trigger] truthful(old(self).log@, t) ==> old(self).lists_ok(t)
                    && ones(t, 0, old(self).lens()) == old(self).known.a@.len(),
        ensures
            final(self).wf(),
            !final(self).waiting,
            final(self).n == old(self).n,
            final(self).log@ == old(self).log@,
            old(self).lens() <= final(self).frontier(),
            final(self).full == old(self).full,
            final(self).plan == old(self).plan,
            final(self).best == old(self).best,
            final(self).known == old(self).known,
            p < old(self).plan.len() ==> final(self).stage == (Stage::Bits { p, ord: 0, start: old(self).lens() as usize }),
            p == old(self).plan.len() ==> final(self).stage == (Stage::Rest { x: old(self).best, count: 0 }),
    {
        proof {
            assert forall|k: int| 0 <= k < self.plan.len() implies #[trigger] self.plan@[k] <= 9 by {
                assert(steps_ok(self.bp@, self.plan@, 3));
            }
            lemma_reach_mono(self.bp@, self.plan@, p as int, self.plan.len() as int);
        }
        if p < self.plan.len() {
            let m = self.plan[p];
            proof {
                crate::mushrooms::bits::lemma_level_facts(self.bp@, 9, m as int);
                crate::mushrooms::bits::lemma_pow_two_le(m as nat, 9);
                reveal_with_fuel(pow_two, 10);
                assert forall|i: int| 0 <= i < self.bp@[m as int].queries.len() implies (#[trigger] self.bp@[m as int].queries@[i]).len() <= 0x1_0000_0000 by {
                    crate::mushrooms::bits::lemma_increasing_len(self.bp@[m as int].queries@[i]@, self.bp@[m as int].n as int);
                }
            }
            self.order = sorted(&self.bp[m].queries);
            self.res = crate::mushrooms::plan::filled(0, pow2(m));
            let start = self.known.a.len() + self.known.b.len();
            self.stage = Stage::Bits { p, ord: 0, start };
            proof {
                assert(self.stage_shape());
                assert forall|t: Seq<bool>| species(t, self.n as int) && #[trigger] truthful(self.log@, t) implies self.knows(t) by {
                    assert(old(self).lists_ok(t));
                }
            }
        } else {
            self.stage = Stage::Rest { x: self.best, count: 0 };
            proof {
                assert forall|t: Seq<bool>| species(t, self.n as int) && #[trigger] truthful(self.log@, t) implies self.knows(t) by {
                    assert(old(self).lists_ok(t));
                }
            }
        }
    }

    fn receive_pairs(&mut self, response: usize, x: usize)
        requires
            old(self).wf(),
            old(self).waiting,
            old(self).frontier() < old(self).n,
            response < old(self).asked@.len(),
            old(self).stage == (Stage::Pairs { x }),
        ensures
            final(self).wf(),
            !final(self).waiting,
            final(self).n == old(self).n,
            final(self).log@ == old(self).log@.push((old(self).asked@, response as int)),
            old(self).frontier() < final(self).frontier(),
            final(self).budget() < old(self).budget(),
            0 <= final(self).budget(),
    {
        proof {
            self.lemma_extra_fresh();
        }
        let (c, ty) = self.take(response);
        let ghost mid = *self;
        proof {
            lemma_push_fresh(old(self).known.a@, old(self).known.b@, (x + 1) as usize);
        }
        self.known.push(a_if(c == 1), x);
        proof {
            lemma_push_fresh(mid.known.a@, mid.known.b@, x);
        }
        let x2 = x + 2;
        if x2 < 150 && x2 + 1 < self.n {
            self.stage = Stage::Pairs { x: x2 };
        } else if x2 < self.n {
            self.stage = Stage::Rest { x: x2, count: 0 };
        } else {
            self.stage = Stage::Done { answer: self.known.a.len() };
        }
        proof {
            assert forall|t: Seq<bool>| species(t, self.n as int) && #[trigger] truthful(self.log@, t) implies self.knows(t) by {
                lemma_truthful_push(old(self).log@, (old(self).asked@, response as int), t);
                assert(old(self).knows(t));
                old(self).lemma_take(t, response as int);
                let e = old(self).pending_elems();
                assert(e == seq![x]);
                crate::mushrooms::query::lemma_ones_single(t, x);
                crate::mushrooms::bits::lemma_ones_step(t, 0, x as int);
                crate::mushrooms::bits::lemma_ones_step(t, 0, x + 1);
                assert(mid.lists_ok(t));
                if c == 1 {
                    assert(self.known.a@ == mid.known.a@.push(x));
                } else {
                    assert(self.known.b@ == mid.known.b@.push(x));
                }
            }
        }
        proof {
            self.lemma_budget_nonneg();
        }
    }

    fn receive_rest(&mut self, response: usize, x: usize, count: usize)
        requires
            old(self).wf(),
            old(self).waiting,
            old(self).frontier() < old(self).n,
            response < old(self).asked@.len(),
            old(self).stage == (Stage::Rest { x, count }),
        ensures
            final(self).wf(),
            !final(self).waiting,
            final(self).n == old(self).n,
            final(self).log@ == old(self).log@.push((old(self).asked@, response as int)),
            old(self).frontier() < final(self).frontier(),
            final(self).budget() < old(self).budget(),
            0 <= final(self).budget(),
    {
        proof {
            self.lemma_extra_fresh();
        }
        let len = self.len;
        let (c, ty) = self.take(response);
        proof {
            lemma_push_fresh(old(self).known.a@, old(self).known.b@, (x + len) as usize);
        }
        let x2 = x + len + 1;
        let count2 = count + c;
        if x2 < self.n {
            self.stage = Stage::Rest { x: x2, count: count2 };
        } else {
            self.stage = Stage::Done { answer: self.known.a.len() + count2 };
        }
        proof {
            assert forall|t: Seq<bool>| species(t, self.n as int) && #[trigger] truthful(self.log@, t) implies self.knows(t) by {
                lemma_truthful_push(old(self).log@, (old(self).asked@, response as int), t);
                assert(old(self).knows(t));
                old(self).lemma_take(t, response as int);
                let e = old(self).pending_elems();
                crate::mushrooms::query::lemma_ones_run(t, e, x as int, len as int);
                crate::mushrooms::bits::lemma_ones_split(t, 0, x as int, x + len);
                crate::mushrooms::bits::lemma_ones_step(t, 0, x + len);
            }
        }
        proof {
            if self.full && self.n >= 4 {
                let l = old(self).lens();
                assert(self.lens() == l + 1);
                assert(l >= 1);
                if x2 < self.n {
                    lemma_finish_mono(l + 1, old(self).n - x2, old(self).n - x - (l + 1) / 2);
                }
                lemma_finish_mono(l + 1, old(self).n - x - (l + 1) / 2, old(self).n - x - (l + 1) / 2);
            }
        }
        proof {
            self.lemma_budget_nonneg();
        }
    }

    #[verifier::rlimit(100)]
    #[verifier::spinoff_prover]
    fn receive_bits(&mut self, response: usize, p: usize, ord: usize, start: usize)
        requires
            old(self).wf(),
            old(self).waiting,
            old(self).frontier() < old(self).n,
            response < old(self).asked@.len(),
            old(self).stage == (Stage::Bits { p, ord, start }),
        ensures
            final(self).wf(),
            !final(self).waiting,
            final(self).n == old(self).n,
            final(self).log@ == old(self).log@.push((old(self).asked@, response as int)),
            old(self).frontier() < final(self).frontier(),
            final(self).budget() < old(self).budget(),
            0 <= final(self).budget(),
    {
        proof {
            self.lemma_extra_fresh();
        }
        let m = self.plan[p];
        let w = self.bp[m].n;
        let qi = self.order[ord];
        proof {
            assert(self.plan@[p as int] <= 9);
            crate::mushrooms::bits::lemma_level_facts(self.bp@, 9, m as int);
            assert(qi < self.bp@[m as int].queries.len());
            crate::mushrooms::bits::lemma_increasing_len(self.bp@[m as int].queries@[qi as int]@, w as int);
            assert(self.len <= w);
        }
        let (c, ty) = self.take(response);
        proof {
            lemma_push_fresh(old(self).known.a@, old(self).known.b@, old(self).extra);
        }
        self.res.set(qi, c);
        let ghost mid = *self;
        proof {
            assert(self.plan@[p as int] <= 9);
            crate::mushrooms::bits::lemma_level_facts(self.bp@, 9, m as int);
            let ghost lengths = crate::mushrooms::bits::lengths(self.bp@[m as int].queries@);
            assert forall|o: int| 0 <= o < ord implies #[trigger] self.order@[o] != qi by {
                assert(crate::sort::before(lengths, self.order@[o] as int, self.order@[ord as int] as int));
            }
            assert forall|t: Seq<bool>| species(t, self.n as int) && #[trigger] truthful(self.log@, t) implies
                mid.lists_ok(t)
                && ones(t, 0, start as int) + ones(t, start + w, start + w + ord + 1) == self.known.a@.len()
                && forall|o: int| 0 <= o < ord + 1 ==> self.res@[#[trigger] self.order@[o] as int] == tally(
                    t.subrange(start as int, start + w),
                    self.bp@[m as int].queries@[self.order@[o] as int]@,
                ) by {
                lemma_truthful_push(old(self).log@, (old(self).asked@, response as int), t);
                assert(old(self).knows(t));
                old(self).lemma_bits_answer(t, response as int, p, ord, start);
                crate::mushrooms::bits::lemma_ones_step(t, start + w, start + w + ord);
                assert forall|o: int| 0 <= o < ord + 1 implies self.res@[#[trigger] self.order@[o] as int] == tally(
                    t.subrange(start as int, start + w),
                    self.bp@[m as int].queries@[self.order@[o] as int]@,
                ) by {
                    if o < ord {
                        assert(old(self).res@[old(self).order@[o] as int] == tally(
                            t.subrange(start as int, start + w),
                            self.bp@[m as int].queries@[self.order@[o] as int]@,
                        ));
                    }
                }
            }
        }
        if ord + 1 < pow2(m) {
            self.stage = Stage::Bits { p, ord: ord + 1, start };
            proof {
                assert forall|t: Seq<bool>| species(t, self.n as int) && #[trigger] truthful(self.log@, t) implies self.knows(t) by {
                    assert(mid.lists_ok(t));
                }
            }
        } else {
            proof {
                assert forall|t: Seq<bool>| species(t, self.n as int) && #[trigger] truthful(self.log@, t) implies self.lists_ok(t)
                    && ones(t, 0, start as int) + ones(t, start + w, start + w + pow_two(m as nat)) == self.known.a@.len()
                    && explains(self.bp@[m as int], self.res@, t.subrange(start as int, start + w)) by {
                    assert(mid.lists_ok(t));
                    lemma_explains(self.bp@[m as int], self.order@, self.res@, t.subrange(start as int, start + w));
                }
            }
            self.finish_phase(p, start);
            self.begin_phase(p + 1);
        }
        proof {
            self.lemma_budget_nonneg();
        }
    }

    /// Decodes the answers of the `p`-th problem of the plan and records the species of
    /// its bits.
    #[verifier::rlimit(50)]
    fn finish_phase(&mut self, p: usize, start: usize)
        requires
            old(self).base_shape(),
            !old(self).waiting,
            old(self).full,
            old(self).n >= 4,
            p < old(self).plan.len(),
            start == reach(old(self).bp@, old(self).plan@, 3, p as int),
            ({
                let m = old(self).level(p as int);
                let w = old(self).width(p as int);
                let h = pow_two(m as nat);
                &&& old(self).lens() == start + h
                &&& old(self).lists_in(start as int, start + w, start + w + h)
                &&& old(self).res.len() == h
                &&& forall|k: int| 0 <= k < old(self).res.len() ==> #[trigger] old(self).res@[k] <= 5120
                &&& forall|t: Seq<bool>|
                    species(t, old(self).n as int) && #[trigger] truthful(old(self).log@, t) ==> old(self).lists_ok(t)
                        && ones(t, 0, start as int) + ones(t, start + w, start + w + h) == old(self).known.a@.len()
                        && explains(old(self).bp@[m], old(self).res@, t.subrange(start as int, start + w))
            }),
        ensures
            final(self).base_shape(),
            !final(self).waiting,
            final(self).full,
            final(self).n == old(self).n,
            final(self).bp == old(self).bp,
            final(self).plan == old(self).plan,
            final(self).best == old(self).best,
            final(self).log@ == old(self).log@,
            final(self).lens() == reach(old(self).bp@, old(self).plan@, 3, p + 1),
            final(self).lists_in(final(self).lens(), final(self).lens(), final(self).lens()),
            forall|t: Seq<bool>|
                species(t, final(self).n as int) && #[trigger] truthful(final(self).log@, t) ==> final(self).lists_ok(t)
                    && ones(t, 0, final(self).lens()) == final(self).known.a@.len(),
    {
        let m = self.plan[p];
        let w = self.bp[m].n;
        proof {
            assert(self.plan@[p as int] <= 9);
            crate::mushrooms::bits::lemma_pow_two_le(m as nat, 9);
            reveal_with_fuel(pow_two, 10);
            lemma_reach_mono(self.bp@, self.plan@, p as int, p as int + 1);
            lemma_reach_mono(self.bp@, self.plan@, p as int + 1, self.plan.len() as int);
        }
        let h = pow2(m);
        let results = crate::mushrooms::bits::copy_vec(&self.res);
        proof {
            crate::mushrooms::bits::lemma_level_facts(self.bp@, 9, m as int);
            assert forall|k: int| 0 <= k < results.len() implies #[trigger] results@[k] <= i32::MAX by {
                assert(self.res@[k] <= 5120);
            }
        }
        let bits = solve_bits_problem(&self.bp, m, results);
        proof {
            assert forall|t: Seq<bool>| species(t, self.n as int) && #[trigger] truthful(self.log@, t) implies self.lists_ok(t)
                && ones(t, 0, start as int) + ones(t, start + w, start + w + h) == self.known.a@.len()
                && bits@ == t.subrange(start as int, start + w) by {
                assert(old(self).lists_ok(t));
            }
        }
        self.push_bits(&bits, start, w, h);
        proof {
            assert(reach(self.bp@, self.plan@, 3, p + 1) == start + w + h);
        }
    }
}

impl Solver {
    /// Records the species of mushrooms `start..start + w`, which `bits` gives.
    fn push_bits(&mut self, bits: &Vec<bool>, start: usize, w: usize, h: usize)
        requires
            old(self).lists_shape(),
            start + w + h < old(self).n,
            bits.len() == w,
            old(self).lens() == start + h,
            old(self).lists_in(start as int, start + w, start + w + h),
            forall|t: Seq<bool>|
                species(t, old(self).n as int) && #[trigger] truthful(old(self).log@, t) ==> old(self).lists_ok(t)
                    && ones(t, 0, start as int) + ones(t, start + w, start + w + h) == old(self).known.a@.len()
                    && bits@ == t.subrange(start as int, start + w),
        ensures
            final(self).lists_shape(),
            final(self).n == old(self).n,
            final(self).full == old(self).full,
            final(self).bp == old(self).bp,
            final(self).plan == old(self).plan,
            final(self).best == old(self).best,
            final(self).log == old(self).log,
            final(self).waiting == old(self).waiting,
            final(self).lens() == start + w + h,
            final(self).lists_in(start + w + h, start + w + h, start + w + h),
            forall|t: Seq<bool>|
                species(t, final(self).n as int) && #[trigger] truthful(final(self).log@, t) ==> final(self).lists_ok(t)
                    && ones(t, 0, start + w + h) == final(self).known.a@.len(),
    {
        let mut j: usize = 0;
        proof {
            assert forall|t: Seq<bool>| species(t, self.n as int) && #[trigger] truthful(self.log@, t) implies self.lists_ok(t) by {
                assert(old(self).lists_ok(t));
            }
            assert forall|t: Seq<bool>| species(t, self.n as int) && #[trigger] truthful(self.log@, t) implies self.lists_ok(t) && bits@ == t.subrange(start as int, start + w) by {
                assert(old(self).lists_ok(t));
            }
            assert forall|t: Seq<bool>| species(t, self.n as int) && #[trigger] truthful(self.log@, t) implies self.lists_ok(t) && ones(t, 0, start + j) + ones(t, start + w, start + w + h) == self.known.a@.len() by {
                assert(old(self).lists_ok(t));
            }
            assert(forall|t: Seq<bool>|
                    species(t, self.n as int) && #[trigger] truthful(self.log@, t) ==> self.lists_ok(t)
                        && ones(t, 0, start + j) + ones(t, start + w, start + w + h) == self.known.a@.len()
                        && bits@ == t.subrange(start as int, start + w));
        }
        while j < w
            invariant
                self.lists_shape(),
                self.n == old(self).n,
                self.full == old(self).full,
                self.bp == old(self).bp,
                self.plan == old(self).plan,
                self.best == old(self).best,
                self.log == old(self).log,
                self.waiting == old(self).waiting,
                bits.len() == w,
                start + w + h < self.n,
                j <= w,
                self.lens() == start + h + j,
                self.lists_in(start + j, start + w, start + w + h),
                forall|t: Seq<bool>|
                    species(t, self.n as int) && #[trigger] truthful(self.log@, t) ==> self.lists_ok(t)
                        && ones(t, 0, start + j) + ones(t, start + w, start + w + h) == self.known.a@.len()
                        && bits@ == t.subrange(start as int, start + w),
            decreases w - j,
        {
            let ghost before = *self;
            let y = start + j;
            proof {
                lemma_push_fresh(self.known.a@, self.known.b@, y);
            }
            self.known.push(a_if(bits[j]), y);
            proof {
                assert forall|t: Seq<bool>| species(t, self.n as int) && #[trigger] truthful(self.log@, t) implies self.lists_ok(t)
                    && ones(t, 0, start + j + 1) + ones(t, start + w, start + w + h) == self.known.a@.len()
                    && bits@ == t.subrange(start as int, start + w) by {
                    assert(before.lists_ok(t));
                    assert(bits@[j as int] == t[y as int]);
                    crate::mushrooms::bits::lemma_ones_step(t, 0, start + j);
                    if bits@[j as int] {
                        assert(self.known.a@ == before.known.a@.push(y));
                    } else {
                        assert(self.known.b@ == before.known.b@.push(y));
                    }
                }
            }
            j = j + 1;
        }
        proof {
            assert forall|t: Seq<bool>| species(t, self.n as int) && #[trigger] truthful(self.log@, t) implies self.lists_ok(t)
                && ones(t, 0, start + w + h) == self.known.a@.len() by {
                assert(self.lists_ok(t));
                crate::mushrooms::bits::lemma_ones_split(t, 0, start + w, start + w + h);
            }
        }
    }
}

} // verus!
