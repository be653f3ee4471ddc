//! The record of the calls made to the machine, and the rules that `solve` keeps when
//! it makes them.
use vstd::prelude::*;

verus! {

/// One call to the machine.
pub enum Call {
    Inside(usize),
    Outside(usize),
    Press,
}

/// The insects moved inside, in the order of the calls.
pub open spec fn moved_in(log: Seq<(Call, bool)>) -> Seq<usize>
    decreases log.len(),
{
    if log.len() == 0 {
        Seq::empty()
    } else {
        let rest = moved_in(log.drop_last());
        match log.last().0 {
            Call::Inside(i) => rest.push(i),
            _ => rest,
        }
    }
}

/// The insects moved outside, in the order of the calls.
pub open spec fn moved_out(log: Seq<(Call, bool)>) -> Seq<usize>
    decreases log.len(),
{
    if log.len() == 0 {
        Seq::empty()
    } else {
        let rest = moved_out(log.drop_last());
        match log.last().0 {
            Call::Outside(i) => rest.push(i),
            _ => rest,
        }
    }
}

/// The number of presses of the button.
pub open spec fn presses(log: Seq<(Call, bool)>) -> nat
    decreases log.len(),
{
    if log.len() == 0 {
        0
    } else {
        presses(log.drop_last()) + if log.last().0 == Call::Press {
            1nat
        } else {
            0nat
        }
    }
}

/// Call `j` of the log keeps the rules: a move finds its insect on the other side
/// (the flag logged with it), a move inside is followed at once by a press, and a
/// press comes right after a move inside.
pub open spec fn call_ok(log: Seq<(Call, bool)>, j: int) -> bool {
    match log[j].0 {
        Call::Inside(_) => log[j].1 && j + 1 < log.len() && log[j + 1].0 == Call::Press,
        Call::Outside(_) => log[j].1,
        Call::Press => 1 <= j && log[j - 1].0 is Inside,
    }
}

/// Every call from index `from` on keeps the rules.
pub open spec fn orderly(log: Seq<(Call, bool)>, from: int) -> bool {
    forall|j: int| from <= j < log.len() ==> #[trigger] call_ok(log, j)
}

/// The `n` insects moved inside from position `start` on are `0..n`, each once.
pub open spec fn covers_once(ids: Seq<usize>, start: int, n: int) -> bool {
    &&& 0 <= start
    &&& start + n <= ids.len()
    &&& ids.subrange(start, start + n).no_duplicates()
    &&& forall|j: int| 0 <= j < n ==> #[trigger] ids.subrange(start, start + n).contains(j as usize)
}

/// What one more call adds to the three tallies.
pub proof fn lemma_log_push(log: Seq<(Call, bool)>, c: (Call, bool))
    ensures
        moved_in(log.push(c)) == match c.0 {
            Call::Inside(i) => moved_in(log).push(i),
            _ => moved_in(log),
        },
        moved_out(log.push(c)) == match c.0 {
            Call::Outside(i) => moved_out(log).push(i),
            _ => moved_out(log),
        },
        presses(log.push(c)) == presses(log) + if c.0 == Call::Press {
            1nat
        } else {
            0nat
        },
{
    assert(log.push(c).drop_last() =~= log);
}

/// A move inside that found its insect outside, then a press, and perhaps the same
/// insect moved back out: the log stays orderly and grows by one move inside.
pub proof fn lemma_round(start: Seq<(Call, bool)>, log0: Seq<(Call, bool)>, log1: Seq<(Call, bool)>, i: usize, back: bool)
    requires
        start.is_prefix_of(log0),
        orderly(log0, start.len() as int),
        log1 == if back {
            log0.push((Call::Inside(i), true)).push((Call::Press, false)).push((Call::Outside(i), true))
        } else {
            log0.push((Call::Inside(i), true)).push((Call::Press, false))
        },
    ensures
        start.is_prefix_of(log1),
        orderly(log1, start.len() as int),
        moved_in(log1) == moved_in(log0).push(i),
        moved_out(log1) == if back { moved_out(log0).push(i) } else { moved_out(log0) },
        presses(log1) == presses(log0) + 1,
{
    let a = log0.push((Call::Inside(i), true));
    let b = a.push((Call::Press, false));
    lemma_log_push(log0, (Call::Inside(i), true));
    lemma_log_push(a, (Call::Press, false));
    if back {
        lemma_log_push(b, (Call::Outside(i), true));
    }
    assert(log1.subrange(0, start.len() as int) =~= log0.subrange(0, start.len() as int));
    assert forall|j: int| start.len() <= j < log1.len() implies #[trigger] call_ok(log1, j) by {
        if j < log0.len() {
            assert(call_ok(log0, j));
            assert(log1[j] == log0[j]);
            if log0[j].0 is Inside {
                assert(log1[j + 1] == log0[j + 1]);
            }
            if log0[j].0 is Press {
                assert(log1[j - 1] == log0[j - 1]);
            }
        } else if j == log0.len() {
            assert(log1[j] == (Call::Inside(i), true));
            assert(log1[j + 1] == (Call::Press, false));
        } else if j == log0.len() + 1 {
            assert(log1[j - 1] == (Call::Inside(i), true));
        }
    }
}

/// A move outside that found its insect inside keeps the log orderly and moves
/// nothing inside.
pub proof fn lemma_out(start: Seq<(Call, bool)>, log0: Seq<(Call, bool)>, i: usize)
    requires
        start.is_prefix_of(log0),
        orderly(log0, start.len() as int),
    ensures
        start.is_prefix_of(log0.push((Call::Outside(i), true))),
        orderly(log0.push((Call::Outside(i), true)), start.len() as int),
        moved_in(log0.push((Call::Outside(i), true))) == moved_in(log0),
        moved_out(log0.push((Call::Outside(i), true))) == moved_out(log0).push(i),
        presses(log0.push((Call::Outside(i), true))) == presses(log0),
{
    let log1 = log0.push((Call::Outside(i), true));
    lemma_log_push(log0, (Call::Outside(i), true));
    assert(log1.subrange(0, start.len() as int) =~= log0.subrange(0, start.len() as int));
    assert forall|j: int| start.len() <= j < log1.len() implies #[trigger] call_ok(log1, j) by {
        if j < log0.len() {
            assert(call_ok(log0, j));
            assert(log1[j] == log0[j]);
            if log0[j].0 is Inside {
                assert(log1[j + 1] == log0[j + 1]);
            }
            if log0[j].0 is Press {
                assert(log1[j - 1] == log0[j - 1]);
            }
        }
    }
}

/// Two orderly stretches, one after the other, make one.
pub proof fn lemma_join(a: Seq<(Call, bool)>, b: Seq<(Call, bool)>, c: Seq<(Call, bool)>)
    requires
        a.is_prefix_of(b),
        orderly(b, a.len() as int),
        b.is_prefix_of(c),
        orderly(c, b.len() as int),
    ensures
        a.is_prefix_of(c),
        orderly(c, a.len() as int),
{
    assert(c.subrange(0, a.len() as int) =~= b.subrange(0, a.len() as int));
    assert forall|j: int| a.len() <= j < c.len() implies #[trigger] call_ok(c, j) by {
        if j < b.len() {
            assert(call_ok(b, j));
            assert(c[j] == b[j]);
            if b[j].0 is Inside {
                assert(c[j + 1] == b[j + 1]);
            }
            if b[j].0 is Press {
                assert(c[j - 1] == b[j - 1]);
            }
        } else {
            assert(call_ok(c, j));
        }
    }
}

/// A log that starts with one that starts with `a` starts with `a`.
pub proof fn lemma_prefix_trans(a: Seq<(Call, bool)>, b: Seq<(Call, bool)>, c: Seq<(Call, bool)>)
    requires
        a.is_prefix_of(b),
        b.is_prefix_of(c),
    ensures
        a.is_prefix_of(c),
{
    assert(c.subrange(0, a.len() as int) =~= b.subrange(0, a.len() as int));
}

/// A longer log moves inside at least what a shorter one it starts with does.
pub proof fn lemma_moved_in_prefix(a: Seq<(Call, bool)>, b: Seq<(Call, bool)>)
    requires
        a.is_prefix_of(b),
    ensures
        moved_in(a).is_prefix_of(moved_in(b)),
    decreases b.len(),
{
    if b.len() == a.len() {
        assert(b =~= a);
    } else {
        let c = b.drop_last();
        assert(a.is_prefix_of(c)) by {
            assert(c.subrange(0, a.len() as int) =~= b.subrange(0, a.len() as int));
        }
        lemma_moved_in_prefix(a, c);
        assert(b =~= c.push(b.last()));
        lemma_log_push(c, b.last());
        let ma = moved_in(a);
        let mc = moved_in(c);
        let mb = moved_in(b);
        assert(mb.subrange(0, ma.len() as int) =~= mc.subrange(0, ma.len() as int));
    }
}

/// A whole log that keeps the rules presses the button exactly as often as it moves
/// an insect inside: each press follows a move inside, and each move inside is
/// followed by a press.
pub proof fn law_presses_match_moves_inside(log: Seq<(Call, bool)>)
    requires
        orderly(log, 0),
    ensures
        presses(log) == moved_in(log).len(),
    decreases log.len(),
{
    if log.len() > 0 {
        let k = log.len() - 1;
        assert(call_ok(log, k));
        let a = log.drop_last();
        assert(log =~= a.push(log.last()));
        lemma_log_push(a, log.last());
        if log.last().0 is Outside {
            assert forall|j: int| 0 <= j < a.len() implies #[trigger] call_ok(a, j) by {
                assert(call_ok(log, j));
                assert(a[j] == log[j]);
                if log[j].0 is Inside {
                    assert(j + 1 != k);
                    assert(a[j + 1] == log[j + 1]);
                }
                if log[j].0 is Press {
                    assert(a[j - 1] == log[j - 1]);
                }
            }
            law_presses_match_moves_inside(a);
        } else {
            assert(log.last().0 is Press);
            let b = a.drop_last();
            assert(a =~= b.push(a.last()));
            lemma_log_push(b, a.last());
            assert(a.last() == log[k - 1]);
            assert forall|j: int| 0 <= j < b.len() implies #[trigger] call_ok(b, j) by {
                assert(call_ok(log, j));
                assert(b[j] == log[j]);
                if log[j].0 is Inside {
                    assert(j + 1 != k - 1);
                    assert(j + 1 != k);
                    assert(b[j + 1] == log[j + 1]);
                }
                if log[j].0 is Press {
                    assert(b[j - 1] == log[j - 1]);
                }
            }
            law_presses_match_moves_inside(b);
        }
    }
}

} // verus!
