//! Running a batch of queries against a structure and cross-checking the
//! answers against those recorded earlier for the same ranges.

use vstd::prelude::*;
use std::collections::HashMap;
use crate::rmq::Rmq;

verus! {

broadcast use vstd::std_specs::hash::group_hash_axioms;

/// The answers recorded so far, by inclusive range `(l, r)`.
pub struct QueryLog {
    by_left: HashMap<usize, HashMap<usize, u64>>,
}

/// The recorded answers as one map from ranges.
pub open spec fn flatten(m: Map<usize, HashMap<usize, u64>>) -> Map<(usize, usize), u64> {
    Map::new(
        |k: (usize, usize)| m.contains_key(k.0) && m[k.0]@.contains_key(k.1),
        |k: (usize, usize)| m[k.0]@[k.1],
    )
}

impl View for QueryLog {
    type V = Map<(usize, usize), u64>;

    closed spec fn view(&self) -> Map<(usize, usize), u64> {
        flatten(self.by_left@)
    }
}

impl QueryLog {
    /// An empty log.
    pub fn new() -> (log: Self)
        ensures
            log@ == Map::<(usize, usize), u64>::empty(),
    {
        let log = QueryLog { by_left: HashMap::new() };
        assert(log@ =~= Map::<(usize, usize), u64>::empty());
        log
    }

    /// The answer recorded for `[l, r]`, if any.
    pub fn get(&self, l: usize, r: usize) -> (answer: Option<u64>)
        ensures
            answer == (if self@.contains_key((l, r)) { Some(self@[(l, r)]) } else { None::<u64> }),
    {
        match self.by_left.get(&l) {
            Some(inner) => match inner.get(&r) {
                Some(v) => Some(*v),
                None => None,
            },
            None => None,
        }
    }

    /// Record `minimum` for `[l, r]` unless an answer is already recorded for
    /// that range, in which case the log is left as it is and the recorded
    /// answer is returned.
    pub fn record(&mut self, l: usize, r: usize, minimum: u64) -> (previous: Option<u64>)
        ensures
            previous == (if old(self)@.contains_key((l, r)) { Some(old(self)@[(l, r)]) } else { None::<u64> }),
            old(self)@.contains_key((l, r)) ==> final(self)@ == old(self)@,
            !old(self)@.contains_key((l, r)) ==> final(self)@ == old(self)@.insert((l, r), minimum),
    {
        let existing = self.get(l, r);
        if existing.is_some() {
            return existing;
        }
        let ghost before = self.by_left@;
        let mut inner: HashMap<usize, u64> = match self.by_left.remove(&l) {
            Some(m) => m,
            None => HashMap::new(),
        };
        let ghost inner_before = inner@;
        inner.insert(r, minimum);
        self.by_left.insert(l, inner);
        proof {
            assert(flatten(self.by_left@) =~= flatten(before).insert((l, r), minimum)) by {
                assert forall|k: (usize, usize)| #[trigger] flatten(self.by_left@).contains_key(k)
                    == flatten(before).insert((l, r), minimum).contains_key(k) by {
                    if k.0 == l {
                        if before.contains_key(l) {
                            assert(inner_before == before[l]@);
                        }
                    }
                }
            }
        }
        None
    }
}

/// One mismatch: the range, the answer recorded earlier and the new answer.
pub type Mismatch = (usize, usize, u64, u64);

/// The state after answering the queries `qs` in order, starting from the
/// log `log`: the wrapping sum of the answers, the log with the first answer
/// for each range recorded, and the mismatches between a new answer and the
/// one recorded earlier for the same range.
pub open spec fn run_state<'a, R: Rmq<'a>>(
    rmq: R,
    qs: Seq<(usize, usize)>,
    log: Map<(usize, usize), u64>,
) -> (u64, Map<(usize, usize), u64>, Seq<Mismatch>)
    decreases qs.len(),
{
    if qs.len() == 0 {
        (0u64, log, Seq::empty())
    } else {
        let prev = run_state(rmq, qs.drop_last(), log);
        let (l, r) = qs.last();
        let v = rmq.answer(l as int, r as int);
        let sum = prev.0.wrapping_add(v);
        if prev.1.contains_key((l, r)) {
            let recorded = prev.1[(l, r)];
            (sum, prev.1, if recorded != v { prev.2.push((l, r, recorded, v)) } else { prev.2 })
        } else {
            (sum, prev.1.insert((l, r), v), prev.2)
        }
    }
}

/// The wrapping sum of the answers to the queries `qs`.
pub open spec fn answer_sum<'a, R: Rmq<'a>>(rmq: R, qs: Seq<(usize, usize)>) -> u64
    decreases qs.len(),
{
    if qs.len() == 0 {
        0u64
    } else {
        answer_sum(rmq, qs.drop_last()).wrapping_add(rmq.answer(qs.last().0 as int, qs.last().1 as int))
    }
}

/// The queries of `qs` whose range the log held before the run with an
/// answer other than the structure's, in order, each with the recorded and
/// the new answer.
pub open spec fn conflicts<'a, R: Rmq<'a>>(
    rmq: R,
    qs: Seq<(usize, usize)>,
    log: Map<(usize, usize), u64>,
) -> Seq<Mismatch>
    decreases qs.len(),
{
    if qs.len() == 0 {
        Seq::empty()
    } else {
        let (l, r) = qs.last();
        let v = rmq.answer(l as int, r as int);
        if log.contains_key((l, r)) && log[(l, r)] != v {
            conflicts(rmq, qs.drop_last(), log).push((l, r, log[(l, r)], v))
        } else {
            conflicts(rmq, qs.drop_last(), log)
        }
    }
}

/// What a run of queries reports, in terms of the log before the run: the
/// sum is the wrapping sum of the answers; the mismatches are exactly the
/// queries whose range the log already held with a different answer (in
/// either direction), in order; and afterwards the log holds every range it
/// held before with the same answer, plus every range queried, with the
/// structure's answer.
pub proof fn lemma_run_state<'a, R: Rmq<'a>>(rmq: R, qs: Seq<(usize, usize)>, log: Map<(usize, usize), u64>)
    ensures
        run_state(rmq, qs, log).0 == answer_sum(rmq, qs),
        run_state(rmq, qs, log).2 == conflicts(rmq, qs, log),
        forall|k: (usize, usize)|
            #[trigger] run_state(rmq, qs, log).1.contains_key(k) <==> (log.contains_key(k) || exists|i: int|
                0 <= i < qs.len() && qs[i] == k),
        forall|k: (usize, usize)|
            #[trigger] run_state(rmq, qs, log).1.contains_key(k) ==> run_state(rmq, qs, log).1[k] == (if log.contains_key(k) {
                log[k]
            } else {
                rmq.answer(k.0 as int, k.1 as int)
            }),
    decreases qs.len(),
{
    if qs.len() > 0 {
        let prev = qs.drop_last();
        lemma_run_state(rmq, prev, log);
        let st = run_state(rmq, prev, log);
        let x = qs.last();
        let after = run_state(rmq, qs, log);
        assert forall|k: (usize, usize)|
            #[trigger] after.1.contains_key(k) <==> (log.contains_key(k) || exists|i: int| 0 <= i < qs.len() && qs[i] == k) by {
            if exists|i: int| 0 <= i < qs.len() && qs[i] == k {
                let i = choose|i: int| 0 <= i < qs.len() && qs[i] == k;
                if i < prev.len() {
                    assert(prev[i] == k);
                }
            }
            if exists|i: int| 0 <= i < prev.len() && prev[i] == k {
                let i = choose|i: int| 0 <= i < prev.len() && prev[i] == k;
                assert(qs[i] == k);
            }
        }
    }
}

/// The outcome of a batch of queries.
pub struct QueryRun {
    /// Wrapping sum of the answers.
    pub sum: u64,
    /// Answers that differ from the ones recorded for the same range.
    pub mismatches: Vec<Mismatch>,
    /// How many queries were answered; fewer than all when a query could not
    /// be asked of the structure.
    pub answered: usize,
}

/// Answer the queries in order, summing the answers with wrapping addition
/// and checking each against the log: the first answer for a range is
/// recorded, a later different one is reported. Stops at the first query the
/// structure cannot answer.
pub fn run_queries<'a, R: Rmq<'a>>(rmq: &R, queries: &Vec<(usize, usize)>, log: &mut QueryLog) -> (run: QueryRun)
    requires
        rmq.well_formed(),
    ensures
        run.answered <= queries@.len(),
        forall|j: int| 0 <= j < run.answered ==> rmq.answerable(#[trigger] queries@[j].0 as int, queries@[j].1 as int),
        run.answered < queries@.len() ==> !rmq.answerable(
            queries@[run.answered as int].0 as int,
            queries@[run.answered as int].1 as int,
        ),
        (run.sum, final(log)@, run.mismatches@) == run_state(*rmq, queries@.take(run.answered as int), old(log)@),
        run.sum == answer_sum(*rmq, queries@.take(run.answered as int)),
        run.mismatches@ == conflicts(*rmq, queries@.take(run.answered as int), old(log)@),
{
    let mut sum: u64 = 0;
    let mut mismatches: Vec<Mismatch> = Vec::new();
    let mut i: usize = 0;
    assert(queries@.take(0) =~= Seq::<(usize, usize)>::empty());
    while i < queries.len()
        invariant
            rmq.well_formed(),
            i <= queries@.len(),
            forall|j: int| 0 <= j < i ==> rmq.answerable(#[trigger] queries@[j].0 as int, queries@[j].1 as int),
            (sum, log@, mismatches@) == run_state(*rmq, queries@.take(i as int), old(log)@),
        decreases queries@.len() - i,
    {
        let (l, r) = queries[i];
        if !rmq.can_answer(l, r) {
            proof { lemma_run_state(*rmq, queries@.take(i as int), old(log)@); }
            return QueryRun { sum, mismatches, answered: i };
        }
        let minimum: u64 = rmq.query(l, r);
        let previous = log.record(l, r, minimum);
        match previous {
            Some(old_answer) => {
                if old_answer != minimum {
                    mismatches.push((l, r, old_answer, minimum));
                }
            },
            None => {},
        }
        sum = sum.wrapping_add(minimum);
        assert(queries@.take(i + 1).drop_last() =~= queries@.take(i as int));
        i = i + 1;
    }
    assert(queries@.take(queries@.len() as int) =~= queries@);
    proof { lemma_run_state(*rmq, queries@.take(i as int), old(log)@); }
    QueryRun { sum, mismatches, answered: i }
}

} // verus!
