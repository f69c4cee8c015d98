//! The shared counter that the locked workloads step: one writer advances it
//! one transition at a time and any number of readers inspect it, each under
//! whatever lock the workload wraps it in.
use vstd::prelude::*;

use crate::transition::{
    collatz, hits_one_first_at, iterate, lemma_iterate_succ, reaches_one,
    step, stopping_time, trace,
};

verus! {

/// The abstract state of a counter: where it started, how many transitions
/// the writer has applied, and the value it holds now.
pub struct CounterView {
    pub seed: nat,
    pub steps: nat,
    pub value: nat,
}

/// A counter on the trajectory from its seed. Only `advance` changes it.
pub struct Counter {
    seed: u32,
    value: u32,
    steps: u64,
}

impl View for Counter {
    type V = CounterView;

    closed spec fn view(&self) -> CounterView {
        CounterView { seed: self.seed as nat, steps: self.steps as nat, value: self.value as nat }
    }
}

impl Counter {
    /// The counter sits on the trajectory from its seed, no further than the
    /// first visit to 1.
    pub open spec fn wf(&self) -> bool {
        &&& reaches_one(self@.seed)
        &&& self@.steps <= stopping_time(self@.seed)
        &&& self@.value == iterate(self@.seed, self@.steps)
    }

    /// Every value the writer has stored so far, the seed first.
    pub open spec fn history(&self) -> Seq<nat> {
        trace(self@.seed, self@.steps)
    }

    /// How many more transitions the writer will apply.
    pub open spec fn remaining(&self) -> nat {
        (stopping_time(self@.seed) - self@.steps) as nat
    }

    proof fn lemma_wf_facts(&self)
        requires
            self.wf(),
        ensures
            stopping_time(self@.seed) <= u64::MAX,
            hits_one_first_at(self@.seed, stopping_time(self@.seed)),
            self@.value == 1 <==> self@.steps == stopping_time(self@.seed),
            self@.value != 1 ==> step(self@.value) <= u32::MAX,
    {
        let t = stopping_time(self@.seed);
        if self@.steps < t {
            assert(iterate(self@.seed, self@.steps) != 1);
        }
    }

    /// A counter holding `seed`, with no transition applied yet.
    pub fn new(seed: u32) -> (r: Counter)
        requires
            reaches_one(seed as nat),
        ensures
            r.wf(),
            r@ == (CounterView { seed: seed as nat, steps: 0, value: seed as nat }),
            r.history() == seq![seed as nat],
    {
        let r = Counter { seed, value: seed, steps: 0 };
        assert(r.history() =~= seq![seed as nat]);
        r
    }

    /// The writer's step: when the counter is not at 1, stores the next value
    /// of the trajectory and returns `true`; at 1 it leaves the counter as it
    /// is and returns `false`.
    pub fn advance(&mut self) -> (moved: bool)
        requires
            old(self).wf(),
        ensures
            final(self).wf(),
            moved == (old(self)@.value != 1),
            moved ==> final(self)@ == (CounterView {
                seed: old(self)@.seed,
                steps: old(self)@.steps + 1,
                value: step(old(self)@.value),
            }),
            moved ==> final(self).history() == old(self).history().push(final(self)@.value),
            moved ==> final(self).remaining() < old(self).remaining(),
            !moved ==> *final(self) == *old(self),
            !moved ==> old(self).remaining() == 0,
    {
        proof {
            self.lemma_wf_facts();
            lemma_iterate_succ(self@.seed, self@.steps);
        }
        match collatz(self.value) {
            None => false,
            Some(next) => {
                let ghost before = self.history();
                self.value = next;
                self.steps = self.steps + 1;
                assert(self.history() =~= before.push(self@.value));
                true
            },
        }
    }

    /// The value the counter holds now.
    pub fn current(&self) -> (v: u32)
        requires
            self.wf(),
        ensures
            v == self@.value,
            self.history().last() == v,
    {
        self.value
    }

    /// The readers' test: whether the counter has reached the terminal value.
    pub fn is_terminal(&self) -> (done: bool)
        ensures
            done == (self@.value == 1),
    {
        self.value == 1
    }

    /// The number of transitions the writer has applied.
    pub fn steps(&self) -> (n: u64)
        ensures
            n == self@.steps,
    {
        self.steps
    }

    /// The value the counter started from.
    pub fn seed(&self) -> (s: u32)
        ensures
            s == self@.seed,
    {
        self.seed
    }
}

/// The writer has a finite number of transitions left, and the counter is at
/// 1, the readers' stopping condition, exactly when none is left: every
/// participant of a locked workload stops.
pub proof fn lemma_run_terminates(c: &Counter)
    requires
        c.wf(),
    ensures
        c.remaining() <= u64::MAX,
        (c@.value == 1) == (c.remaining() == 0),
{
    c.lemma_wf_facts();
}

/// Once the counter is at 1, the writer has applied exactly the stopping time
/// of the seed and has stored exactly the trajectory from the seed to 1. This
/// depends on the seed alone, so every workload that drives a counter from the
/// same seed, whatever its readers and locks, makes the same writer steps, and
/// the same number of them as the baseline.
pub proof fn lemma_finished_writer_trace(c: &Counter)
    requires
        c.wf(),
        c@.value == 1,
    ensures
        c@.steps == stopping_time(c@.seed),
        c.history() == trace(c@.seed, stopping_time(c@.seed)),
{
    c.lemma_wf_facts();
}

/// Any value a reader can find in a counter, at any point of the run, is one
/// of the values of the writer's full sequence from the seed to 1.
pub proof fn lemma_observed_value_on_trace(c: &Counter)
    requires
        c.wf(),
    ensures
        trace(c@.seed, stopping_time(c@.seed)).contains(c@.value),
{
    let full = trace(c@.seed, stopping_time(c@.seed));
    assert(full[c@.steps as int] == c@.value);
}

} // verus!
