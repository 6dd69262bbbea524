//! When the loop stops.
//!
//! The tensors of an iteration are computed by the backend; these controllers
//! say which iteration comes next, what it has to report, and when it is over.

use vstd::prelude::*;

use super::config::StopMode;

verus! {

/// One iteration of the ACT loop.
#[derive(Debug, Clone, Copy, PartialEq, Eq, Structural)]
pub struct ActStep {
    /// The iteration's number, from 1.
    pub step: usize,
    /// Whether everything still running is force-halted with its remainder.
    pub last: bool,
    /// Whether the number of running tokens is read back after it: every
    /// second iteration and the last one. The host sync stalls the pipeline,
    /// and the break only skips halted tail iterations.
    pub checked: bool,
}

/// The Graves-style ACT loop: up to `max_loops` iterations, over as soon as a
/// checked iteration finds no token that was running.
#[derive(Debug)]
pub struct ActLoop {
    max: usize,
    step: usize,
    over: bool,
}

/// Whether the running tokens are counted after iteration `s`.
pub open spec fn is_checked(s: nat, max: nat) -> bool {
    s == max || s % 2 == 0
}

/// Whether the loop ends with iteration `s`, in which `idle` says that no token
/// was running.
pub open spec fn ends_at(s: nat, max: nat, idle: bool) -> bool {
    is_checked(s, max) && idle
}

/// What an [`ActLoop`] knows.
#[verifier::ext_equal]
pub struct ActModel {
    pub max: nat,
    /// Iterations begun.
    pub step: nat,
    /// Whether the loop was ended early.
    pub over: bool,
}

/// Whether another iteration is to be run.
pub open spec fn act_goes_on(m: ActModel) -> bool {
    !m.over && m.step < m.max
}

/// The loop with its next iteration begun, if there is one.
pub open spec fn act_begun(m: ActModel) -> ActModel {
    if act_goes_on(m) {
        ActModel { step: m.step + 1, ..m }
    } else {
        m
    }
}

/// The loop after the report that in its latest iteration no token was
/// running, or some was.
pub open spec fn act_reported(m: ActModel, idle: bool) -> ActModel {
    ActModel { over: m.over || ends_at(m.step, m.max, idle), ..m }
}

/// Iterations actually executed: where the loop was ended, or all.
pub open spec fn act_used(m: ActModel) -> nat {
    if m.over {
        m.step
    } else {
        m.max
    }
}

impl View for ActLoop {
    type V = ActModel;

    closed spec fn view(&self) -> ActModel {
        ActModel { max: self.max as nat, step: self.step as nat, over: self.over }
    }
}

impl ActLoop {
    pub open spec fn inv(&self) -> bool {
        self@.step <= self@.max
    }

    /// A loop of up to `max_loops` iterations.
    pub fn new(max_loops: usize) -> (r: Self)
        ensures
            r.inv(),
            r@ == (ActModel { max: max_loops as nat, step: 0, over: false }),
    {
        ActLoop { max: max_loops, step: 0, over: false }
    }

    /// The next iteration; `None` when the loop is over.
    pub fn next(&mut self) -> (r: Option<ActStep>)
        requires
            old(self).inv(),
        ensures
            final(self).inv(),
            final(self)@ == act_begun(old(self)@),
            r is Some <==> act_goes_on(old(self)@),
            r matches Some(x) ==> {
                let s = final(self)@.step;
                x.step == s && x.last == (s == old(self)@.max) && x.checked == is_checked(
                    s,
                    old(self)@.max,
                )
            },
    {
        if self.over || self.step == self.max {
            return None;
        }
        self.step = self.step + 1;
        Some(
            ActStep {
                step: self.step,
                last: self.step == self.max,
                checked: self.step == self.max || self.step % 2 == 0,
            },
        )
    }

    /// Reports whether no token was running in the iteration just run. Looked
    /// at only after a checked one.
    pub fn report(&mut self, idle: bool)
        requires
            old(self).inv(),
        ensures
            final(self).inv(),
            final(self)@ == act_reported(old(self)@, idle),
    {
        if (self.step == self.max || self.step % 2 == 0) && idle {
            self.over = true;
        }
    }

    /// Iterations actually executed: where the loop was ended, or all.
    pub fn steps_used(&self) -> (r: usize)
        ensures
            r == act_used(self@),
    {
        if self.over {
            self.step
        } else {
            self.max
        }
    }
}

/// The loop run to its end, where `idle[s - 1]` is reported after iteration
/// `s`.
pub open spec fn act_run(m: ActModel, idle: Seq<bool>) -> ActModel
    decreases m.max - m.step,
{
    if act_goes_on(m) {
        act_run(act_reported(act_begun(m), idle[m.step as int]), idle)
    } else {
        m
    }
}

/// The loop ends at the first checked iteration that found nothing running:
/// none before it did, and without one it runs to its maximum.
pub proof fn lemma_act_ends_first(m: ActModel, idle: Seq<bool>)
    requires
        m.step <= m.max,
        !m.over,
    ensures
        ({
            let n = act_used(act_run(m, idle));
            &&& m.step <= n <= m.max
            &&& forall|s: nat| m.step < s < n ==> !#[trigger] ends_at(s, m.max, idle[s - 1])
            &&& n < m.max ==> ends_at(n, m.max, idle[n - 1])
        }),
    decreases m.max - m.step,
{
    if m.step < m.max {
        let next = act_reported(act_begun(m), idle[m.step as int]);
        assert(act_run(m, idle) == act_run(next, idle));
        if next.over {
            assert(act_run(next, idle) == next);
        } else {
            lemma_act_ends_first(next, idle);
            let n = act_used(act_run(m, idle));
            assert forall|s: nat| m.step < s < n implies !#[trigger] ends_at(
                s,
                m.max,
                idle[s - 1],
            ) by {
                if s == next.step {
                    assert(!ends_at(next.step, m.max, idle[m.step as int]));
                }
            }
        }
    }
}

/// The latent-convergence loop: up to `max_loops` iterations, over once the
/// relative state change has stayed below the tolerance often enough in a row.
#[derive(Debug)]
pub struct ConvergeLoop {
    max: usize,
    patience: usize,
    step: usize,
    calm: usize,
    over: bool,
}

/// What a [`ConvergeLoop`] knows.
#[verifier::ext_equal]
pub struct ConvergeModel {
    pub max: nat,
    pub patience: nat,
    /// Iterations reported.
    pub step: nat,
    /// Calm iterations in a row.
    pub calm: nat,
    pub over: bool,
}

/// Whether another iteration is to be run.
pub open spec fn converge_goes_on(m: ConvergeModel) -> bool {
    !m.over && m.step < m.max
}

/// The loop after an iteration whose relative state change was below the
/// tolerance, or was not.
pub open spec fn converge_reported(m: ConvergeModel, below: bool) -> ConvergeModel {
    let calm = if below {
        m.calm + 1
    } else {
        0
    };
    ConvergeModel { step: m.step + 1, calm, over: below && calm >= m.patience, ..m }
}

/// Iterations actually executed: where the loop converged, or all.
pub open spec fn converge_used(m: ConvergeModel) -> nat {
    if m.over {
        m.step
    } else {
        m.max
    }
}

impl View for ConvergeLoop {
    type V = ConvergeModel;

    closed spec fn view(&self) -> ConvergeModel {
        ConvergeModel {
            max: self.max as nat,
            patience: self.patience as nat,
            step: self.step as nat,
            calm: self.calm as nat,
            over: self.over,
        }
    }
}

impl ConvergeLoop {
    pub open spec fn inv(&self) -> bool {
        self@.calm <= self@.step <= self@.max
    }

    /// A loop of up to `max_loops` iterations that waits for `patience` calm
    /// ones.
    pub fn new(max_loops: usize, patience: usize) -> (r: Self)
        ensures
            r.inv(),
            r@ == (ConvergeModel {
                max: max_loops as nat,
                patience: patience as nat,
                step: 0,
                calm: 0,
                over: false,
            }),
    {
        ConvergeLoop { max: max_loops, patience, step: 0, calm: 0, over: false }
    }

    /// Whether another iteration is to be run.
    pub fn running(&self) -> (r: bool)
        ensures
            r == converge_goes_on(self@),
    {
        !self.over && self.step < self.max
    }

    /// Reports an iteration: whether its relative state change was below the
    /// tolerance.
    pub fn report(&mut self, below: bool)
        requires
            old(self).inv(),
            converge_goes_on(old(self)@),
        ensures
            final(self).inv(),
            final(self)@ == converge_reported(old(self)@, below),
    {
        self.step = self.step + 1;
        if below {
            self.calm = self.calm + 1;
            if self.calm >= self.patience {
                self.over = true;
            }
        } else {
            self.calm = 0;
        }
    }

    /// Iterations actually executed: where the loop converged, or all.
    pub fn steps_used(&self) -> (r: usize)
        ensures
            r == converge_used(self@),
    {
        if self.over {
            self.step
        } else {
            self.max
        }
    }
}

/// How many of the last reports in a row were calm.
pub open spec fn calm_run(reports: Seq<bool>) -> nat
    decreases reports.len(),
{
    if reports.len() == 0 || !reports.last() {
        0
    } else {
        calm_run(reports.drop_last()) + 1
    }
}

/// Whether reports end in a calm run that is long enough.
pub open spec fn converged(reports: Seq<bool>, patience: nat) -> bool {
    reports.len() > 0 && reports.last() && calm_run(reports) >= patience
}

/// The loop run to its end, where `below[s - 1]` is reported of iteration `s`.
pub open spec fn converge_run(m: ConvergeModel, below: Seq<bool>) -> ConvergeModel
    decreases m.max - m.step,
{
    if converge_goes_on(m) {
        converge_run(converge_reported(m, below[m.step as int]), below)
    } else {
        m
    }
}

/// The loop ends with the first iteration after which the reports end in a
/// calm run that is long enough: no earlier one does, and without one it runs
/// to its maximum.
pub proof fn lemma_converge_ends_first(m: ConvergeModel, below: Seq<bool>)
    requires
        m.step <= m.max <= below.len(),
        !m.over,
        m.calm == calm_run(below.take(m.step as int)),
    ensures
        ({
            let n = converge_used(converge_run(m, below));
            &&& m.step <= n <= m.max
            &&& forall|s: int| m.step < s < n ==> !converged(#[trigger] below.take(s), m.patience)
            &&& n < m.max ==> converged(below.take(n as int), m.patience)
        }),
    decreases m.max - m.step,
{
    if m.step < m.max {
        let next = converge_reported(m, below[m.step as int]);
        let told = below.take(m.step as int + 1);
        assert(told.drop_last() =~= below.take(m.step as int));
        assert(told.last() == below[m.step as int]);
        assert(next.calm == calm_run(told));
        assert(converge_run(m, below) == converge_run(next, below));
        if next.over {
            assert(converge_run(next, below) == next);
        } else {
            lemma_converge_ends_first(next, below);
        }
    }
}

/// The most iterations a mode runs on a model with `max_loops`.
pub fn loop_limit(mode: StopMode, max_loops: usize) -> (r: usize)
    ensures
        r == match mode {
            StopMode::Fixed { loops } => loops,
            StopMode::Act => max_loops,
            StopMode::Converge => max_loops,
        },
{
    match mode {
        StopMode::Fixed { loops } => loops,
        StopMode::Act => max_loops,
        StopMode::Converge => max_loops,
    }
}

/// The tokens that are real, over all rows.
pub open spec fn real_tokens(lengths: Seq<usize>) -> nat
    decreases lengths.len(),
{
    if lengths.len() == 0 {
        0
    } else {
        real_tokens(lengths.drop_last()) + lengths.last() as nat
    }
}

/// How many tokens are real, over all rows: what every iteration adds to the
/// counts of the input statistics.
pub fn real_count(lengths: &[usize]) -> (r: usize)
    requires
        real_tokens(lengths@) <= usize::MAX,
    ensures
        r == real_tokens(lengths@),
{
    let mut n: usize = 0;
    let mut i: usize = 0;
    while i < lengths.len()
        invariant
            i <= lengths@.len(),
            real_tokens(lengths@) <= usize::MAX,
            n == real_tokens(lengths@.take(i as int)),
        decreases lengths@.len() - i,
    {
        assert(lengths@.take(i + 1).drop_last() =~= lengths@.take(i as int));
        proof {
            lemma_real_tokens_grow(lengths@, i + 1);
        }
        n = n + lengths[i];
        i = i + 1;
    }
    assert(lengths@.take(i as int) =~= lengths@);
    n
}

proof fn lemma_real_tokens_grow(lengths: Seq<usize>, n: int)
    requires
        0 <= n <= lengths.len(),
    ensures
        real_tokens(lengths.take(n)) <= real_tokens(lengths),
    decreases lengths.len(),
{
    if n == lengths.len() {
        assert(lengths.take(n) =~= lengths);
    } else {
        lemma_real_tokens_grow(lengths.drop_last(), n);
        assert(lengths.drop_last().take(n) =~= lengths.take(n));
    }
}

/// The ACT loop, iteration by iteration: it goes on until it was ended or has
/// done them all; every second iteration and the last one are checked, and one
/// of these that finds nothing running ends it, where it is then.
pub proof fn lemma_act_steps(m: ActModel, idle: bool)
    ensures
        act_goes_on(m) <==> !m.over && m.step < m.max,
        act_goes_on(m) ==> act_begun(m) == (ActModel { max: m.max, step: m.step + 1, over: false }),
        !act_goes_on(m) ==> act_begun(m) == m,
        act_reported(m, idle).step == m.step,
        act_reported(m, idle).max == m.max,
        act_reported(m, idle).over <==> m.over || (idle && (m.step == m.max || m.step % 2 == 0)),
        m.over ==> act_used(m) == m.step,
        !m.over ==> act_used(m) == m.max,
        is_checked(m.step, m.max) <==> m.step == m.max || m.step % 2 == 0,
{
}

/// The convergence loop, iteration by iteration: calm iterations in a row are
/// counted, one that is not starts the count anew, and enough of them end it.
pub proof fn lemma_converge_steps(m: ConvergeModel)
    ensures
        converge_goes_on(m) <==> !m.over && m.step < m.max,
        converge_reported(m, false) == (ConvergeModel {
            max: m.max,
            patience: m.patience,
            step: m.step + 1,
            calm: 0,
            over: false,
        }),
        converge_reported(m, true) == (ConvergeModel {
            max: m.max,
            patience: m.patience,
            step: m.step + 1,
            calm: m.calm + 1,
            over: m.calm + 1 >= m.patience,
        }),
        m.over ==> converge_used(m) == m.step,
        !m.over ==> converge_used(m) == m.max,
{
}

/// The calm run is the longest run of calm reports that the reports end with.
pub proof fn lemma_calm_run(reports: Seq<bool>)
    ensures
        calm_run(reports) <= reports.len(),
        forall|i: int|
            reports.len() - calm_run(reports) <= i < reports.len() ==> #[trigger] reports[i],
        calm_run(reports) < reports.len() ==> !reports[reports.len() - calm_run(reports) - 1],
    decreases reports.len(),
{
    if reports.len() > 0 && reports.last() {
        let front = reports.drop_last();
        lemma_calm_run(front);
        assert forall|i: int|
            reports.len() - calm_run(reports) <= i < reports.len() implies #[trigger] reports[i] by {
            if i < front.len() {
                assert(reports[i] == front[i]);
            }
        }
    }
}

/// The real tokens are the lengths, added up.
pub proof fn lemma_real_tokens_sum(lengths: Seq<usize>)
    ensures
        real_tokens(lengths) == lengths.fold_left(0nat, |n: nat, x: usize| (n + x) as nat),
    decreases lengths.len(),
{
    reveal_with_fuel(Seq::fold_left, 2);
    if lengths.len() > 0 {
        lemma_real_tokens_sum(lengths.drop_last());
    }
}

} // verus!
