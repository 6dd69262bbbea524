//! One stage of a run: its pools, its schedule, its paths and log lines.
//!
//! The runner asks the [`StageClock`] what to do next and does it; the clock
//! fixes the order of micro-batches, optimizer steps, log lines, checkpoints
//! and evaluations.

use vstd::prelude::*;

use super::{eval_split, ponder_warmup, Share, TrainConfig};
use crate::harness::experiment;
use crate::harness::experiment::{generate, Experiment};
use crate::tasks::rng::{HarnessRng, GAMMA};
use crate::tasks::{Instance, InstanceModel, TaskRegistry};

verus! {

/// Instances per cell of the split that is evaluated along the way.
pub const EVAL_PER_CELL: usize = 16;

/// Instances per cell of the final split: per-block statistics and
/// correlations are noise at the smaller size.
pub const FINAL_PER_CELL: usize = 48;

/// Prompt and target length together.
pub open spec fn span_len(x: InstanceModel) -> nat {
    x.prompt.len() + x.target.len()
}

/// The instances of length `n`, in their order.
pub open spec fn of_length(pool: Seq<InstanceModel>, n: nat) -> Seq<InstanceModel>
    decreases pool.len(),
{
    if pool.len() == 0 {
        Seq::empty()
    } else if span_len(pool.last()) == n {
        of_length(pool.drop_last(), n).push(pool.last())
    } else {
        of_length(pool.drop_last(), n)
    }
}

/// The instances shorter than `n`, by length; those of one length in their
/// order.
pub open spec fn shorter_than(pool: Seq<InstanceModel>, n: nat) -> Seq<InstanceModel>
    decreases n,
{
    if n == 0 {
        Seq::empty()
    } else {
        shorter_than(pool, (n - 1) as nat) + of_length(pool, (n - 1) as nat)
    }
}

/// The greatest length in a pool.
pub open spec fn longest_span(pool: Seq<InstanceModel>) -> nat
    decreases pool.len(),
{
    if pool.len() == 0 {
        0
    } else if span_len(pool.last()) > longest_span(pool.drop_last()) {
        span_len(pool.last())
    } else {
        longest_span(pool.drop_last())
    }
}

/// A pool by length; instances of one length keep their order.
pub open spec fn by_length(pool: Seq<InstanceModel>) -> Seq<InstanceModel> {
    shorter_than(pool, longest_span(pool) + 1)
}

proof fn lemma_of_length(pool: Seq<InstanceModel>, n: nat)
    ensures
        forall|i: int|
            0 <= i < of_length(pool, n).len() ==> span_len(#[trigger] of_length(pool, n)[i]) == n,
        (forall|i: int| 0 <= i < pool.len() ==> span_len(#[trigger] pool[i]) != n) ==> of_length(
            pool,
            n,
        ).len() == 0,
    decreases pool.len(),
{
    if pool.len() > 0 {
        let front = pool.drop_last();
        lemma_of_length(front, n);
        let before = of_length(front, n);
        let all = of_length(pool, n);
        assert forall|i: int| 0 <= i < all.len() implies span_len(#[trigger] all[i]) == n by {
            if i < before.len() {
                assert(all[i] == before[i]);
            }
        }
        if forall|i: int| 0 <= i < pool.len() ==> span_len(#[trigger] pool[i]) != n {
            assert forall|i: int| 0 <= i < front.len() implies span_len(#[trigger] front[i])
                != n by {
                assert(front[i] == pool[i]);
            }
            assert(span_len(pool[pool.len() - 1]) != n);
        }
    }
}

/// Lengths that no instance has add nothing.
proof fn lemma_gap(pool: Seq<InstanceModel>, a: nat, b: nat)
    requires
        a <= b,
        forall|i: int|
            0 <= i < pool.len() ==> !(a <= span_len(#[trigger] pool[i]) < b),
    ensures
        shorter_than(pool, b) == shorter_than(pool, a),
    decreases b - a,
{
    if a < b {
        let c = (b - 1) as nat;
        lemma_gap(pool, a, c);
        lemma_of_length(pool, c);
        assert(of_length(pool, c).len() == 0);
        assert(shorter_than(pool, c) + of_length(pool, c) =~= shorter_than(pool, c));
    }
}

proof fn lemma_longest(pool: Seq<InstanceModel>, i: int)
    requires
        0 <= i < pool.len(),
    ensures
        span_len(pool[i]) <= longest_span(pool),
    decreases pool.len(),
{
    if i < pool.len() - 1 {
        assert(pool.drop_last()[i] == pool[i]);
        lemma_longest(pool.drop_last(), i);
    }
}

proof fn lemma_longest_attained(pool: Seq<InstanceModel>)
    requires
        pool.len() > 0,
    ensures
        exists|i: int| 0 <= i < pool.len() && span_len(#[trigger] pool[i]) == longest_span(pool),
    decreases pool.len(),
{
    let front = pool.drop_last();
    if span_len(pool.last()) > longest_span(front) {
        assert(span_len(pool[pool.len() - 1]) == longest_span(pool));
    } else if front.len() > 0 {
        lemma_longest_attained(front);
        let i = choose|i: int|
            0 <= i < front.len() && span_len(#[trigger] front[i]) == longest_span(front);
        assert(span_len(pool[i]) == longest_span(pool));
    } else {
        assert(span_len(pool[0]) == longest_span(pool));
    }
}

/// Sorting by length gives lengths that never decrease.
proof fn lemma_by_length_sorted(pool: Seq<InstanceModel>, n: nat, i: int, j: int)
    requires
        0 <= i <= j < shorter_than(pool, n).len(),
    ensures
        span_len(shorter_than(pool, n)[i]) <= span_len(shorter_than(pool, n)[j]) < n,
    decreases n,
{
    let m = (n - 1) as nat;
    let front = shorter_than(pool, m);
    let back = of_length(pool, m);
    lemma_of_length(pool, m);
    if j < front.len() {
        lemma_by_length_sorted(pool, m, i, j);
    } else {
        assert(shorter_than(pool, n)[j] == back[j - front.len()]);
        if i < front.len() {
            lemma_by_length_sorted(pool, m, i, i);
        } else {
            assert(shorter_than(pool, n)[i] == back[i - front.len()]);
        }
    }
}

proof fn lemma_shorter_push(pool: Seq<InstanceModel>, n: nat)
    requires
        pool.len() > 0,
    ensures
        shorter_than(pool, n).to_multiset() == if span_len(pool.last()) < n {
            shorter_than(pool.drop_last(), n).to_multiset().insert(pool.last())
        } else {
            shorter_than(pool.drop_last(), n).to_multiset()
        },
    decreases n,
{
    broadcast use vstd::seq_lib::group_to_multiset_ensures;

    if n > 0 {
        let m = (n - 1) as nat;
        let front = pool.drop_last();
        let x = pool.last();
        lemma_shorter_push(pool, m);
        let a = shorter_than(front, m);
        let b = of_length(front, m);
        let a2 = shorter_than(pool, m);
        let b2 = of_length(pool, m);
        vstd::seq_lib::lemma_multiset_commutative(a, b);
        vstd::seq_lib::lemma_multiset_commutative(a2, b2);
        if span_len(x) == m {
            assert(b2 == b.push(x));
            assert(b2.to_multiset() =~= b.to_multiset().insert(x));
            assert(a2.to_multiset().add(b2.to_multiset()) =~= a.to_multiset().add(
                b.to_multiset(),
            ).insert(x));
        } else if span_len(x) < m {
            assert(b2 == b);
            assert(a2.to_multiset().add(b2.to_multiset()) =~= a.to_multiset().add(
                b.to_multiset(),
            ).insert(x));
        } else {
            assert(b2 == b);
        }
    }
}

/// Sorting by length only reorders: every instance keeps its multiplicity.
proof fn lemma_by_length_multiset(pool: Seq<InstanceModel>, n: nat)
    requires
        forall|i: int| 0 <= i < pool.len() ==> span_len(#[trigger] pool[i]) < n,
    ensures
        shorter_than(pool, n).to_multiset() == pool.to_multiset(),
    decreases pool.len(),
{
    broadcast use vstd::seq_lib::group_to_multiset_ensures;

    if pool.len() == 0 {
        lemma_gap(pool, 0, n);
        assert(pool =~= Seq::<InstanceModel>::empty());
        assert(shorter_than(pool, n) =~= pool);
    } else {
        let front = pool.drop_last();
        assert forall|i: int| 0 <= i < front.len() implies span_len(#[trigger] front[i]) < n by {
            assert(front[i] == pool[i]);
        }
        lemma_by_length_multiset(front, n);
        lemma_shorter_push(pool, n);
        assert(span_len(pool[pool.len() - 1]) < n);
        assert(pool =~= front.push(pool.last()));
        assert(pool.to_multiset() =~= front.to_multiset().insert(pool.last()));
    }
}

/// A pool by length is the pool reordered, with lengths that never decrease.
pub proof fn lemma_length_sorted(pool: Seq<InstanceModel>)
    ensures
        by_length(pool).to_multiset() == pool.to_multiset(),
        forall|i: int, j: int|
            0 <= i <= j < by_length(pool).len() ==> span_len(#[trigger] by_length(pool)[i])
                <= span_len(#[trigger] by_length(pool)[j]),
{
    let top = longest_span(pool) + 1;
    assert forall|i: int| 0 <= i < pool.len() implies span_len(#[trigger] pool[i]) < top by {
        lemma_longest(pool, i);
    }
    lemma_by_length_multiset(pool, top);
    assert forall|i: int, j: int| 0 <= i <= j < by_length(pool).len() implies span_len(
        #[trigger] by_length(pool)[i],
    ) <= span_len(#[trigger] by_length(pool)[j]) by {
        lemma_by_length_sorted(pool, top, i, j);
    }
}

fn span_of(x: &Instance) -> (r: u128)
    ensures
        r == span_len(x@),
{
    let a: usize = x.prompt.len();
    let b: usize = x.target.len();
    a as u128 + b as u128
}

/// The least length from `least` on in a pool, if there is one.
fn next_length(pool: &[Instance], least: u128) -> (r: Option<u128>)
    ensures
        r matches Some(n) ==> n >= least && exists|i: int|
            0 <= i < pool@.len() && span_len((#[trigger] pool@[i])@) == n,
        forall|i: int|
            0 <= i < pool@.len() && span_len((#[trigger] pool@[i])@) >= least ==> (r matches Some(n)
                && n <= span_len(pool@[i]@)),
{
    let mut best: Option<u128> = None;
    let mut i: usize = 0;
    while i < pool.len()
        invariant
            i <= pool@.len(),
            best matches Some(n) ==> n >= least && exists|j: int|
                0 <= j < pool@.len() && span_len((#[trigger] pool@[j])@) == n,
            forall|j: int|
                0 <= j < i && span_len((#[trigger] pool@[j])@) >= least ==> (best matches Some(n)
                    && n <= span_len(pool@[j]@)),
        decreases pool@.len() - i,
    {
        let n: u128 = span_of(&pool[i]);
        if n >= least {
            assert(span_len(pool@[i as int]@) == n);
            best = match best {
                None => Some(n),
                Some(m) => if n < m {
                    Some(n)
                } else {
                    Some(m)
                },
            };
        }
        i = i + 1;
    }
    best
}

/// Appends the instances of length `n` to `out`.
fn push_length(pool: &[Instance], n: u128, out: &mut Vec<Instance>)
    ensures
        experiment::instance_models(final(out)@) == experiment::instance_models(old(out)@)
            + of_length(experiment::instance_models(pool@), n as nat),
{
    let ghost models = experiment::instance_models(pool@);
    let ghost had = experiment::instance_models(out@);
    let mut i: usize = 0;
    assert(models.take(0) =~= Seq::<InstanceModel>::empty());
    assert(had + of_length(models.take(0), n as nat) =~= had);
    while i < pool.len()
        invariant
            i <= pool@.len(),
            models == experiment::instance_models(pool@),
            experiment::instance_models(out@) == had + of_length(models.take(i as int), n as nat),
        decreases pool@.len() - i,
    {
        assert(models.take(i + 1).drop_last() =~= models.take(i as int));
        assert(models[i as int] == pool@[i as int]@);
        if span_of(&pool[i]) == n {
            let ghost before = out@;
            let x: Instance = pool[i].clone();
            out.push(x);
            proof {
                assert(experiment::instance_models(out@) =~= experiment::instance_models(
                    before,
                ).push(x@));
                let some = of_length(models.take(i as int), n as nat);
                assert((had + some).push(x@) =~= had + some.push(x@));
            }
        }
        i = i + 1;
    }
    assert(models.take(i as int) =~= models);
}

/// The pool in length bands: sorted by prompt and target length together, so
/// that padded T stays stable across steps. Instances of one length keep their
/// order.
pub fn length_sorted(pool: &[Instance]) -> (r: Vec<Instance>)
    ensures
        experiment::instance_models(r@) == by_length(experiment::instance_models(pool@)),
{
    let ghost models = experiment::instance_models(pool@);
    let ghost top = longest_span(models) + 1;
    let mut out: Vec<Instance> = Vec::new();
    let mut least: u128 = 0;
    assert(experiment::instance_models(out@) =~= shorter_than(models, 0));
    let mut next: Option<u128> = next_length(pool, 0);
    proof {
        if pool@.len() > 0 {
            lemma_longest_attained(models);
        }
    }
    while next.is_some()
        invariant
            models == experiment::instance_models(pool@),
            top == longest_span(models) + 1,
            least <= top || models.len() == 0,
            experiment::instance_models(out@) == shorter_than(models, least as nat),
            next matches Some(n) ==> n >= least && exists|i: int|
                0 <= i < pool@.len() && span_len((#[trigger] pool@[i])@) == n,
            forall|i: int|
                0 <= i < pool@.len() && span_len((#[trigger] pool@[i])@) >= least ==> (
                next matches Some(n) && n <= span_len(pool@[i]@)),
        decreases top - least,
    {
        let n: u128 = next.unwrap();
        proof {
            let w = choose|i: int| 0 <= i < pool@.len() && span_len((#[trigger] pool@[i])@) == n;
            assert(models[w] == pool@[w]@);
            lemma_longest(models, w);
            assert forall|i: int| 0 <= i < models.len() implies !(least <= span_len(
                #[trigger] models[i],
            ) < n) by {
                assert(models[i] == pool@[i]@);
            }
            lemma_gap(models, least as nat, n as nat);
            lemma_small(pool@[w]);
        }
        push_length(pool, n, &mut out);
        least = n + 1;
        next = next_length(pool, least);
    }
    proof {
        if models.len() > 0 {
            assert forall|i: int| 0 <= i < models.len() implies !(least <= span_len(
                #[trigger] models[i],
            ) < top) by {
                assert(models[i] == pool@[i]@);
            }
            lemma_gap(models, least as nat, top);
        } else {
            lemma_gap(models, 0, least as nat);
            lemma_gap(models, 0, top);
        }
    }
    out
}

proof fn lemma_small(x: Instance)
    ensures
        x.prompt@.len() <= usize::MAX,
        x.target@.len() <= usize::MAX,
        span_len(x@) < u128::MAX,
{
    assert(x.prompt.len() == x.prompt@.len());
    assert(x.target.len() == x.target@.len());
}

/// The instances of a stage.
pub struct StagePools {
    /// For training, in length bands.
    pub train: Vec<Instance>,
    /// For evaluation along the way.
    pub eval_set: Vec<Instance>,
    /// For the final evaluation: in every cell a superset of `eval_set`.
    pub final_set: Vec<Instance>,
}

/// Generates and splits the instances of a stage.
pub fn prepare(cfg: &Experiment, registry: &TaskRegistry) -> (r: StagePools)
    requires
        experiment::can_generate(*cfg, registry@),
    ensures
        experiment::instance_models(r.train@) == by_length(
            experiment::generated(*cfg, registry@),
        ),
        experiment::instance_models(r.eval_set@) == super::split_of(
            experiment::generated(*cfg, registry@),
            EVAL_PER_CELL as nat,
        ),
        experiment::instance_models(r.final_set@) == super::split_of(
            experiment::generated(*cfg, registry@),
            FINAL_PER_CELL as nat,
        ),
{
    let pool: Vec<Instance> = generate(cfg, registry);
    let eval_set: Vec<Instance> = eval_split(&pool, EVAL_PER_CELL);
    let final_set: Vec<Instance> = eval_split(&pool, FINAL_PER_CELL);
    let train: Vec<Instance> = length_sorted(&pool);
    StagePools { train, eval_set, final_set }
}

/// The generator that samples a stage's micro-batches.
pub fn stage_rng(seed: u64) -> (r: HarnessRng)
    ensures
        r@ == seed ^ GAMMA,
{
    HarnessRng::new(seed ^ GAMMA)
}

/// `n` zeros.
pub open spec fn zeros(n: nat) -> Seq<char> {
    Seq::new(n, |i: int| '0')
}

/// `n` in decimal, with leading zeros up to six digits.
pub open spec fn six_digits(n: nat) -> Seq<char> {
    let d = crate::text::digits(n);
    if d.len() < 6 {
        zeros((6 - d.len()) as nat) + d
    } else {
        d
    }
}

/// Where the checkpoint of `step` is kept.
pub open spec fn ckpt_text(dir: Seq<char>, step: nat) -> Seq<char> {
    dir + "/step"@ + six_digits(step) + ".mpk"@
}

/// Where the checkpoint of `step` is kept.
pub fn ckpt_path(dir: &str, step: usize) -> (r: String)
    ensures
        r@ == ckpt_text(dir@, step as nat),
{
    let mut out: String = dir.to_string();
    out.append("/step");
    let d: String = crate::text::decimal(step as u64);
    let n: usize = crate::text::chars_of(d.as_str()).len();
    let ghost head = out@;
    let mut i: usize = n;
    while i < 6
        invariant
            n <= i,
            i <= 6 || i == n,
            out@ =~= head + zeros((i - n) as nat),
        decreases 6 - i,
    {
        out.push('0');
        i = i + 1;
    }
    out.append(d.as_str());
    out.append(".mpk");
    assert(out@ =~= ckpt_text(dir@, step as nat));
    out
}

/// Where the log of a stage is kept.
pub fn log_path(dir: &str) -> (r: String)
    ensures
        r@ == dir@ + "/run.jsonl"@,
{
    let mut out: String = dir.to_string();
    out.append("/run.jsonl");
    out
}

/// A record's line with its evaluation context: the closing brace makes room
/// for it.
pub open spec fn eval_line_text(json: Seq<char>, label: Seq<char>, step: Option<usize>) -> Seq<
    char,
> {
    let head = if json.len() == 0 {
        json
    } else {
        json.drop_last()
    };
    let at: Seq<char> = match step {
        Some(n) => ",\"step\":"@ + crate::text::digits(n as nat),
        None => Seq::empty(),
    };
    head + ",\"eval\":\""@ + label + "\""@ + at + "}\n"@
}

/// A record's line in the log of a stage: its JSON with the evaluation's label
/// and, along the way, its step.
pub fn eval_line(json: &str, label: &str, step: Option<usize>) -> (r: String)
    ensures
        r@ == eval_line_text(json@, label@, step),
{
    let cs: Vec<char> = crate::text::chars_of(json);
    let n: usize = if cs.len() == 0 {
        0
    } else {
        cs.len() - 1
    };
    let head: Vec<char> = crate::text::copy_range(&cs, 0, n);
    let mut out: String = crate::text::from_chars(&head);
    assert(cs@.subrange(0, n as int) =~= if json@.len() == 0 {
        json@
    } else {
        json@.drop_last()
    });
    out.append(",\"eval\":\"");
    out.append(label);
    out.append("\"");
    if let Some(at) = step {
        out.append(",\"step\":");
        out.append(crate::text::decimal(at as u64).as_str());
    }
    out.append("}\n");
    assert(out@ =~= eval_line_text(json@, label@, step));
    out
}

/// Outcome of one stage: last checkpoint path for `$prev` chaining.
#[derive(Debug)]
pub struct StageOutcome {
    pub last_ckpt: String,
    pub log_path: String,
}

/// Where a stage stands.
#[derive(Debug, Clone, Copy, PartialEq, Eq, Structural)]
pub enum Phase {
    /// Nothing done yet.
    Opening,
    /// About to set the ponder weight of a step.
    Warmup { step: usize },
    /// About to run a micro-batch of a step.
    Micro { step: usize, index: usize },
    /// About to take the optimizer step.
    Update { step: usize },
    /// About to log a step.
    Log { step: usize },
    /// About to save a step's checkpoint.
    Save { step: usize },
    /// About to evaluate one set.
    Eval { step: usize, set: usize },
    /// About to save the end of the stage.
    Closing,
    /// About to run a final evaluation pass.
    Final { pass: usize },
    /// Everything done.
    Done,
}

/// What to do next.
#[derive(Debug)]
pub enum StageAction {
    /// Save a checkpoint under this path.
    Save { path: String },
    /// Put this share of the ponder weight in force.
    Warmup { share: Share },
    /// Run one micro-batch, its loss scaled by one over `accum`.
    Micro { step: usize, accum: usize },
    /// Take one optimizer step over the merged gradients.
    Update { step: usize },
    /// Log the step.
    Log { step: usize },
    /// Evaluate one set: the stage's own first, then the retained ones.
    Eval { step: usize, set: usize },
    /// Run one pass of the final evaluation.
    Final { pass: usize },
    /// Write the log and stop.
    Finish,
}

/// The schedule that a stage's clock runs on.
#[derive(Debug, Clone, Copy, PartialEq, Eq, Structural)]
pub struct Schedule {
    pub steps: usize,
    pub accum_steps: usize,
    pub log_every: usize,
    pub ckpt_every: usize,
    pub eval_every: usize,
    pub eval_start_step: usize,
    pub ponder_warmup_steps: usize,
    /// Sets evaluated along the way.
    pub sets: usize,
    /// Final evaluation passes.
    pub passes: usize,
}

/// Micro-batches per optimizer step; at least one.
pub open spec fn accum_of(c: Schedule) -> usize {
    if c.accum_steps < 1 {
        1
    } else {
        c.accum_steps
    }
}

/// Whether a step is evaluated: the start step, and then every so many.
pub open spec fn evaluates(c: Schedule, step: usize) -> bool {
    &&& step >= c.eval_start_step
    &&& if c.eval_every == 0 {
        step == c.eval_start_step
    } else {
        (step - c.eval_start_step) % (c.eval_every as int) == 0
    }
}

/// The phase after a step is finished.
pub open spec fn step_over(c: Schedule, step: usize) -> Phase {
    if step + 1 < c.steps {
        Phase::Warmup { step: (step + 1) as usize }
    } else {
        Phase::Closing
    }
}

/// The phase after a step's checkpoint has been dealt with.
pub open spec fn after_save(c: Schedule, step: usize) -> Phase {
    if evaluates(c, step) && c.sets > 0 {
        Phase::Eval { step, set: 0 }
    } else {
        step_over(c, step)
    }
}

/// The phase after a step's log line has been dealt with.
pub open spec fn after_log(c: Schedule, step: usize) -> Phase {
    if step % c.ckpt_every == 0 {
        Phase::Save { step }
    } else {
        after_save(c, step)
    }
}

/// The phase after a step's update.
pub open spec fn after_update(c: Schedule, step: usize) -> Phase {
    if step % c.log_every == 0 {
        Phase::Log { step }
    } else {
        after_log(c, step)
    }
}

/// The phase that follows.
pub open spec fn following(c: Schedule, p: Phase) -> Phase {
    match p {
        Phase::Opening => if c.steps > 0 {
            Phase::Warmup { step: 0 }
        } else {
            Phase::Closing
        },
        Phase::Warmup { step } => Phase::Micro { step, index: 0 },
        Phase::Micro { step, index } => if index + 1 < accum_of(c) {
            Phase::Micro { step, index: (index + 1) as usize }
        } else {
            Phase::Update { step }
        },
        Phase::Update { step } => after_update(c, step),
        Phase::Log { step } => after_log(c, step),
        Phase::Save { step } => after_save(c, step),
        Phase::Eval { step, set } => if set + 1 < c.sets {
            Phase::Eval { step, set: (set + 1) as usize }
        } else {
            step_over(c, step)
        },
        Phase::Closing => if c.passes > 0 {
            Phase::Final { pass: 0 }
        } else {
            Phase::Done
        },
        Phase::Final { pass } => if pass + 1 < c.passes {
            Phase::Final { pass: (pass + 1) as usize }
        } else {
            Phase::Done
        },
        Phase::Done => Phase::Done,
    }
}

/// Whether a phase belongs to the schedule.
pub open spec fn on_schedule(c: Schedule, p: Phase) -> bool {
    match p {
        Phase::Opening => true,
        Phase::Warmup { step } => step < c.steps,
        Phase::Micro { step, index } => step < c.steps && index < accum_of(c),
        Phase::Update { step } => step < c.steps,
        Phase::Log { step } => step < c.steps && step % c.log_every == 0,
        Phase::Save { step } => step < c.steps && step % c.ckpt_every == 0,
        Phase::Eval { step, set } => step < c.steps && evaluates(c, step) && set < c.sets,
        Phase::Closing => true,
        Phase::Final { pass } => pass < c.passes,
        Phase::Done => true,
    }
}

/// The checkpoint that a phase saves, if it saves one.
pub open spec fn saved_step(c: Schedule, p: Phase) -> Option<nat> {
    match p {
        Phase::Opening => Some(0),
        Phase::Save { step } => Some(step as nat),
        Phase::Closing => Some(c.steps as nat),
        _ => None,
    }
}

/// Whether `a` is what phase `p` does.
pub open spec fn acts(a: StageAction, c: Schedule, p: Phase, dir: Seq<char>) -> bool {
    match (p, a) {
        (Phase::Opening, StageAction::Save { path }) => path@ == ckpt_text(dir, 0),
        (Phase::Warmup { step }, StageAction::Warmup { share }) => share == (
        if c.ponder_warmup_steps == 0 {
            Share { part: 1, whole: 1 }
        } else {
            Share {
                part: if step < c.ponder_warmup_steps {
                    step
                } else {
                    c.ponder_warmup_steps
                },
                whole: c.ponder_warmup_steps,
            }
        }),
        (Phase::Micro { step, index }, StageAction::Micro { step: at, accum }) => at == step
            && accum == accum_of(c),
        (Phase::Update { step }, StageAction::Update { step: at }) => at == step,
        (Phase::Log { step }, StageAction::Log { step: at }) => at == step,
        (Phase::Save { step }, StageAction::Save { path }) => path@ == ckpt_text(
            dir,
            step as nat,
        ),
        (Phase::Eval { step, set }, StageAction::Eval { step: at, set: which }) => at == step
            && which == set,
        (Phase::Closing, StageAction::Save { path }) => path@ == ckpt_text(dir, c.steps as nat),
        (Phase::Final { pass }, StageAction::Final { pass: which }) => which == pass,
        (Phase::Done, StageAction::Finish) => true,
        _ => false,
    }
}

/// Fixes what a stage does in which order.
pub struct StageClock {
    schedule: Schedule,
    phase: Phase,
    dir: String,
    last_ckpt: String,
}

impl StageClock {
    pub closed spec fn schedule(&self) -> Schedule {
        self.schedule
    }

    pub closed spec fn phase(&self) -> Phase {
        self.phase
    }

    pub closed spec fn dir(&self) -> Seq<char> {
        self.dir@
    }

    pub closed spec fn last_saved(&self) -> Seq<char> {
        self.last_ckpt@
    }

    /// The phase belongs to the schedule, and steps can be counted off.
    pub closed spec fn inv(&self) -> bool {
        &&& on_schedule(self.schedule, self.phase)
        &&& self.schedule.log_every > 0 || self.schedule.steps == 0
        &&& self.schedule.ckpt_every > 0 || self.schedule.steps == 0
    }

    /// A clock at the opening of a stage with `extras` retained sets and
    /// `passes` final passes.
    pub fn new(train: &TrainConfig, extras: usize, passes: usize) -> (r: Self)
        requires
            train.log_every > 0 || train.steps == 0,
            train.ckpt_every > 0 || train.steps == 0,
            extras < usize::MAX,
        ensures
            r.inv(),
            r.phase() == Phase::Opening,
            r.dir() == train.ckpt_dir@,
            r.last_saved() == ckpt_text(train.ckpt_dir@, 0),
            r.schedule() == (Schedule {
                steps: train.steps,
                accum_steps: train.accum_steps,
                log_every: train.log_every,
                ckpt_every: train.ckpt_every,
                eval_every: train.eval_every,
                eval_start_step: train.eval_start_step,
                ponder_warmup_steps: train.ponder_warmup_steps,
                sets: (1 + extras) as usize,
                passes,
            }),
    {
        StageClock {
            schedule: Schedule {
                steps: train.steps,
                accum_steps: train.accum_steps,
                log_every: train.log_every,
                ckpt_every: train.ckpt_every,
                eval_every: train.eval_every,
                eval_start_step: train.eval_start_step,
                ponder_warmup_steps: train.ponder_warmup_steps,
                sets: 1 + extras,
                passes,
            },
            phase: Phase::Opening,
            dir: train.ckpt_dir.clone(),
            last_ckpt: ckpt_path(train.ckpt_dir.as_str(), 0),
        }
    }

    /// Whether the evaluation of a step is due.
    fn due(&self, step: usize) -> (r: bool)
        ensures
            r == evaluates(self.schedule, step),
    {
        let c: Schedule = self.schedule;
        if step < c.eval_start_step {
            false
        } else if c.eval_every == 0 {
            step == c.eval_start_step
        } else {
            (step - c.eval_start_step) % c.eval_every == 0
        }
    }

    fn to_next_step(&self, step: usize) -> (r: Phase)
        requires
            step < self.schedule.steps,
        ensures
            r == step_over(self.schedule, step),
    {
        if step + 1 < self.schedule.steps {
            Phase::Warmup { step: step + 1 }
        } else {
            Phase::Closing
        }
    }

    fn past_save(&self, step: usize) -> (r: Phase)
        requires
            step < self.schedule.steps,
        ensures
            r == after_save(self.schedule, step),
    {
        if self.due(step) && self.schedule.sets > 0 {
            Phase::Eval { step, set: 0 }
        } else {
            self.to_next_step(step)
        }
    }

    fn past_log(&self, step: usize) -> (r: Phase)
        requires
            step < self.schedule.steps,
            self.schedule.ckpt_every > 0,
        ensures
            r == after_log(self.schedule, step),
    {
        if step % self.schedule.ckpt_every == 0 {
            Phase::Save { step }
        } else {
            self.past_save(step)
        }
    }

    fn past_update(&self, step: usize) -> (r: Phase)
        requires
            step < self.schedule.steps,
            self.schedule.ckpt_every > 0,
            self.schedule.log_every > 0,
        ensures
            r == after_update(self.schedule, step),
    {
        if step % self.schedule.log_every == 0 {
            Phase::Log { step }
        } else {
            self.past_log(step)
        }
    }

    /// What to do next. The clock moves on as soon as it has said so.
    pub fn next(&mut self) -> (r: StageAction)
        requires
            old(self).inv(),
        ensures
            final(self).inv(),
            final(self).schedule() == old(self).schedule(),
            final(self).dir() == old(self).dir(),
            final(self).phase() == following(old(self).schedule(), old(self).phase()),
            acts(r, old(self).schedule(), old(self).phase(), old(self).dir()),
            final(self).last_saved() == match saved_step(
                old(self).schedule(),
                old(self).phase(),
            ) {
                Some(step) => ckpt_text(old(self).dir(), step),
                None => old(self).last_saved(),
            },
    {
        let c: Schedule = self.schedule;
        let accum: usize = if c.accum_steps < 1 {
            1
        } else {
            c.accum_steps
        };
        match self.phase {
            Phase::Opening => {
                self.phase = if c.steps > 0 {
                    Phase::Warmup { step: 0 }
                } else {
                    Phase::Closing
                };
                self.save(0)
            },
            Phase::Warmup { step } => {
                self.phase = Phase::Micro { step, index: 0 };
                StageAction::Warmup { share: ponder_warmup(step, c.ponder_warmup_steps) }
            },
            Phase::Micro { step, index } => {
                self.phase = if index + 1 < accum {
                    Phase::Micro { step, index: index + 1 }
                } else {
                    Phase::Update { step }
                };
                StageAction::Micro { step, accum }
            },
            Phase::Update { step } => {
                self.phase = self.past_update(step);
                StageAction::Update { step }
            },
            Phase::Log { step } => {
                self.phase = self.past_log(step);
                StageAction::Log { step }
            },
            Phase::Save { step } => {
                self.phase = self.past_save(step);
                self.save(step)
            },
            Phase::Eval { step, set } => {
                self.phase = if set + 1 < c.sets {
                    Phase::Eval { step, set: set + 1 }
                } else {
                    self.to_next_step(step)
                };
                StageAction::Eval { step, set }
            },
            Phase::Closing => {
                self.phase = if c.passes > 0 {
                    Phase::Final { pass: 0 }
                } else {
                    Phase::Done
                };
                self.save(c.steps)
            },
            Phase::Final { pass } => {
                self.phase = if pass + 1 < c.passes {
                    Phase::Final { pass: pass + 1 }
                } else {
                    Phase::Done
                };
                StageAction::Final { pass }
            },
            Phase::Done => StageAction::Finish,
        }
    }

    /// Remembers the checkpoint of `step` as the last one.
    fn save(&mut self, step: usize) -> (r: StageAction)
        ensures
            final(self).schedule == old(self).schedule,
            final(self).phase == old(self).phase,
            final(self).dir == old(self).dir,
            final(self).last_ckpt@ == ckpt_text(old(self).dir@, step as nat),
            r matches StageAction::Save { path } && path@ == ckpt_text(
                old(self).dir@,
                step as nat,
            ),
    {
        self.last_ckpt = ckpt_path(self.dir.as_str(), step);
        StageAction::Save { path: self.last_ckpt.clone() }
    }

    /// What the stage leaves behind.
    pub fn outcome(&self) -> (r: StageOutcome)
        ensures
            r.last_ckpt@ == self.last_saved(),
            r.log_path@ == self.dir() + "/run.jsonl"@,
    {
        StageOutcome { last_ckpt: self.last_ckpt.clone(), log_path: log_path(self.dir.as_str()) }
    }
}

/// How far a phase is from the end: by stage section, by part of a step, and
/// by repetition within that part.
pub open spec fn distance(c: Schedule, p: Phase) -> (nat, nat, nat) {
    match p {
        Phase::Opening => ((c.steps + 3) as nat, 0, 0),
        Phase::Warmup { step } => ((c.steps - step + 2) as nat, 5, 0),
        Phase::Micro { step, index } => (
            (c.steps - step + 2) as nat,
            4,
            (accum_of(c) - index) as nat,
        ),
        Phase::Update { step } => ((c.steps - step + 2) as nat, 3, 0),
        Phase::Log { step } => ((c.steps - step + 2) as nat, 2, 0),
        Phase::Save { step } => ((c.steps - step + 2) as nat, 1, 0),
        Phase::Eval { step, set } => ((c.steps - step + 2) as nat, 0, (c.sets - set) as nat),
        Phase::Closing => (2, 0, 0),
        Phase::Final { pass } => (1, 0, (c.passes - pass) as nat),
        Phase::Done => (0, 0, 0),
    }
}

/// Whether the first distance is the shorter one.
pub open spec fn nearer(a: (nat, nat, nat), b: (nat, nat, nat)) -> bool {
    ||| a.0 < b.0
    ||| a.0 == b.0 && a.1 < b.1
    ||| a.0 == b.0 && a.1 == b.1 && a.2 < b.2
}

/// Every stage comes to its end: each phase is nearer to it than the one
/// before, and none leaves the schedule.
pub proof fn lemma_stage_ends(c: Schedule, p: Phase)
    requires
        on_schedule(c, p),
        p != Phase::Done,
    ensures
        on_schedule(c, following(c, p)),
        nearer(distance(c, following(c, p)), distance(c, p)),
{
    match p {
        Phase::Update { step } => lemma_tail_of_step(c, step),
        Phase::Log { step } => lemma_tail_of_step(c, step),
        Phase::Save { step } => lemma_tail_of_step(c, step),
        _ => {},
    }
}

/// What may follow the update of a step, its log line and its checkpoint is on
/// the schedule and nearer to the end.
proof fn lemma_tail_of_step(c: Schedule, step: usize)
    requires
        step < c.steps,
    ensures
        on_schedule(c, after_save(c, step)),
        on_schedule(c, after_log(c, step)),
        on_schedule(c, after_update(c, step)),
        nearer(distance(c, after_save(c, step)), distance(c, Phase::Save { step })),
        nearer(distance(c, after_log(c, step)), distance(c, Phase::Log { step })),
        nearer(distance(c, after_update(c, step)), distance(c, Phase::Update { step })),
{
    let next = step_over(c, step);
    assert(on_schedule(c, next) && distance(c, next).0 < c.steps - step + 2);
}

/// Evaluation first runs at the start step and then at the given cadence: after
/// the update of every such step, and of no other, the stage's own set is
/// evaluated before the stage goes on.
pub proof fn lemma_step_evaluates(c: Schedule, step: usize) -> (n: nat)
    requires
        step < c.steps,
        c.sets > 0,
    ensures
        1 <= n <= 3,
        later(c, Phase::Update { step }, n) == (if evaluates(c, step) {
            Phase::Eval { step, set: 0 }
        } else {
            step_over(c, step)
        }),
        step == c.eval_start_step ==> evaluates(c, step),
{
    let p = Phase::Update { step };
    if c.eval_every > 0 {
        vstd::arithmetic::div_mod::lemma_small_mod(0, c.eval_every as nat);
    }
    assert(later(c, p, 0) == p);
    assert(later(c, p, 1) == following(c, p));
    assert(later(c, p, 2) == following(c, later(c, p, 1)));
    assert(later(c, p, 3) == following(c, later(c, p, 2)));
    let logged: nat = if step % c.log_every == 0 {
        1
    } else {
        0
    };
    let saved: nat = if step % c.ckpt_every == 0 {
        1
    } else {
        0
    };
    1 + logged + saved
}

/// The phase `n` phases later.
pub open spec fn later(c: Schedule, p: Phase, n: nat) -> Phase
    decreases n,
{
    if n == 0 {
        p
    } else {
        following(c, later(c, p, (n - 1) as nat))
    }
}

/// Every step runs exactly its micro-batches, in order, and then one optimizer
/// step.
pub proof fn lemma_step_accumulates(c: Schedule, step: usize, n: nat)
    requires
        step < c.steps,
        1 <= n <= accum_of(c),
    ensures
        later(c, Phase::Warmup { step }, n) == (Phase::Micro { step, index: (n - 1) as usize }),
        n == accum_of(c) ==> later(c, Phase::Warmup { step }, n + 1) == (Phase::Update { step }),
    decreases n,
{
    let p = Phase::Warmup { step };
    if n == 1 {
        assert(later(c, p, 0) == p);
        assert(later(c, p, 1) == following(c, p));
    } else {
        lemma_step_accumulates(c, step, (n - 1) as nat);
    }
    if n == accum_of(c) {
        assert(later(c, p, n + 1) == following(c, later(c, p, n)));
    }
}

/// The last checkpoint before the final evaluation is that of the end of the
/// stage, whatever was saved along the way.
pub proof fn lemma_closing_saves_end(c: Schedule, p: Phase)
    requires
        on_schedule(c, p),
        p != Phase::Done,
        following(c, p) is Final || following(c, p) is Done,
        !(p is Final),
    ensures
        p == Phase::Closing,
        saved_step(c, p) == Some(c.steps as nat),
{
}

/// The first line feed of `s` from `from` on; the length of `s` if there is
/// none.
pub open spec fn line_end(s: Seq<char>, from: int) -> int
    decreases s.len() - from,
{
    if from >= s.len() || s[from] == '\n' {
        from
    } else {
        line_end(s, from + 1)
    }
}

/// The first word of `s` from `from` up to `to`.
pub open spec fn first_word(s: Seq<char>, from: int, to: int) -> Seq<char> {
    let a = word_start(s, from, to);
    s.subrange(a, word_end(s, a, to))
}

/// The first position from `from` up to `to` that is no white space.
pub open spec fn word_start(s: Seq<char>, from: int, to: int) -> int
    decreases to - from,
{
    if from >= to || !crate::text::is_white(s[from]) {
        from
    } else {
        word_start(s, from + 1, to)
    }
}

/// The first position from `from` up to `to` that is white space.
pub open spec fn word_end(s: Seq<char>, from: int, to: int) -> int
    decreases to - from,
{
    if from >= to || crate::text::is_white(s[from]) {
        from
    } else {
        word_end(s, from + 1, to)
    }
}

/// Whether all of `s` are decimal digits.
pub open spec fn all_digits(s: Seq<char>) -> bool {
    forall|i: int| 0 <= i < s.len() ==> '0' <= #[trigger] s[i] <= '9'
}

/// The value of decimal digits.
pub open spec fn digits_value(s: Seq<char>) -> nat
    decreases s.len(),
{
    if s.len() == 0 {
        0
    } else {
        digits_value(s.drop_last()) * 10 + (s.last() as nat - 48) as nat
    }
}

/// The number that a word spells: digits, with a plus in front or not.
pub open spec fn word_value(w: Seq<char>) -> Option<u64> {
    let d = if w.len() > 0 && w[0] == '+' {
        w.drop_first()
    } else {
        w
    };
    if d.len() > 0 && all_digits(d) && digits_value(d) <= u64::MAX {
        Some(digits_value(d) as u64)
    } else {
        None
    }
}

/// The number that starts the second line of a memory report.
pub open spec fn reported_mb(s: Seq<char>) -> Option<u64> {
    let a = line_end(s, 0);
    if a >= s.len() {
        None
    } else {
        word_value(first_word(s, a + 1, line_end(s, a + 1)))
    }
}

/// The number that digits spell, if it fits.
fn read_digits(d: &[char]) -> (r: Option<u64>)
    ensures
        r == if d@.len() > 0 && all_digits(d@) && digits_value(d@) <= u64::MAX {
            Some(digits_value(d@) as u64)
        } else {
            None
        },
{
    if d.len() == 0 {
        return None;
    }
    let mut value: u64 = 0;
    let mut fits: bool = true;
    let mut i: usize = 0;
    while i < d.len()
        invariant
            i <= d@.len(),
            forall|j: int| 0 <= j < i ==> '0' <= #[trigger] d@[j] <= '9',
            fits ==> value == digits_value(d@.take(i as int)),
            !fits ==> digits_value(d@.take(i as int)) > u64::MAX,
        decreases d@.len() - i,
    {
        let c: char = d[i];
        if c < '0' || c > '9' {
            assert(!all_digits(d@));
            return None;
        }
        let digit: u64 = (c as u32 - 48) as u64;
        assert(d@.take(i + 1).drop_last() =~= d@.take(i as int));
        if fits {
            match value.checked_mul(10) {
                None => {
                    fits = false;
                },
                Some(v) => match v.checked_add(digit) {
                    None => {
                        fits = false;
                    },
                    Some(w) => {
                        value = w;
                    },
                },
            }
        }
        i = i + 1;
    }
    assert(d@.take(i as int) =~= d@);
    if fits {
        Some(value)
    } else {
        None
    }
}

/// The memory in use that a `memory.used` report states, malformed bytes and
/// all. `None` for anything that is no such report: logging must never break a
/// run.
pub fn vram_mb(report: &[u8]) -> (r: Option<u64>)
    ensures
        r == reported_mb(crate::text::lossy(report@)),
{
    report_mb(crate::text::lossy_text(report).as_str())
}

/// The memory in use that the text of a report states: the first word of its
/// second line, as a number.
pub fn report_mb(report: &str) -> (r: Option<u64>)
    ensures
        r == reported_mb(report@),
{
    let cs: Vec<char> = crate::text::chars_of(report);
    let n: usize = cs.len();
    let a: usize = find_line_end(&cs, 0);
    if a >= n {
        return None;
    }
    let b: usize = find_line_end(&cs, a + 1);
    let mut from: usize = a + 1;
    while from < b && crate::text::white(cs[from])
        invariant
            a + 1 <= from <= b <= cs@.len(),
            word_start(cs@, a + 1, b as int) == word_start(cs@, from as int, b as int),
        decreases b - from,
    {
        from = from + 1;
    }
    let mut to: usize = from;
    while to < b && !crate::text::white(cs[to])
        invariant
            from <= to <= b <= cs@.len(),
            word_end(cs@, from as int, b as int) == word_end(cs@, to as int, b as int),
        decreases b - to,
    {
        to = to + 1;
    }
    let word: Vec<char> = crate::text::copy_range(&cs, from, to);
    assert(word@ == first_word(cs@, a + 1, b as int));
    if word.len() > 0 && word[0] == '+' {
        let rest: Vec<char> = crate::text::copy_range(&word, 1, word.len());
        assert(rest@ =~= word@.drop_first());
        read_digits(&rest)
    } else {
        read_digits(&word)
    }
}

fn find_line_end(cs: &[char], from: usize) -> (r: usize)
    requires
        from <= cs@.len(),
    ensures
        r == line_end(cs@, from as int),
        from <= r <= cs@.len(),
{
    let mut i: usize = from;
    while i < cs.len() && cs[i] != '\n'
        invariant
            from <= i <= cs@.len(),
            line_end(cs@, from as int) == line_end(cs@, i as int),
        decreases cs@.len() - i,
    {
        i = i + 1;
    }
    i
}

/// The sizes of the two splits.
pub proof fn lemma_split_sizes()
    ensures
        EVAL_PER_CELL == 16,
        FINAL_PER_CELL == 48,
{
}

/// The instances of a length are those whose prompt and target come to it, in
/// their order.
pub proof fn lemma_of_length_filter(pool: Seq<InstanceModel>, n: nat)
    ensures
        of_length(pool, n) == pool.filter(
            |x: InstanceModel| x.prompt.len() + x.target.len() == n,
        ),
    decreases pool.len(),
{
    reveal(Seq::filter);
    if pool.len() > 0 {
        lemma_of_length_filter(pool.drop_last(), n);
    }
}

proof fn lemma_of_length_add(a: Seq<InstanceModel>, b: Seq<InstanceModel>, n: nat)
    ensures
        of_length(a + b, n) == of_length(a, n) + of_length(b, n),
    decreases b.len(),
{
    if b.len() == 0 {
        assert(a + b =~= a);
        assert(of_length(a, n) + of_length(b, n) =~= of_length(a, n));
    } else {
        lemma_of_length_add(a, b.drop_last(), n);
        assert((a + b).drop_last() =~= a + b.drop_last());
        assert((a + b).last() == b.last());
        assert(of_length(a + b, n) =~= of_length(a, n) + of_length(b, n));
    }
}

/// Picking a length out of instances of one length gives all or nothing.
proof fn lemma_of_length_again(pool: Seq<InstanceModel>, m: nat, n: nat)
    requires
        forall|i: int| 0 <= i < pool.len() ==> span_len(#[trigger] pool[i]) == m,
    ensures
        m == n ==> of_length(pool, n) == pool,
        m != n ==> of_length(pool, n).len() == 0,
    decreases pool.len(),
{
    if pool.len() > 0 {
        let front = pool.drop_last();
        assert forall|i: int| 0 <= i < front.len() implies span_len(#[trigger] front[i]) == m by {
            assert(front[i] == pool[i]);
        }
        lemma_of_length_again(front, m, n);
        assert(span_len(pool[pool.len() - 1]) == m);
        assert(front.push(pool.last()) =~= pool);
    } else {
        assert(of_length(pool, n) =~= pool);
    }
}

proof fn lemma_shorter_stable(pool: Seq<InstanceModel>, top: nat, n: nat)
    ensures
        n < top ==> of_length(shorter_than(pool, top), n) == of_length(pool, n),
        n >= top ==> of_length(shorter_than(pool, top), n).len() == 0,
    decreases top,
{
    if top > 0 {
        let m = (top - 1) as nat;
        let front = shorter_than(pool, m);
        let back = of_length(pool, m);
        lemma_shorter_stable(pool, m, n);
        lemma_of_length_add(front, back, n);
        lemma_of_length(pool, m);
        lemma_of_length_again(back, m, n);
        if n == m {
            assert(of_length(front, n) + back =~= back);
        } else if n < m {
            assert(of_length(front, n) + of_length(back, n) =~= of_length(front, n));
        }
    }
}

/// Sorting by length is stable: instances of one length keep their order.
pub proof fn lemma_length_sort_stable(pool: Seq<InstanceModel>, n: nat)
    ensures
        by_length(pool).filter(|x: InstanceModel| x.prompt.len() + x.target.len() == n)
            == pool.filter(|x: InstanceModel| x.prompt.len() + x.target.len() == n),
{
    let top = longest_span(pool) + 1;
    lemma_of_length_filter(pool, n);
    lemma_of_length_filter(by_length(pool), n);
    lemma_shorter_stable(pool, top, n);
    if n >= top {
        assert forall|i: int| 0 <= i < pool.len() implies span_len(#[trigger] pool[i]) != n by {
            lemma_longest(pool, i);
        }
        lemma_of_length(pool, n);
        assert(of_length(pool, n) =~= of_length(by_length(pool), n));
    }
}

/// Numbers of steps are padded to six digits with zeros, and longer ones are
/// left as they are; read as decimals they are the same numbers.
pub proof fn lemma_six_digits(n: nat)
    ensures
        six_digits(n).len() >= 6,
        crate::text::digits(n).len() <= 6 ==> six_digits(n).len() == 6,
        crate::text::digits(n).len() > 6 ==> six_digits(n) == crate::text::digits(n),
        six_digits(n).fold_left(0int, |v: int, c: char| v * 10 + (c as int - 48)) == n,
{
    let read = |v: int, c: char| v * 10 + (c as int - 48);
    let d = crate::text::digits(n);
    crate::text::lemma_digits_read_back(n);
    if d.len() < 6 {
        let z = zeros((6 - d.len()) as nat);
        lemma_zeros_read(z.len());
        let all = z + d;
        all.lemma_fold_left_split(0int, read, z.len() as int);
        assert(all.subrange(0, z.len() as int) =~= z);
        assert(all.subrange(z.len() as int, all.len() as int) =~= d);
    }
}

proof fn lemma_zeros_read(n: nat)
    ensures
        zeros(n).fold_left(0int, |v: int, c: char| v * 10 + (c as int - 48)) == 0,
    decreases n,
{
    reveal_with_fuel(Seq::fold_left, 2);
    if n > 0 {
        lemma_zeros_read((n - 1) as nat);
        assert(zeros(n).drop_last() =~= zeros((n - 1) as nat));
        assert(zeros(n).last() as int == 48);
    }
}

/// A checkpoint is a file of its own in the directory, named after its step.
pub proof fn lemma_ckpt_named(dir: Seq<char>, step: nat)
    ensures
        ckpt_text(dir, step) == dir + (seq!['/', 's', 't', 'e', 'p'] + (six_digits(step) + seq![
            '.',
            'm',
            'p',
            'k',
        ])),
{
    reveal_strlit("/step");
    reveal_strlit(".mpk");
    assert(ckpt_text(dir, step) =~= dir + (seq!['/', 's', 't', 'e', 'p'] + (six_digits(step) + seq![
        '.',
        'm',
        'p',
        'k',
    ])));
}

/// A line of the log keeps all fields of the record and adds two to them: the
/// evaluation's label and, where there is one, the step.
pub proof fn lemma_eval_line_adds(fields: Seq<char>, label: Seq<char>, step: usize)
    ensures
        eval_line_text(fields.push('}'), label, None) == fields + ",\"eval\":\""@ + label
            + seq!['"', '}', '\n'],
        eval_line_text(fields.push('}'), label, Some(step)) == fields + ",\"eval\":\""@ + label
            + seq!['"'] + ",\"step\":"@ + crate::text::digits(step as nat) + seq!['}', '\n'],
{
    reveal_strlit("\"");
    reveal_strlit("}\n");
    assert(fields.push('}').drop_last() =~= fields);
    assert(eval_line_text(fields.push('}'), label, None) =~= fields + ",\"eval\":\""@ + label
        + seq!['"', '}', '\n']);
    assert(eval_line_text(fields.push('}'), label, Some(step)) =~= fields + ",\"eval\":\""@ + label
        + seq!['"'] + ",\"step\":"@ + crate::text::digits(step as nat) + seq!['}', '\n']);
}

/// Evaluations fall on the start step and on every step a multiple of the
/// cadence behind it; on the start step alone if there is no cadence.
pub proof fn lemma_evaluates_on(c: Schedule, step: usize, k: nat)
    ensures
        c.eval_every > 0 && step == c.eval_start_step + k * c.eval_every ==> evaluates(c, step),
        evaluates(c, step) && c.eval_every > 0 ==> step >= c.eval_start_step && step
            == c.eval_start_step + ((step - c.eval_start_step) / (c.eval_every as int))
            * c.eval_every,
        c.eval_every == 0 ==> (evaluates(c, step) <==> step == c.eval_start_step),
        step < c.eval_start_step ==> !evaluates(c, step),
{
    if c.eval_every > 0 {
        let d = c.eval_every as int;
        let x = step - c.eval_start_step;
        vstd::arithmetic::div_mod::lemma_fundamental_div_mod(x, d);
        assert(d * (x / d) == (x / d) * d) by (nonlinear_arith);
        if x == k * d {
            assert(0 <= k * d) by (nonlinear_arith)
                requires
                    k >= 0,
                    d > 0,
            ;
            vstd::arithmetic::div_mod::lemma_mod_multiples_basic(k as int, d);
        }
    }
}

/// What a step ends with: a log line every `log_every` steps, a checkpoint every
/// `ckpt_every` steps, and the evaluation of every set where one is due, in this
/// order; and then comes the next step, or the end of the stage.
pub proof fn lemma_step_tail(c: Schedule, step: usize, set: usize)
    requires
        step < c.steps,
        set < c.sets,
    ensures
        ({
            let next = if step + 1 < c.steps {
                Phase::Warmup { step: (step + 1) as usize }
            } else {
                Phase::Closing
            };
            let saved = if evaluates(c, step) {
                Phase::Eval { step, set: 0 }
            } else {
                next
            };
            let logged = if step % c.ckpt_every == 0 {
                Phase::Save { step }
            } else {
                saved
            };
            &&& following(c, Phase::Update { step }) == (if step % c.log_every == 0 {
                Phase::Log { step }
            } else {
                logged
            })
            &&& following(c, Phase::Log { step }) == logged
            &&& following(c, Phase::Save { step }) == saved
            &&& following(c, Phase::Eval { step, set }) == (if set + 1 < c.sets {
                Phase::Eval { step, set: (set + 1) as usize }
            } else {
                next
            })
        }),
{
}

/// How a stage begins and ends: steps are run from zero on, and behind the last
/// one the final passes, each once.
pub proof fn lemma_stage_frame(c: Schedule, pass: usize)
    requires
        pass < c.passes,
    ensures
        c.steps > 0 ==> following(c, Phase::Opening) == (Phase::Warmup { step: 0 }),
        c.steps == 0 ==> following(c, Phase::Opening) == Phase::Closing,
        following(c, Phase::Closing) == (Phase::Final { pass: 0 }),
        pass + 1 < c.passes ==> following(c, Phase::Final { pass }) == (Phase::Final {
            pass: (pass + 1) as usize,
        }),
        pass + 1 == c.passes ==> following(c, Phase::Final { pass }) == Phase::Done,
        following(Schedule { passes: 0, ..c }, Phase::Closing) == Phase::Done,
        following(c, Phase::Done) == Phase::Done,
        accum_of(c) == (if c.accum_steps == 0 {
            1
        } else {
            c.accum_steps
        }),
{
}

/// What is done in a phase: checkpoints are saved before the first step, after
/// the steps that call for it and at the end, each under its own step's name; and
/// every other phase does its own thing, for its own step.
pub proof fn lemma_phase_acts(a: StageAction, c: Schedule, p: Phase, dir: Seq<char>)
    requires
        acts(a, c, p, dir),
    ensures
        (a is Save) <==> (p is Opening || p is Save || p is Closing),
        a matches StageAction::Save { path } ==> (p is Opening ==> path@ == ckpt_text(dir, 0)) && (p
            is Closing ==> path@ == ckpt_text(dir, c.steps as nat)) && (p matches Phase::Save { step }
            ==> path@ == ckpt_text(dir, step as nat)),
        p matches Phase::Warmup { step } ==> (a matches StageAction::Warmup { share } && share.part
            * (if c.ponder_warmup_steps == 0 {
            1
        } else {
            c.ponder_warmup_steps as int
        }) == share.whole * (if c.ponder_warmup_steps == 0 {
            1
        } else if step < c.ponder_warmup_steps {
            step as int
        } else {
            c.ponder_warmup_steps as int
        })),
        p matches Phase::Micro { step, index } ==> (a matches StageAction::Micro { step: at, accum }
            && at == step && accum == accum_of(c)),
        p matches Phase::Update { step } ==> (a matches StageAction::Update { step: at } && at
            == step),
        p matches Phase::Log { step } ==> (a matches StageAction::Log { step: at } && at == step),
        p matches Phase::Eval { step, set } ==> (a matches StageAction::Eval { step: at, set: which }
            && at == step && which == set),
        p matches Phase::Final { pass } ==> (a matches StageAction::Final { pass: which } && which
            == pass),
        (a is Finish) <==> (p is Done),
        (saved_step(c, p) is Some) <==> (a is Save),
        a matches StageAction::Save { path } ==> path@ == ckpt_text(dir, saved_step(c, p)->0),
{
    match (p, a) {
        (Phase::Warmup { step }, StageAction::Warmup { share }) => {
            let w = c.ponder_warmup_steps as int;
            let x = share.part as int;
            assert(x * w == w * x) by (nonlinear_arith);
        },
        _ => {},
    }
}

/// A line ends at the first line feed; where there is none, at the end.
pub proof fn lemma_line_end(s: Seq<char>, from: int)
    requires
        0 <= from <= s.len(),
    ensures
        from <= line_end(s, from) <= s.len(),
        forall|i: int| from <= i < line_end(s, from) ==> #[trigger] s[i] != '\n',
        line_end(s, from) < s.len() ==> s[line_end(s, from)] == '\n',
    decreases s.len() - from,
{
    if from < s.len() && s[from] != '\n' {
        lemma_line_end(s, from + 1);
    }
}

proof fn lemma_word_bounds(s: Seq<char>, from: int, to: int)
    requires
        0 <= from <= to <= s.len(),
    ensures
        from <= word_start(s, from, to) <= to,
        forall|i: int| from <= i < word_start(s, from, to) ==> crate::text::is_white(#[trigger] s[i]),
        word_start(s, from, to) < to ==> !crate::text::is_white(s[word_start(s, from, to)]),
        from <= word_end(s, from, to) <= to,
        forall|i: int| from <= i < word_end(s, from, to) ==> !crate::text::is_white(#[trigger] s[i]),
        word_end(s, from, to) < to ==> crate::text::is_white(s[word_end(s, from, to)]),
    decreases to - from,
{
    if from < to {
        lemma_word_bounds(s, from + 1, to);
    }
}

/// The first word of a stretch: what stands before it is white space, it holds
/// none, and what stands right behind it is some, unless the stretch ends there.
pub proof fn lemma_first_word(s: Seq<char>, from: int, to: int) -> (at: int)
    requires
        0 <= from <= to <= s.len(),
    ensures
        ({
            let w = first_word(s, from, to);
            &&& from <= at <= at + w.len() <= to
            &&& w == s.subrange(at, at + w.len())
            &&& forall|i: int| from <= i < at ==> crate::text::is_white(#[trigger] s[i])
            &&& forall|i: int| 0 <= i < w.len() ==> !crate::text::is_white(#[trigger] w[i])
            &&& at + w.len() < to ==> crate::text::is_white(s[at + w.len()])
            &&& w.len() == 0 ==> at == to
        }),
{
    lemma_word_bounds(s, from, to);
    let a = word_start(s, from, to);
    lemma_word_bounds(s, a, to);
    let w = first_word(s, from, to);
    assert forall|i: int| 0 <= i < w.len() implies !crate::text::is_white(#[trigger] w[i]) by {
        assert(w[i] == s[a + i]);
    }
    a
}

/// Digits are read as decimals.
pub proof fn lemma_digits_value(s: Seq<char>)
    requires
        all_digits(s),
    ensures
        digits_value(s) == s.fold_left(0int, |v: int, c: char| v * 10 + (c as int - 48)),
    decreases s.len(),
{
    reveal_with_fuel(Seq::fold_left, 2);
    if s.len() > 0 {
        assert forall|i: int| 0 <= i < s.drop_last().len() implies '0' <= #[trigger] s.drop_last()[i]
            <= '9' by {
            assert(s.drop_last()[i] == s[i]);
        }
        lemma_digits_value(s.drop_last());
        assert('0' <= s[s.len() - 1] <= '9');
    }
}

/// Which words are numbers: the decimals of every number that fits, with a plus
/// in front or not; never a word that is empty, or only a plus, or holds anything
/// but digits behind it.
pub proof fn lemma_word_value(n: u64, w: Seq<char>)
    ensures
        word_value(crate::text::digits(n as nat)) == Some(n),
        word_value(seq!['+'] + crate::text::digits(n as nat)) == Some(n),
        w.len() == 0 ==> word_value(w) is None,
        w == seq!['+'] ==> word_value(w) is None,
        (exists|i: int| 1 <= i < w.len() && !('0' <= #[trigger] w[i] <= '9')) ==> word_value(w)
            is None,
        w.len() > 0 && w[0] != '+' && !('0' <= w[0] <= '9') ==> word_value(w) is None,
{
    let d = crate::text::digits(n as nat);
    crate::text::lemma_digits_read_back(n as nat);
    assert(all_digits(d));
    lemma_digits_value(d);
    assert('0' <= d[0] <= '9');
    let plus = seq!['+'] + d;
    assert(plus.drop_first() =~= d);
    assert(plus[0] == '+');
    if exists|i: int| 1 <= i < w.len() && !('0' <= #[trigger] w[i] <= '9') {
        let i = choose|i: int| 1 <= i < w.len() && !('0' <= #[trigger] w[i] <= '9');
        assert(w.drop_first()[i - 1] == w[i]);
        assert(!all_digits(w.drop_first()));
        assert(!all_digits(w));
    }
    if w.len() > 0 && w[0] != '+' && !('0' <= w[0] <= '9') {
        assert(!all_digits(w));
    }
}

/// What a report states: nothing if it has one line; else what the first word of
/// its second line spells, whatever stands before and behind.
pub proof fn lemma_reported(head: Seq<char>, gap: Seq<char>, word: Seq<char>, tail: Seq<char>)
    requires
        forall|i: int| 0 <= i < head.len() ==> #[trigger] head[i] != '\n',
        forall|i: int|
            0 <= i < gap.len() ==> crate::text::is_white(#[trigger] gap[i]) && gap[i] != '\n',
        word.len() > 0,
        forall|i: int| 0 <= i < word.len() ==> !crate::text::is_white(#[trigger] word[i]),
        tail.len() > 0 ==> crate::text::is_white(tail[0]),
    ensures
        reported_mb(head) is None,
        reported_mb(head + seq!['\n'] + gap + word + tail) == word_value(word),
{
    lemma_line_end(head, 0);
    let s = head + seq!['\n'] + gap + word + tail;
    let a = head.len() as int;
    lemma_line_end(s, 0);
    assert(s[a] == '\n');
    assert(line_end(s, 0) == a) by {
        let e = line_end(s, 0);
        if e < a {
            assert(s[e] == head[e]);
        }
    }
    let b = line_end(s, a + 1);
    lemma_line_end(s, a + 1);
    let g = a + 1 + gap.len();
    let w = g + word.len();
    assert(b >= w) by {
        if b < g {
            assert(s[b] == gap[b - a - 1]);
        } else if b < w {
            assert(s[b] == word[b - g]);
        }
    }
    let at = lemma_first_word(s, a + 1, b);
    let found = first_word(s, a + 1, b);
    assert(at == g) by {
        if at < g {
            assert(s[at] == gap[at - a - 1]);
            if found.len() > 0 {
                assert(found[0] == s[at]);
            }
        } else if at > g {
            assert(s[g] == word[0]);
        }
    }
    assert(found.len() == word.len()) by {
        if found.len() < word.len() {
            assert(s[at + found.len()] == word[found.len() as int]);
        } else if found.len() > word.len() {
            assert(found[word.len() as int] == s[w]);
            assert(s[w] == tail[0]);
        }
    }
    assert(found =~= word);
}

} // verus!
