//! Training loop bookkeeping: batch sampling, activation budgets, scheduled
//! sampling, evaluation splits. The tensors live with the backend; what
//! decides over them lives here.

pub mod decode;
pub mod inputs;
pub mod stage;

use vstd::prelude::*;

use crate::harness::batch;
use crate::harness::batch::{bucket_len, TOP_BUCKET};
use crate::harness::cells;
use crate::harness::cells::{cell_keys, cell_rows, pool_keys, CellKey, CellName};
use crate::harness::experiment;
use crate::tasks::rng;
use crate::tasks::{HarnessRng, Instance, InstanceModel};

verus! {

/// The schedule of a run. The learning rates and the sampling thresholds stay
/// with the optimizers.
#[derive(Debug, Clone)]
pub struct TrainConfig {
    pub batch_size: usize,
    pub steps: usize,
    pub log_every: usize,
    pub eval_every: usize,
    /// Save a checkpoint every N steps (independent of eval).
    pub ckpt_every: usize,
    pub eval_max_new: usize,
    pub seed: u64,
    /// Micro-batches per optimizer step (effective batch =
    /// `batch_size` x `accum_steps`). Each micro loss is scaled by
    /// 1/accum_steps before backward, so merged grads equal full-batch grads.
    pub accum_steps: usize,
    /// Whole-process stall watchdog: kill the run if no step completes
    /// within this many seconds (catches hangs no panic hook can see).
    pub stuck_timeout_secs: u64,
    /// First step at which eval runs; `(step - start) % eval_every` after.
    /// Set high (e.g. >= total steps) to isolate training memory from eval.
    pub eval_start_step: usize,
    pub ckpt_dir: String,
    /// Ponder warmup: effective ponder weight ramps linearly 0 -> base
    /// over this many steps (0 = off: full weight from step 0).
    /// Applies to the ponder term only, never the CE term.
    pub ponder_warmup_steps: usize,
    /// Repeat the final eval with reversed block order ("final-shuffled"):
    /// the role diagnostic. Eval-only; training never permutes.
    pub shuffle_eval: bool,
}

/// Whether `t` is the standing schedule.
pub open spec fn is_standing(t: TrainConfig) -> bool {
    &&& t.batch_size == 32
    &&& t.steps == 1000
    &&& t.log_every == 50
    &&& t.eval_every == 200
    &&& t.ckpt_every == 500
    &&& t.eval_max_new == 64
    &&& t.seed == 0
    &&& t.accum_steps == 1
    &&& t.stuck_timeout_secs == 900
    &&& t.eval_start_step == 0
    &&& t.ckpt_dir@ == "checkpoints"@
    &&& t.ponder_warmup_steps == 0
    &&& t.shuffle_eval
}

impl TrainConfig {
    /// The standing schedule.
    pub fn new() -> (r: Self)
        ensures
            is_standing(r),
    {
        TrainConfig {
            batch_size: 32,
            steps: 1000,
            log_every: 50,
            eval_every: 200,
            ckpt_every: 500,
            eval_max_new: 64,
            seed: 0,
            accum_steps: 1,
            stuck_timeout_secs: 900,
            eval_start_step: 0,
            ckpt_dir: "checkpoints".to_string(),
            ponder_warmup_steps: 0,
            shuffle_eval: true,
        }
    }
}

/// Activation budget for one training micro-batch, as max `batch x padded_T`.
/// The banded sampler hops length bands (bucket edges 64..512); at a fixed
/// batch size the top band explodes the autodiff tape, which OOMs small GPUs
/// on the first full-depth T=512 micro. Long-band windows are trimmed so the
/// tape size stays band-independent. Mean-reduced CE keeps merged micro-grads
/// a mean of micro-means either way.
pub const MICRO_BT_BUDGET: usize = 2048;

/// Same budget for eval decode chunks (B x T per fused forward). Eval prompts
/// bucket to 512 while training bands sit near 64, so a fixed row count that
/// fits a training band OOMs on an eval chunk of long prompts.
pub const EVAL_BT_BUDGET: usize = 8192;

/// `x` brought into `lo..=hi`.
pub open spec fn clamped(x: nat, lo: nat, hi: nat) -> nat {
    if x < lo {
        lo
    } else if x > hi {
        hi
    } else {
        x
    }
}

/// The rows kept of a micro-batch padded to `t_pad`.
pub open spec fn top_rows(t_pad: nat, rows: nat) -> nat {
    if t_pad >= 512 {
        clamped(rows, 1, 2)
    } else {
        rows
    }
}

/// Top-bucket row cap: T=512 micros carry a B x T^2 attention tape that peaks
/// past 4GB at batch 6 regardless of pool packing. Cap them to 2 rows;
/// mean-reduced CE keeps the grads unbiased.
pub fn top_bucket_rows(t_pad: usize, rows: usize) -> (r: usize)
    ensures
        r == top_rows(t_pad as nat, rows as nat),
{
    if t_pad >= 512 {
        if rows < 1 {
            1
        } else if rows > 2 {
            2
        } else {
            rows
        }
    } else {
        rows
    }
}

/// A share of a whole.
#[derive(Debug, Clone, Copy, PartialEq, Eq, Structural)]
pub struct Share {
    pub part: usize,
    pub whole: usize,
}

/// The share of the ponder weight in force at `step`: it ramps from nothing to
/// the whole over `warmup_steps` steps (none = the whole from the start).
pub fn ponder_warmup(step: usize, warmup_steps: usize) -> (r: Share)
    ensures
        warmup_steps == 0 ==> r == (Share { part: 1, whole: 1 }),
        warmup_steps > 0 ==> r == (Share {
            part: if step < warmup_steps {
                step
            } else {
                warmup_steps
            },
            whole: warmup_steps,
        }),
        0 < r.whole,
        r.part <= r.whole,
{
    if warmup_steps == 0 {
        Share { part: 1, whole: 1 }
    } else if step < warmup_steps {
        Share { part: step, whole: warmup_steps }
    } else {
        Share { part: warmup_steps, whole: warmup_steps }
    }
}

/// How many of `flags` are set.
pub open spec fn set_count(flags: Seq<bool>) -> nat
    decreases flags.len(),
{
    if flags.len() == 0 {
        0
    } else {
        set_count(flags.drop_last()) + if flags.last() {
            1nat
        } else {
            0nat
        }
    }
}

/// The part of a trainer that decides: sampling and scheduled sampling.
#[derive(Debug)]
pub struct Trainer {
    /// Current scheduled-sampling depth.
    pub free_k: usize,
}

impl Trainer {
    pub fn new() -> (r: Self)
        ensures
            r.free_k == 0,
    {
        Trainer { free_k: 0 }
    }

    /// Advances the free-running schedule. `met` says for each threshold of
    /// the schedule whether the mean answer-CE is below it.
    pub fn update_free_schedule(&mut self, met: &[bool])
        ensures
            final(self).free_k == set_count(met@),
    {
        let mut k: usize = 0;
        let mut i: usize = 0;
        while i < met.len()
            invariant
                i <= met@.len(),
                k <= i,
                k == set_count(met@.take(i as int)),
            decreases met@.len() - i,
        {
            assert(met@.take(i + 1).drop_last() =~= met@.take(i as int));
            if met[i] {
                k = k + 1;
            }
            i = i + 1;
        }
        assert(met@.take(i as int) =~= met@);
        self.free_k = k;
    }

    /// Samples a batch with replacement from the pool (deterministic in rng).
    pub fn sample_batch<'a>(rng: &mut HarnessRng, pool: &'a [Instance], n: usize) -> (r: Vec<
        &'a Instance,
    >)
        requires
            pool@.len() > 0 || n == 0,
        ensures
            r@.len() == n,
            forall|i: int|
                0 <= i < n ==> *(#[trigger] r@[i]) == pool@[rng::draw_below(
                    old(rng)@,
                    i as nat,
                    pool@.len(),
                ) as int],
            final(rng)@ == rng::advance(old(rng)@, n as nat),
    {
        let ghost s = rng@;
        let mut out: Vec<&'a Instance> = Vec::new();
        let mut i: usize = 0;
        proof {
            rng::lemma_advance_adds(s, 0, 0);
        }
        while i < n
            invariant
                i <= n,
                pool@.len() > 0 || n == 0,
                out@.len() == i,
                rng@ == rng::advance(s, i as nat),
                forall|j: int|
                    0 <= j < i ==> *(#[trigger] out@[j]) == pool@[rng::draw_below(
                        s,
                        j as nat,
                        pool@.len(),
                    ) as int],
            decreases n - i,
        {
            proof {
                rng::lemma_next_draw(s, i as nat);
            }
            let at: usize = rng.below(pool.len());
            out.push(&pool[at]);
            i = i + 1;
        }
        out
    }

    /// Samples a contiguous window from a length-sorted pool. Rows share
    /// near-identical lengths, so padded T (and fused-kernel shapes) stay
    /// stable across steps: fewer recompiles, less pool fragmentation.
    pub fn sample_banded_batch<'a>(
        rng: &mut HarnessRng,
        sorted_pool: &'a [Instance],
        n: usize,
    ) -> (r: Vec<&'a Instance>)
        requires
            sorted_pool@.len() > 0,
            n > 0 || sorted_pool@.len() < usize::MAX,
        ensures
            r@.len() == band_len(sorted_pool@.len(), n as nat),
            forall|i: int|
                0 <= i < r@.len() ==> *(#[trigger] r@[i]) == sorted_pool@[band_start(
                    old(rng)@,
                    sorted_pool@.len(),
                    n as nat,
                ) + i],
            final(rng)@ == rng::advance(old(rng)@, 1),
    {
        let total: usize = sorted_pool.len();
        let len: usize = if n < total {
            n
        } else {
            total
        };
        let ghost s = rng@;
        let start: usize = rng.below(total - len + 1);
        let mut out: Vec<&'a Instance> = Vec::new();
        let mut i: usize = 0;
        while i < len
            invariant
                i <= len,
                start + len <= total == sorted_pool@.len(),
                out@.len() == i,
                start == band_start(s, sorted_pool@.len(), n as nat),
                forall|j: int| 0 <= j < i ==> *(#[trigger] out@[j]) == sorted_pool@[start + j],
            decreases len - i,
        {
            out.push(&sorted_pool[start + i]);
            i = i + 1;
        }
        out
    }

    /// The next micro-batch: a banded window, trimmed to the activation
    /// budget. The longest rows sit at the window's end and are dropped first,
    /// so padded T never inflates the tape.
    pub fn next_micro<'a>(rng: &mut HarnessRng, sorted_pool: &'a [Instance], n: usize) -> (r: Vec<
        &'a Instance,
    >)
        requires
            sorted_pool@.len() > 0,
            n > 0,
            widest(band(old(rng)@, sorted_pool@, n as nat)) <= TOP_BUCKET,
        ensures
            ({
                let window = band(old(rng)@, sorted_pool@, n as nat);
                &&& r@.len() == micro_rows(window)
                &&& 1 <= r@.len() <= window.len()
                &&& forall|i: int| 0 <= i < r@.len() ==> *(#[trigger] r@[i]) == window[i]
            }),
            final(rng)@ == rng::advance(old(rng)@, 1),
    {
        let mut window: Vec<&'a Instance> = Trainer::sample_banded_batch(rng, sorted_pool, n);
        let ghost start = band_start(old(rng)@, sorted_pool@.len(), n as nat);
        let ghost want = band(old(rng)@, sorted_pool@, n as nat);
        proof {
            assert forall|i: int| 0 <= i < window@.len() implies *(#[trigger] window@[i])
                == want[i] by {
                assert(*window@[i] == sorted_pool@[start + i]);
            }
            lemma_micro_rows_of(window@, want);
            lemma_micro_rows_bounds(want);
        }
        let rows: usize = trimmed_rows(&window);
        window.truncate(rows);
        window
    }
}

/// The length of a banded window.
pub open spec fn band_len(total: nat, n: nat) -> nat {
    if n < total {
        n
    } else {
        total
    }
}

/// Where the banded window drawn from state `s` starts.
pub open spec fn band_start(s: u64, total: nat, n: nat) -> int {
    rng::draw_below(s, 0, (total - band_len(total, n) + 1) as nat) as int
}

/// The banded window drawn from state `s`.
pub open spec fn band(s: u64, pool: Seq<Instance>, n: nat) -> Seq<Instance> {
    let start = band_start(s, pool.len(), n);
    pool.subrange(start, (start + band_len(pool.len(), n)) as int)
}

/// The length of an instance's training sequence.
pub open spec fn row_len(x: Instance) -> nat {
    x.prompt@.len() + x.target@.len() + 1
}

/// The greatest row length of a window.
pub open spec fn widest(window: Seq<Instance>) -> nat
    decreases window.len(),
{
    if window.len() == 0 {
        0
    } else if row_len(window.last()) > widest(window.drop_last()) {
        row_len(window.last())
    } else {
        widest(window.drop_last())
    }
}

proof fn lemma_widest(window: Seq<Instance>, i: int)
    requires
        0 <= i < window.len(),
    ensures
        row_len(window[i]) <= widest(window),
    decreases window.len(),
{
    if i < window.len() - 1 {
        lemma_widest(window.drop_last(), i);
    }
}

/// The rows of a window that fit the activation budget.
pub open spec fn micro_rows(window: Seq<Instance>) -> nat {
    let t_pad = batch::bucket(widest(window));
    top_rows(t_pad, clamped(MICRO_BT_BUDGET as nat / t_pad, 1, window.len()))
}

/// A micro-batch holds at least one row, no more than its window, and stays
/// within the activation budget unless it is a single row.
pub proof fn lemma_micro_rows_bounds(window: Seq<Instance>)
    requires
        window.len() > 0,
    ensures
        1 <= micro_rows(window) <= window.len(),
        micro_rows(window) * batch::bucket(widest(window)) <= MICRO_BT_BUDGET || micro_rows(window)
            == 1,
        batch::bucket(widest(window)) == 512 ==> micro_rows(window) <= 2,
{
    let t = batch::bucket(widest(window));
    let rows = micro_rows(window);
    let most = MICRO_BT_BUDGET as nat / t;
    assert(t == 64 || t == 128 || t == 256 || t == 512);
    if rows > 1 {
        assert(rows <= most);
        assert(most * t <= MICRO_BT_BUDGET);
        assert(rows * t <= most * t) by (nonlinear_arith)
            requires
                rows <= most,
        ;
    }
}

/// The instances that references refer to.
spec fn referred(window: Seq<&Instance>) -> Seq<Instance> {
    window.map_values(|x: &Instance| *x)
}

proof fn lemma_micro_rows_of(window: Seq<&Instance>, want: Seq<Instance>)
    requires
        window.len() == want.len(),
        forall|i: int| 0 <= i < window.len() ==> *(#[trigger] window[i]) == want[i],
    ensures
        referred(window) == want,
{
    assert(referred(window) =~= want);
}

/// The rows of a window that fit the activation budget.
fn trimmed_rows(window: &Vec<&Instance>) -> (r: usize)
    requires
        window@.len() > 0,
        widest(referred(window@)) <= TOP_BUCKET,
    ensures
        r == micro_rows(referred(window@)),
{
    let ghost all = referred(window@);
    let mut t_raw: usize = 0;
    let mut i: usize = 0;
    while i < window.len()
        invariant
            i <= window@.len(),
            all == referred(window@),
            t_raw <= TOP_BUCKET,
            t_raw == widest(all.take(i as int)),
            widest(all) <= TOP_BUCKET,
        decreases window@.len() - i,
    {
        assert(all.take(i + 1).drop_last() =~= all.take(i as int));
        proof {
            lemma_widest(all, i as int);
        }
        let n: usize = window[i].prompt.len() + window[i].target.len() + 1;
        if n > t_raw {
            t_raw = n;
        }
        i = i + 1;
    }
    assert(all.take(i as int) =~= all);
    let t_pad: usize = bucket_len(t_raw);
    let most: usize = MICRO_BT_BUDGET / t_pad;
    let rows: usize = if most < 1 {
        1
    } else if most > window.len() {
        window.len()
    } else {
        most
    };
    top_bucket_rows(t_pad, rows)
}

/// A sequence whose first `free_k` target inputs are proposals: only positions
/// of the target region change, each to the proposal for its own position.
pub open spec fn patched(
    seq: Seq<u8>,
    prompt_len: nat,
    pred: Seq<i64>,
    offset: int,
    free_k: nat,
) -> Seq<u8> {
    Seq::new(
        seq.len(),
        |p: int|
            if prompt_len <= p < prompt_len + free_k {
                pred[offset + p] as u8
            } else {
                seq[p]
            },
    )
}

/// Whether `pred`, in rows of `t`, has a proposal for every position that is
/// patched.
pub open spec fn proposes(
    seqs: Seq<Vec<u8>>,
    prompt_lens: Seq<usize>,
    pred: Seq<i64>,
    t: nat,
    free_k: nat,
) -> bool {
    forall|r: int, p: int|
        0 <= r < seqs.len() && prompt_lens[r] <= p < prompt_lens[r] + free_k && p
            < seqs[r]@.len() ==> 0 <= #[trigger] flat(r, t, p) < pred.len()
}

/// The place of position `p` of row `r` among rows of `t`.
pub open spec fn flat(r: int, t: nat, p: int) -> int {
    r * t + p
}

/// Patches the first-K target inputs per row with proposal argmax ids.
/// The prompt region is never touched, lengths are unchanged, only
/// `seq[pl+j]` for `j < min(K, target_len)` are replaced.
/// CRITICAL: patched sequences must feed TOKENS ONLY. Targets always come
/// from the unpatched truth, or the loss scores the model against its own
/// output (self-agreement -> 0 regardless of correctness).
pub fn patch_free_inputs(
    base_seqs: &[Vec<u8>],
    prompt_lens: &[usize],
    pred_flat: &[i64],
    t: usize,
    free_k: usize,
) -> (r: Vec<Vec<u8>>)
    requires
        base_seqs@.len() <= prompt_lens@.len(),
        proposes(base_seqs@, prompt_lens@, pred_flat@, t as nat, free_k as nat),
    ensures
        r@.len() == base_seqs@.len(),
        forall|i: int|
            0 <= i < r@.len() ==> (#[trigger] r@[i])@ == patched(
                base_seqs@[i]@,
                prompt_lens@[i] as nat,
                pred_flat@,
                flat(i, t as nat, 0),
                free_k as nat,
            ),
{
    let mut out: Vec<Vec<u8>> = Vec::new();
    let mut r: usize = 0;
    while r < base_seqs.len()
        invariant
            r <= base_seqs@.len() <= prompt_lens@.len(),
            proposes(base_seqs@, prompt_lens@, pred_flat@, t as nat, free_k as nat),
            out@.len() == r,
            forall|i: int|
                0 <= i < r ==> (#[trigger] out@[i])@ == patched(
                    base_seqs@[i]@,
                    prompt_lens@[i] as nat,
                    pred_flat@,
                    flat(i, t as nat, 0),
                    free_k as nat,
                ),
        decreases base_seqs@.len() - r,
    {
        let row: Vec<u8> = patch_row(base_seqs, prompt_lens, pred_flat, t, free_k, r);
        out.push(row);
        r = r + 1;
    }
    out
}

fn patch_row(
    base_seqs: &[Vec<u8>],
    prompt_lens: &[usize],
    pred_flat: &[i64],
    t: usize,
    free_k: usize,
    r: usize,
) -> (row: Vec<u8>)
    requires
        r < base_seqs@.len() <= prompt_lens@.len(),
        proposes(base_seqs@, prompt_lens@, pred_flat@, t as nat, free_k as nat),
    ensures
        row@ == patched(
            base_seqs@[r as int]@,
            prompt_lens@[r as int] as nat,
            pred_flat@,
            flat(r as int, t as nat, 0),
            free_k as nat,
        ),
{
    let seq: &Vec<u8> = &base_seqs[r];
    let pl: usize = prompt_lens[r];
    let total: usize = pred_flat.len();
    let ghost want = patched(
        seq@,
        pl as nat,
        pred_flat@,
        flat(r as int, t as nat, 0),
        free_k as nat,
    );
    let mut out: Vec<u8> = Vec::new();
    let mut p: usize = 0;
    while p < seq.len()
        invariant
            p <= seq@.len(),
            seq@ == base_seqs@[r as int]@,
            pl == prompt_lens@[r as int],
            total == pred_flat@.len(),
            r < base_seqs@.len(),
            proposes(base_seqs@, prompt_lens@, pred_flat@, t as nat, free_k as nat),
            want == patched(
                seq@,
                pl as nat,
                pred_flat@,
                flat(r as int, t as nat, 0),
                free_k as nat,
            ),
            out@ =~= want.take(p as int),
        decreases seq@.len() - p,
    {
        if p >= pl && p - pl < free_k {
            proof {
                assert(0 <= flat(r as int, t as nat, p as int) < pred_flat@.len());
                assert(r * t >= 0) by (nonlinear_arith)
                    requires
                        r >= 0,
                        t >= 0,
                ;
            }
            let id: i64 = pred_flat[r * t + p];
            out.push(id as u8);
        } else {
            out.push(seq[p]);
        }
        p = p + 1;
    }
    out
}

/// Patching never touches the prompt nor anything behind the first `free_k`
/// target inputs, keeps the length, and with no free inputs changes nothing.
pub proof fn lemma_patch_touches_target_prefix(
    seq: Seq<u8>,
    prompt_len: nat,
    pred: Seq<i64>,
    offset: int,
    free_k: nat,
)
    ensures
        ({
            let out = patched(seq, prompt_len, pred, offset, free_k);
            &&& out.len() == seq.len()
            &&& forall|p: int|
                0 <= p < seq.len() && (p < prompt_len || p >= prompt_len + free_k)
                    ==> #[trigger] out[p] == seq[p]
            &&& free_k == 0 ==> out == seq
        }),
{
    assert(patched(seq, prompt_len, pred, offset, 0) =~= seq);
}

/// The first `n` of `xs`; all if there are fewer.
pub open spec fn first_n(xs: Seq<int>, n: nat) -> Seq<int> {
    if n < xs.len() {
        xs.take(n as int)
    } else {
        xs
    }
}

/// The first `n` rows of every one of `keys`, cell by cell.
pub open spec fn split_rows(rows: Seq<CellName>, keys: Seq<CellName>, n: nat) -> Seq<int>
    decreases keys.len(),
{
    if keys.len() == 0 {
        Seq::empty()
    } else {
        split_rows(rows, keys.drop_last(), n) + first_n(cells::rows_in(rows, keys.last()), n)
    }
}

/// The instances at some positions of a pool.
pub open spec fn instances_at(pool: Seq<InstanceModel>, at: Seq<int>) -> Seq<InstanceModel> {
    at.map_values(|p: int| pool[p])
}

/// The fixed evaluation split of a pool.
pub open spec fn split_of(pool: Seq<InstanceModel>, n: nat) -> Seq<InstanceModel> {
    let rows = cells::pool_names(pool);
    instances_at(pool, split_rows(rows, cells::cells_of(rows), n))
}

/// Fixed eval split: the first `per_cell` instances per (task, track), cells
/// in the order of their names. Deterministic from the pool, so forgetting
/// checks across stages compare like with like.
pub fn eval_split(pool: &[Instance], per_cell: usize) -> (r: Vec<Instance>)
    ensures
        experiment::instance_models(r@) == split_of(
            experiment::instance_models(pool@),
            per_cell as nat,
        ),
{
    let ghost models = experiment::instance_models(pool@);
    let ghost rows = cells::pool_names(models);
    let ghost n = per_cell as nat;
    let row_keys: Vec<CellKey> = pool_keys(pool);
    let keys: Vec<CellKey> = cell_keys(&row_keys);
    let ghost names = cells::names_of(keys@);
    let mut out: Vec<Instance> = Vec::new();
    let mut i: usize = 0;
    assert(names.take(0) =~= Seq::<CellName>::empty());
    assert(experiment::instance_models(out@) =~= instances_at(models, split_rows(rows, names.take(0), n)));
    while i < keys.len()
        invariant
            i <= keys@.len(),
            models == experiment::instance_models(pool@),
            rows == cells::pool_names(models),
            cells::names_of(row_keys@) == rows,
            names == cells::names_of(keys@),
            n == per_cell,
            experiment::instance_models(out@) == instances_at(
                models,
                split_rows(rows, names.take(i as int), n),
            ),
        decreases keys@.len() - i,
    {
        let ghost had = experiment::instance_models(out@);
        let ghost before = split_rows(rows, names.take(i as int), n);
        let ghost key = keys@[i as int]@;
        let members: Vec<usize> = cell_rows(&row_keys, &keys[i]);
        proof {
            cells::lemma_rows_in(rows, key);
        }
        take_first(pool, &members, per_cell, &mut out);
        proof {
            assert(names.take(i + 1).drop_last() =~= names.take(i as int));
            assert(names.take(i + 1).last() == key);
            let mine = first_n(cells::rows_in(rows, key), n);
            assert(instances_at(models, before + mine) =~= instances_at(models, before)
                + instances_at(models, mine));
        }
        i = i + 1;
    }
    assert(names.take(i as int) =~= names);
    out
}

/// Appends copies of the first `n` members to `out`.
fn take_first(pool: &[Instance], members: &Vec<usize>, n: usize, out: &mut Vec<Instance>)
    requires
        forall|i: int| 0 <= i < cells::positions(members@).len() ==> 0 <= #[trigger]
            cells::positions(members@)[i] < pool@.len(),
    ensures
        experiment::instance_models(final(out)@) == experiment::instance_models(old(out)@)
            + instances_at(
            experiment::instance_models(pool@),
            first_n(cells::positions(members@), n as nat),
        ),
{
    let ghost models = experiment::instance_models(pool@);
    let ghost had = experiment::instance_models(out@);
    let ghost at = cells::positions(members@);
    let ghost mine = first_n(at, n as nat);
    let mut i: usize = 0;
    while i < n && i < members.len()
        invariant
            i <= mine.len(),
            models == experiment::instance_models(pool@),
            at == cells::positions(members@),
            mine == first_n(at, n as nat),
            forall|j: int| 0 <= j < at.len() ==> 0 <= #[trigger] at[j] < pool@.len(),
            experiment::instance_models(out@) =~= had + instances_at(models, mine.take(i as int)),
        decreases members@.len() - i,
    {
        let ghost before = out@;
        assert(at[i as int] == members@[i as int]);
        let x: Instance = pool[members[i]].clone();
        assert(mine[i as int] == at[i as int]);
        out.push(x);
        assert(experiment::instance_models(out@) =~= experiment::instance_models(before).push(x@));
        assert(instances_at(models, mine.take(i + 1)) =~= instances_at(
            models,
            mine.take(i as int),
        ).push(models[at[i as int]]));
        i = i + 1;
    }
    assert(mine.take(i as int) =~= mine);
}

/// A larger split keeps every cell's rows of a smaller one, as a prefix; and
/// no cell gets more rows than were asked for.
pub proof fn lemma_split_prefix(rows: Seq<CellName>, key: CellName, n: nat, m: nat)
    requires
        n <= m,
    ensures
        ({
            let few = first_n(cells::rows_in(rows, key), n);
            let many = first_n(cells::rows_in(rows, key), m);
            &&& few.len() <= n
            &&& few.len() <= many.len()
            &&& few == many.take(few.len() as int)
        }),
{
    let all = cells::rows_in(rows, key);
    let few = first_n(all, n);
    let many = first_n(all, m);
    assert(few =~= many.take(few.len() as int));
}

/// Block numbers from the last down.
pub open spec fn reversed_order(n_blocks: nat) -> Seq<usize> {
    Seq::new(n_blocks, |i: int| (n_blocks - 1 - i) as usize)
}

/// Final-eval passes: trained order always; reversed block order iff
/// `shuffle` (role diagnostic). Eval-only; training never permutes.
pub fn final_eval_passes(n_blocks: usize, shuffle: bool) -> (r: Vec<(String, Option<Vec<usize>>)>)
    ensures
        r@.len() == if shuffle {
            2nat
        } else {
            1nat
        },
        r@[0].0@ == "final"@,
        r@[0].1 is None,
        shuffle ==> r@[1].0@ == "final-shuffled"@,
        shuffle ==> (r@[1].1 matches Some(order) && order@ == reversed_order(n_blocks as nat)),
{
    let mut passes: Vec<(String, Option<Vec<usize>>)> = Vec::new();
    passes.push(("final".to_string(), None));
    if shuffle {
        let mut order: Vec<usize> = Vec::new();
        let mut i: usize = n_blocks;
        while i > 0
            invariant
                i <= n_blocks,
                order@ =~= reversed_order(n_blocks as nat).take(n_blocks - i),
            decreases i,
        {
            i = i - 1;
            order.push(i);
        }
        assert(order@ =~= reversed_order(n_blocks as nat));
        passes.push(("final-shuffled".to_string(), Some(order)));
    }
    passes
}

/// The standing schedule, spelled out.
pub proof fn lemma_standing_schedule(t: TrainConfig)
    requires
        is_standing(t),
    ensures
        t.batch_size == 32 && t.accum_steps == 1 && t.steps == 1000 && t.seed == 0,
        t.log_every == 50 && t.eval_every == 200 && t.ckpt_every == 500,
        t.eval_start_step == 0 && t.eval_max_new == 64 && t.shuffle_eval,
        t.stuck_timeout_secs == 900 && t.ponder_warmup_steps == 0,
        t.ckpt_dir@ == "checkpoints"@,
{
}

/// Clamping brings a number into bounds, and changes none that is within them.
pub proof fn lemma_clamped(x: nat, lo: nat, hi: nat)
    requires
        lo <= hi,
    ensures
        lo <= clamped(x, lo, hi) <= hi,
        lo <= x <= hi ==> clamped(x, lo, hi) == x,
        x <= lo ==> clamped(x, lo, hi) == lo,
        x >= hi ==> clamped(x, lo, hi) == hi,
{
}

/// Rows of the top bucket are cut to two, and are one at the least; others are
/// left alone.
pub proof fn lemma_top_rows(t_pad: nat, rows: nat)
    ensures
        t_pad < 512 ==> top_rows(t_pad, rows) == rows,
        t_pad >= 512 ==> 1 <= top_rows(t_pad, rows) <= 2,
        t_pad >= 512 && 1 <= rows <= 2 ==> top_rows(t_pad, rows) == rows,
        t_pad >= 512 && rows > 2 ==> top_rows(t_pad, rows) == 2,
{
}

/// Flags are counted that are set.
pub proof fn lemma_set_count(flags: Seq<bool>)
    ensures
        set_count(flags) == flags.filter(|b: bool| b).len(),
    decreases flags.len(),
{
    reveal(Seq::filter);
    if flags.len() > 0 {
        lemma_set_count(flags.drop_last());
    }
}

/// A banded window: as many rows as asked for, all if there are fewer, next to
/// one another in the pool, from a place that the draw picks among all places
/// where that many rows are left.
pub proof fn lemma_band(s: u64, pool: Seq<Instance>, n: nat, i: int)
    requires
        pool.len() > 0,
        0 <= i < band(s, pool, n).len(),
    ensures
        ({
            let window = band(s, pool, n);
            let places = pool.len() - window.len() + 1;
            let start = rng::draw(s, 0) as int % places;
            &&& n <= pool.len() ==> window.len() == n
            &&& n >= pool.len() ==> window.len() == pool.len()
            &&& 0 <= start + i < pool.len()
            &&& window[i] == pool[start + i]
            &&& start == band_start(s, pool.len(), n)
            &&& window.len() == band_len(pool.len(), n)
        }),
{
    let places = (pool.len() - band_len(pool.len(), n) + 1) as nat;
    assert(rng::draw_below(s, 0, places) < places);
}

/// A row is as long as its training sequence, and the widest row of a window is
/// one that no other exceeds.
pub proof fn lemma_widest_is_greatest(window: Seq<Instance>) -> (at: int)
    ensures
        forall|i: int|
            0 <= i < window.len() ==> batch::sequence_of((#[trigger] window[i])@).len() <= widest(
                window,
            ),
        window.len() > 0 ==> 0 <= at < window.len() && batch::sequence_of(window[at]@).len()
            == widest(window),
    decreases window.len(),
{
    if window.len() == 0 {
        0
    } else {
        let front = window.drop_last();
        let before = lemma_widest_is_greatest(front);
        assert forall|i: int| 0 <= i < window.len() implies batch::sequence_of(
            (#[trigger] window[i])@,
        ).len() <= widest(window) by {
            if i < front.len() {
                assert(front[i] == window[i]);
            }
        }
        if row_len(window.last()) > widest(front) {
            window.len() - 1
        } else {
            assert(front.len() > 0);
            assert(front[before] == window[before]);
            before
        }
    }
}

/// A micro-batch takes all the rows it can: one more would exceed its window,
/// the budget of 2048 padded positions, or the two rows of the top bucket.
pub proof fn lemma_micro_rows_most(window: Seq<Instance>)
    requires
        window.len() > 0,
    ensures
        ({
            let t = batch::bucket(widest(window));
            let rows = micro_rows(window);
            &&& rows * t <= 2048 || rows == 1
            &&& rows == window.len() || (rows + 1) * t > 2048 || (t == 512 && rows == 2)
            &&& t == 512 ==> rows <= 2
        }),
{
    lemma_micro_rows_bounds(window);
    let t = batch::bucket(widest(window));
    let rows = micro_rows(window);
    assert(t == 64 || t == 128 || t == 256 || t == 512);
    if t == 64 {
        assert(2048nat / t == 32);
    } else if t == 128 {
        assert(2048nat / t == 16);
    } else if t == 256 {
        assert(2048nat / t == 8);
    } else {
        assert(2048nat / t == 4);
    }
    assert((rows + 1) * t == rows * t + t) by (nonlinear_arith);
}

/// What is patched: each of the first `free_k` target inputs becomes the
/// proposal for its own position, read as a byte.
pub proof fn lemma_patch_reads_proposals(
    seq: Seq<u8>,
    prompt_len: nat,
    pred: Seq<i64>,
    r: int,
    t: nat,
    free_k: nat,
    j: int,
)
    requires
        0 <= j < free_k,
        prompt_len + j < seq.len(),
    ensures
        patched(seq, prompt_len, pred, flat(r, t, 0), free_k)[prompt_len + j] == pred[r * t + (
        prompt_len + j)] as u8,
{
}

/// The rows of a cell are the instances of that task and track, in their order.
proof fn lemma_rows_filter(pool: Seq<InstanceModel>, k: CellName)
    ensures
        instances_at(pool, cells::rows_in(cells::pool_names(pool), k)) == pool.filter(
            |x: InstanceModel|
                vstd::utf8::encode_utf8(x.task) == k.task && x.track == k.track,
        ),
    decreases pool.len(),
{
    let mine = |x: InstanceModel|
        vstd::utf8::encode_utf8(x.task) == k.task && x.track == k.track;
    let names = cells::pool_names(pool);
    reveal(Seq::filter);
    if pool.len() == 0 {
        assert(instances_at(pool, cells::rows_in(names, k)) =~= pool.filter(mine));
    } else {
        let front = pool.drop_last();
        let last = (pool.len() - 1) as int;
        lemma_rows_filter(front, k);
        assert(names.drop_last() =~= cells::pool_names(front));
        let before = cells::rows_in(cells::pool_names(front), k);
        cells::lemma_rows_in(cells::pool_names(front), k);
        assert(instances_at(pool, before) =~= instances_at(front, before)) by {
            assert forall|i: int| 0 <= i < before.len() implies #[trigger] instances_at(
                pool,
                before,
            )[i] == instances_at(front, before)[i] by {
                assert(0 <= before[i] < front.len());
                assert(front[before[i]] == pool[before[i]]);
            }
        }
        assert(names.last() == names[last]);
        assert((names.last() == k) == mine(pool.last())) by {
            if mine(pool.last()) {
                assert(names[last] =~= k);
            }
        }
        if names.last() == k {
            assert(instances_at(pool, before.push(last)) =~= instances_at(pool, before).push(
                pool[last],
            ));
        }
    }
}

/// The evaluation split: cell by cell, in the order of the cells' names, the
/// first `n` instances of that task and track that the pool holds, or all if
/// there are fewer.
pub proof fn lemma_split_by_cells(pool: Seq<InstanceModel>, n: nat)
    ensures
        split_of(pool, n) == cells::cells_of(cells::pool_names(pool)).map_values(
            |k: CellName|
                {
                    let mine = pool.filter(
                        |x: InstanceModel|
                            vstd::utf8::encode_utf8(x.task) == k.task && x.track == k.track,
                    );
                    mine.take(
                        if n < mine.len() {
                            n as int
                        } else {
                            mine.len() as int
                        },
                    )
                },
        ).flatten(),
{
    lemma_split_keys(pool, cells::cells_of(cells::pool_names(pool)), n);
}

proof fn lemma_split_keys(pool: Seq<InstanceModel>, keys: Seq<CellName>, n: nat)
    ensures
        instances_at(pool, split_rows(cells::pool_names(pool), keys, n)) == keys.map_values(
            |k: CellName|
                {
                    let mine = pool.filter(
                        |x: InstanceModel|
                            vstd::utf8::encode_utf8(x.task) == k.task && x.track == k.track,
                    );
                    mine.take(
                        if n < mine.len() {
                            n as int
                        } else {
                            mine.len() as int
                        },
                    )
                },
        ).flatten(),
    decreases keys.len(),
{
    let part = |k: CellName|
        {
            let mine = pool.filter(
                |x: InstanceModel|
                    vstd::utf8::encode_utf8(x.task) == k.task && x.track == k.track,
            );
            mine.take(
                if n < mine.len() {
                    n as int
                } else {
                    mine.len() as int
                },
            )
        };
    let rows = cells::pool_names(pool);
    let all = keys.map_values(part);
    all.lemma_flatten_and_flatten_alt_are_equivalent();
    if keys.len() == 0 {
        assert(instances_at(pool, split_rows(rows, keys, n)) =~= all.flatten_alt());
    } else {
        let front = keys.drop_last();
        let k = keys.last();
        lemma_split_keys(pool, front, n);
        front.map_values(part).lemma_flatten_and_flatten_alt_are_equivalent();
        assert(all.drop_last() =~= front.map_values(part));
        assert(all.last() == part(k));
        lemma_rows_filter(pool, k);
        let at = cells::rows_in(rows, k);
        assert(instances_at(pool, first_n(at, n)) =~= part(k));
        let before = split_rows(rows, front, n);
        assert(instances_at(pool, before + first_n(at, n)) =~= instances_at(pool, before)
            + instances_at(pool, first_n(at, n)));
    }
}

/// The reversed order is the blocks' own order, read backwards.
pub proof fn lemma_reversed_order(n_blocks: nat)
    requires
        n_blocks <= usize::MAX,
    ensures
        reversed_order(n_blocks).reverse() == Seq::new(n_blocks, |i: int| i as usize),
{
    assert(reversed_order(n_blocks).reverse() =~= Seq::new(n_blocks, |i: int| i as usize));
}

} // verus!
