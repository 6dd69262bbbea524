//! Byte-instance collator: `prompt ++ target ++ EOS`, padded to a bucket edge.
//!
//! The loss mask scores target bytes + the EOS terminator only; prompt bytes
//! and pads are masked out. Greedy eval decodes until EOS.

use burn::tensor::TensorData;
use vstd::prelude::*;

use crate::data;
use crate::data::int_table;
use crate::tasks;
use crate::tasks::demo::ProtocolModel;
use crate::tasks::{Instance, InstanceModel, Track};

verus! {

/// Reserved byte id of batch padding: blocked from attention, never scored.
/// Task alphabets are printable ASCII (plus `\n` as a structural separator),
/// so reserved ids never occur in task content.
pub const PAD: u8 = 0;

/// Reserved byte id of the sequence terminator, the only scored control byte.
///
/// The split from [`PAD`] matters. Sharing one id floods inputs with pads
/// while half the supervised targets are the same id, teaching the model that
/// id 0 is likely everywhere (EOS-first greedy decode).
pub const EOS: u8 = 1;

/// Padded-length buckets. Every batch/decoded sequence is padded to a bucket
/// edge so fused-JIT shapes take only a handful of values per run: without
/// this, each unique T recompiles the whole fused graph. Lengths stay exact;
/// masks stay correct.
pub const BUCKET_EDGES: [usize; 4] = [64, 128, 256, 512];

/// The greatest length that a bucket holds.
pub const TOP_BUCKET: usize = 512;

/// The least bucket edge that holds `n`.
pub open spec fn bucket(n: nat) -> nat {
    if n <= 64 {
        64
    } else if n <= 128 {
        128
    } else if n <= 256 {
        256
    } else {
        512
    }
}

/// The least bucket edge that holds `n`.
pub fn bucket_len(n: usize) -> (r: usize)
    requires
        n <= TOP_BUCKET,
    ensures
        r == bucket(n as nat),
        n <= r,
        BUCKET_EDGES@.contains(r),
{
    let edges: [usize; 4] = BUCKET_EDGES;
    let mut i: usize = 0;
    while i < 3
        invariant
            i <= 3,
            edges@ == BUCKET_EDGES@,
            n <= TOP_BUCKET,
            forall|j: int| 0 <= j < i ==> #[trigger] BUCKET_EDGES@[j] < n,
        decreases 3 - i,
    {
        if edges[i] >= n {
            assert(BUCKET_EDGES@[i as int] == edges[i as int]);
            assert(i > 0 ==> BUCKET_EDGES@[0] < n);
            assert(i > 1 ==> BUCKET_EDGES@[1] < n);
            return edges[i];
        }
        i = i + 1;
    }
    assert(BUCKET_EDGES@[0] < n && BUCKET_EDGES@[1] < n && BUCKET_EDGES@[2] < n);
    assert(BUCKET_EDGES@[3] == edges[3]);
    edges[3]
}

/// A bucket edge is its own bucket, and longer sequences have no smaller
/// bucket.
pub proof fn lemma_bucket_canonical(n: nat, m: nat)
    requires
        n <= m,
    ensures
        bucket(bucket(n)) == bucket(n),
        bucket(n) <= bucket(m),
{
}

/// A sequence padded to `t` ids.
pub open spec fn padded(seq: Seq<u8>, t: nat) -> Seq<i64> {
    Seq::new(
        t,
        |i: int|
            if i < seq.len() {
                seq[i] as i64
            } else {
                PAD as i64
            },
    )
}

/// The scored positions of a padded row: from the prompt's end to the
/// sequence's.
pub open spec fn scored(seq: Seq<u8>, prompt_len: usize, t: nat) -> Seq<bool> {
    Seq::new(t, |i: int| prompt_len <= i < seq.len())
}

/// What sequences hold.
pub open spec fn contents(seqs: Seq<Vec<u8>>) -> Seq<Seq<u8>> {
    seqs.map_values(|s: Vec<u8>| s@)
}

/// The greatest length among `seqs`.
pub open spec fn longest(seqs: Seq<Seq<u8>>) -> nat
    decreases seqs.len(),
{
    if seqs.len() == 0 {
        0
    } else if seqs.last().len() > longest(seqs.drop_last()) {
        seqs.last().len()
    } else {
        longest(seqs.drop_last())
    }
}

/// All rows, padded, one after the other.
pub open spec fn padded_rows(seqs: Seq<Seq<u8>>, t: nat) -> Seq<i64>
    decreases seqs.len(),
{
    if seqs.len() == 0 {
        Seq::empty()
    } else {
        padded_rows(seqs.drop_last(), t) + padded(seqs.last(), t)
    }
}

/// The scored positions of all rows, one after the other.
pub open spec fn scored_rows(seqs: Seq<Seq<u8>>, prompt_lens: Seq<usize>, t: nat) -> Seq<bool>
    decreases seqs.len(),
{
    if seqs.len() == 0 {
        Seq::empty()
    } else {
        let last = seqs.len() - 1;
        scored_rows(seqs.drop_last(), prompt_lens, t) + scored(seqs.last(), prompt_lens[last], t)
    }
}

/// One padded causal-LM batch.
pub struct Collated {
    /// `[B, T]` padded with PAD.
    pub tokens: TensorData,
    /// `[B, T]` padded with PAD.
    pub targets: TensorData,
    /// `[B, T]`, row by row: whether a position is a target byte or its EOS.
    pub loss_mask: Vec<bool>,
    /// Real (unpadded) lengths for the attention pad mask.
    pub lengths: Vec<usize>,
    /// Prompt lengths: target region of row r is `[prompt_lens[r], lengths[r])`.
    pub prompt_lens: Vec<usize>,
    /// The padded length T.
    pub width: usize,
}

/// Whether `c` is the batch of `seqs`: tokens and targets both hold the padded
/// rows, the mask scores what follows each prompt up to its sequence's end,
/// and the width is the bucket of the longest sequence.
pub open spec fn is_batch_of(c: Collated, seqs: Seq<Seq<u8>>, prompt_lens: Seq<usize>) -> bool {
    let t = bucket(longest(seqs));
    &&& c.width == t
    &&& data::cells(c.tokens) == padded_rows(seqs, t)
    &&& data::dims(c.tokens) == seq![seqs.len() as usize, c.width]
    &&& data::reads_as_longs(c.tokens)
    &&& data::cells(c.targets) == padded_rows(seqs, t)
    &&& data::dims(c.targets) == seq![seqs.len() as usize, c.width]
    &&& data::reads_as_longs(c.targets)
    &&& c.loss_mask@ == scored_rows(seqs, prompt_lens, t)
    &&& c.lengths@.len() == seqs.len()
    &&& forall|r: int| 0 <= r < seqs.len() ==> #[trigger] c.lengths@[r] == seqs[r].len()
    &&& c.prompt_lens@ == prompt_lens
}

/// The greatest length among `seqs`.
fn longest_of(seqs: &Vec<Vec<u8>>) -> (r: usize)
    ensures
        r == longest(contents(seqs@)),
{
    let ghost all = contents(seqs@);
    let mut best: usize = 0;
    let mut i: usize = 0;
    while i < seqs.len()
        invariant
            i <= seqs@.len(),
            all == contents(seqs@),
            best == longest(all.take(i as int)),
        decreases seqs@.len() - i,
    {
        assert(all.take(i + 1).drop_last() =~= all.take(i as int));
        let n: usize = seqs[i].len();
        if n > best {
            best = n;
        }
        i = i + 1;
    }
    assert(all.take(i as int) =~= all);
    best
}

/// Appends one padded row to `out`.
fn push_padded(out: &mut Vec<i64>, seq: &Vec<u8>, t: usize)
    ensures
        final(out)@ == old(out)@ + padded(seq@, t as nat),
{
    let ghost start = out@;
    let mut i: usize = 0;
    while i < t
        invariant
            i <= t,
            out@ =~= start + padded(seq@, t as nat).take(i as int),
        decreases t - i,
    {
        let byte: u8 = if i < seq.len() {
            seq[i]
        } else {
            PAD
        };
        out.push(byte as i64);
        i = i + 1;
    }
    assert(padded(seq@, t as nat).take(t as int) =~= padded(seq@, t as nat));
}

/// Appends one row's scored positions to `out`.
fn push_scored(out: &mut Vec<bool>, seq: &Vec<u8>, prompt_len: usize, t: usize)
    ensures
        final(out)@ == old(out)@ + scored(seq@, prompt_len, t as nat),
{
    let ghost start = out@;
    let mut i: usize = 0;
    while i < t
        invariant
            i <= t,
            out@ =~= start + scored(seq@, prompt_len, t as nat).take(i as int),
        decreases t - i,
    {
        out.push(i >= prompt_len && i < seq.len());
        i = i + 1;
    }
    assert(scored(seq@, prompt_len, t as nat).take(t as int) =~= scored(
        seq@,
        prompt_len,
        t as nat,
    ));
}

/// All rows, padded to `t`, one after the other.
fn lay_rows(seqs: &Vec<Vec<u8>>, t: usize) -> (r: Vec<i64>)
    ensures
        r@ == padded_rows(contents(seqs@), t as nat),
{
    let ghost all = contents(seqs@);
    let mut out: Vec<i64> = Vec::new();
    let mut i: usize = 0;
    assert(all.take(0) =~= Seq::<Seq<u8>>::empty());
    while i < seqs.len()
        invariant
            i <= seqs@.len(),
            all == contents(seqs@),
            out@ == padded_rows(all.take(i as int), t as nat),
        decreases seqs@.len() - i,
    {
        assert(all.take(i + 1).drop_last() =~= all.take(i as int));
        push_padded(&mut out, &seqs[i], t);
        i = i + 1;
    }
    assert(all.take(i as int) =~= all);
    out
}

/// Padded rows fill a rectangle, row by row.
pub proof fn lemma_padded_rows(seqs: Seq<Seq<u8>>, t: nat)
    ensures
        padded_rows(seqs, t).len() == seqs.len() * t,
        forall|r: int| #![trigger seqs[r]]
            0 <= r < seqs.len() ==> padded_rows(seqs, t).subrange(r * t, r * t + t) == padded(
                seqs[r],
                t,
            ),
    decreases seqs.len(),
{
    if seqs.len() > 0 {
        let front = seqs.drop_last();
        let n = front.len();
        let all = padded_rows(seqs, t);
        let before = padded_rows(front, t);
        lemma_padded_rows(front, t);
        assert(n * t + t == (n + 1) * t) by (nonlinear_arith);
        assert forall|r: int| #![trigger seqs[r]] 0 <= r < seqs.len() implies all.subrange(
            r * t,
            r * t + t,
        ) == padded(seqs[r], t) by {
            if r < n {
                assert(0 <= r * t <= r * t + t <= n * t) by (nonlinear_arith)
                    requires
                        0 <= r < n,
                        t >= 0,
                ;
                assert(front[r] == seqs[r]);
                assert(all.subrange(r * t, r * t + t) =~= before.subrange(r * t, r * t + t));
            } else {
                assert(all.subrange(r * t, r * t + t) =~= padded(seqs[r], t));
            }
        }
    }
}

/// Collates prebuilt sequences (prompt ++ target ++ EOS each) with explicit
/// prompt lengths. [`collate`] is the Instance-based frontend.
pub fn collate_seqs(seqs: Vec<Vec<u8>>, prompt_lens: Vec<usize>) -> (r: Collated)
    requires
        seqs@.len() > 0,
        seqs@.len() == prompt_lens@.len(),
        longest(contents(seqs@)) <= TOP_BUCKET,
    ensures
        is_batch_of(r, contents(seqs@), prompt_lens@),
{
    let ghost all = contents(seqs@);
    let t: usize = bucket_len(longest_of(&seqs));
    let b: usize = seqs.len();
    let mut mask: Vec<bool> = Vec::new();
    let mut lengths: Vec<usize> = Vec::new();
    let mut i: usize = 0;
    assert(all.take(0) =~= Seq::<Seq<u8>>::empty());
    while i < b
        invariant
            i <= b == seqs@.len() == prompt_lens@.len(),
            all == contents(seqs@),
            mask@ == scored_rows(all.take(i as int), prompt_lens@, t as nat),
            lengths@.len() == i,
            forall|r: int| 0 <= r < i ==> #[trigger] lengths@[r] == all[r].len(),
        decreases b - i,
    {
        assert(all.take(i + 1).drop_last() =~= all.take(i as int));
        lengths.push(seqs[i].len());
        push_scored(&mut mask, &seqs[i], prompt_lens[i], t);
        i = i + 1;
    }
    assert(all.take(i as int) =~= all);
    let tokens: Vec<i64> = lay_rows(&seqs, t);
    let targets: Vec<i64> = lay_rows(&seqs, t);
    proof {
        lemma_padded_rows(all, t as nat);
    }
    Collated {
        tokens: int_table(tokens, b, t),
        targets: int_table(targets, b, t),
        loss_mask: mask,
        lengths,
        prompt_lens,
        width: t,
    }
}

/// The training sequence of an instance.
pub open spec fn sequence_of(x: InstanceModel) -> Seq<u8> {
    (x.prompt + x.target).push(EOS)
}

/// The training sequences of a pool.
pub open spec fn sequences(pool: Seq<Instance>) -> Seq<Seq<u8>> {
    pool.map_values(|x: Instance| sequence_of(x@))
}

/// The prompt lengths of a pool.
pub open spec fn prompt_lengths(pool: Seq<Instance>) -> Seq<usize> {
    pool.map_values(|x: Instance| x.prompt@.len() as usize)
}

/// The training sequence of an instance: prompt ++ target ++ EOS.
pub fn sequence(x: &Instance) -> (r: Vec<u8>)
    ensures
        r@ == sequence_of(x@),
{
    let mut s: Vec<u8> = Vec::new();
    let mut i: usize = 0;
    while i < x.prompt.len()
        invariant
            i <= x.prompt@.len(),
            s@ =~= x.prompt@.take(i as int),
        decreases x.prompt@.len() - i,
    {
        s.push(x.prompt[i]);
        i = i + 1;
    }
    let mut j: usize = 0;
    while j < x.target.len()
        invariant
            j <= x.target@.len(),
            s@ =~= x.prompt@ + x.target@.take(j as int),
        decreases x.target@.len() - j,
    {
        s.push(x.target[j]);
        j = j + 1;
    }
    s.push(EOS);
    assert(s@ =~= sequence_of(x@));
    s
}

/// Collates instances into one padded causal-LM batch.
pub fn collate(instances: &[Instance]) -> (r: Collated)
    requires
        instances@.len() > 0,
        longest(sequences(instances@)) <= TOP_BUCKET,
    ensures
        is_batch_of(r, sequences(instances@), prompt_lengths(instances@)),
{
    let mut seqs: Vec<Vec<u8>> = Vec::new();
    let mut prompt_lens: Vec<usize> = Vec::new();
    let mut i: usize = 0;
    while i < instances.len()
        invariant
            i <= instances@.len(),
            seqs@.len() == i,
            prompt_lens@.len() == i,
            forall|j: int| 0 <= j < i ==> (#[trigger] seqs@[j])@ == sequence_of(instances@[j]@),
            forall|j: int| 0 <= j < i ==> #[trigger] prompt_lens@[j] == instances@[j].prompt@.len(),
        decreases instances@.len() - i,
    {
        seqs.push(sequence(&instances[i]));
        prompt_lens.push(instances[i].prompt.len());
        i = i + 1;
    }
    assert(contents(seqs@) =~= sequences(instances@));
    assert(prompt_lens@ =~= prompt_lengths(instances@));
    collate_seqs(seqs, prompt_lens)
}

/// In the row of an instance, position `i` is scored exactly where the token
/// there is a byte of its target or the EOS behind it; every later token is
/// padding.
pub proof fn lemma_mask_scores_answer(x: InstanceModel, t: nat, i: int)
    requires
        sequence_of(x).len() <= t,
        x.prompt.len() <= usize::MAX,
        0 <= i < t,
    ensures
        ({
            let p = x.prompt.len() as int;
            let n = x.target.len() as int;
            let row = padded(sequence_of(x), t);
            let mask = scored(sequence_of(x), x.prompt.len() as usize, t);
            &&& mask[i] <==> p <= i <= p + n
            &&& i < p ==> row[i] == x.prompt[i] as i64
            &&& p <= i < p + n ==> row[i] == x.target[i - p] as i64
            &&& i == p + n ==> row[i] == EOS as i64
            &&& i > p + n ==> row[i] == PAD as i64
        }),
{
}

/// Reserved ids never occur in task content: in the row of an instance of a
/// built-in task, under a protocol whose separators are printable, the EOS
/// stands once, where the answer ends, and padding stands behind it alone.
pub proof fn lemma_reserved_unused(
    task: int,
    p: ProtocolModel,
    track: Track,
    s: u64,
    u: u64,
    t: nat,
    i: int,
)
    requires
        0 <= task < tasks::builtin_tasks().len(),
        p.seps.len() > 0,
        forall|j: int| 0 <= j < p.seps.len() ==> tasks::printable(#[trigger] p.seps[j]),
        0 <= i < t,
    ensures
        ({
            let family = tasks::builtin_tasks()[task];
            let m = (family.rule)(s, track).0;
            let x = tasks::demo::built(p, family.name, family.stage, track, m, u).0;
            let row = padded(sequence_of(x), t);
            &&& row[i] == EOS as i64 <==> i == sequence_of(x).len() - 1
            &&& row[i] == PAD as i64 <==> i >= sequence_of(x).len()
        }),
{
    let family = tasks::builtin_tasks()[task];
    let m = (family.rule)(s, track).0;
    let x = tasks::demo::built(p, family.name, family.stage, track, m, u).0;
    tasks::lemma_builtin_printable(task, p, track, s, u);
    if i < x.prompt.len() {
        assert(sequence_of(x)[i] == x.prompt[i]);
    } else if i < x.prompt.len() + x.target.len() {
        assert(sequence_of(x)[i] == x.target[i - x.prompt.len()]);
    }
}

/// The bucket of a length is an edge that holds it, and no smaller edge does;
/// longer sequences than any edge holds get the greatest.
pub proof fn lemma_bucket_is_least(n: nat, e: nat)
    ensures
        ({
            let edges = seq![64nat, 128, 256, 512];
            &&& edges.contains(bucket(n))
            &&& n <= 512 ==> n <= bucket(n)
            &&& edges.contains(e) && n <= e ==> bucket(n) <= e
            &&& n > 512 ==> bucket(n) == 512
        }),
{
    let edges = seq![64nat, 128, 256, 512];
    assert(edges[0] == 64 && edges[1] == 128 && edges[2] == 256 && edges[3] == 512);
}

/// The longest sequence: none is longer, and one is as long.
pub proof fn lemma_longest_is_greatest(seqs: Seq<Seq<u8>>) -> (at: int)
    ensures
        forall|i: int| 0 <= i < seqs.len() ==> (#[trigger] seqs[i]).len() <= longest(seqs),
        seqs.len() > 0 ==> 0 <= at < seqs.len() && seqs[at].len() == longest(seqs),
        seqs.len() == 0 ==> longest(seqs) == 0,
    decreases seqs.len(),
{
    if seqs.len() == 0 {
        0
    } else {
        let front = seqs.drop_last();
        let before = lemma_longest_is_greatest(front);
        assert forall|i: int| 0 <= i < seqs.len() implies (#[trigger] seqs[i]).len() <= longest(
            seqs,
        ) by {
            if i < front.len() {
                assert(front[i] == seqs[i]);
            }
        }
        if seqs.last().len() > longest(front) {
            seqs.len() - 1
        } else if front.len() > 0 {
            assert(front[before] == seqs[before]);
            before
        } else {
            assert(seqs.last() == seqs[0]);
            0
        }
    }
}

/// A padded row is the sequence and then zeros; its mask is off for the prompt,
/// on for the rest of the sequence, and off for the zeros.
pub proof fn lemma_row_parts(seq: Seq<u8>, prompt_len: usize, t: nat)
    requires
        prompt_len <= seq.len() <= t,
    ensures
        padded(seq, t) == seq.map_values(|b: u8| b as i64) + Seq::new(
            (t - seq.len()) as nat,
            |i: int| 0i64,
        ),
        scored(seq, prompt_len, t) == Seq::new(prompt_len as nat, |i: int| false) + Seq::new(
            (seq.len() - prompt_len) as nat,
            |i: int| true,
        ) + Seq::new((t - seq.len()) as nat, |i: int| false),
{
    assert(padded(seq, t) =~= seq.map_values(|b: u8| b as i64) + Seq::new(
        (t - seq.len()) as nat,
        |i: int| 0i64,
    ));
    assert(scored(seq, prompt_len, t) =~= Seq::new(prompt_len as nat, |i: int| false) + Seq::new(
        (seq.len() - prompt_len) as nat,
        |i: int| true,
    ) + Seq::new((t - seq.len()) as nat, |i: int| false));
}

/// The masks of a batch fill a rectangle: position `i` of row `r` is scored
/// exactly if it lies behind the row's prompt and within its sequence.
pub proof fn lemma_scored_rows(seqs: Seq<Seq<u8>>, prompt_lens: Seq<usize>, t: nat, r: int, i: int)
    requires
        0 <= r < seqs.len(),
        0 <= i < t,
    ensures
        scored_rows(seqs, prompt_lens, t).len() == seqs.len() * t,
        0 <= r * t + i < seqs.len() * t,
        scored_rows(seqs, prompt_lens, t)[r * t + i] <==> prompt_lens[r] <= i < seqs[r].len(),
    decreases seqs.len(),
{
    let front = seqs.drop_last();
    let n = front.len();
    lemma_scored_len(seqs, prompt_lens, t);
    lemma_scored_len(front, prompt_lens, t);
    assert(n * t + t == (n + 1) * t) by (nonlinear_arith);
    assert(0 <= r * t <= n * t) by (nonlinear_arith)
        requires
            0 <= r <= n,
            t >= 0,
    ;
    if r < n {
        lemma_scored_rows(front, prompt_lens, t, r, i);
        assert(front[r] == seqs[r]);
    } else {
        assert(scored_rows(seqs, prompt_lens, t)[r * t + i] == scored(
            seqs.last(),
            prompt_lens[r],
            t,
        )[i]);
    }
}

proof fn lemma_scored_len(seqs: Seq<Seq<u8>>, prompt_lens: Seq<usize>, t: nat)
    ensures
        scored_rows(seqs, prompt_lens, t).len() == seqs.len() * t,
    decreases seqs.len(),
{
    if seqs.len() > 0 {
        let n = seqs.drop_last().len();
        lemma_scored_len(seqs.drop_last(), prompt_lens, t);
        assert(n * t + t == (n + 1) * t) by (nonlinear_arith);
    }
}

/// The training sequences of a pool: of every instance its prompt, its target
/// and the terminator, in the pool's order, each with its prompt's length.
pub proof fn lemma_sequences(pool: Seq<Instance>, i: int)
    requires
        0 <= i < pool.len(),
        pool[i].prompt@.len() <= usize::MAX,
    ensures
        sequences(pool).len() == pool.len(),
        sequences(pool)[i] == pool[i].prompt@ + pool[i].target@ + seq![1u8],
        prompt_lengths(pool).len() == pool.len(),
        prompt_lengths(pool)[i] == pool[i].prompt@.len(),
{
    assert(sequences(pool)[i] =~= pool[i].prompt@ + pool[i].target@ + seq![1u8]);
}

/// A batch, place by place: row `r` holds its sequence and then zeros, as tokens
/// and as targets, and is scored behind its prompt as far as the sequence goes.
pub proof fn lemma_batch_cells(
    c: Collated,
    seqs: Seq<Seq<u8>>,
    prompt_lens: Seq<usize>,
    r: int,
    p: int,
)
    requires
        is_batch_of(c, seqs, prompt_lens),
        0 <= r < seqs.len(),
        0 <= p < c.width,
    ensures
        ({
            let at = r * c.width + p;
            &&& data::cells(c.tokens)[at] == (if p < seqs[r].len() {
                seqs[r][p] as i64
            } else {
                0
            })
            &&& data::cells(c.targets)[at] == data::cells(c.tokens)[at]
            &&& c.loss_mask@[at] <==> prompt_lens[r] <= p < seqs[r].len()
            &&& c.lengths@[r] == seqs[r].len()
            &&& c.prompt_lens@[r] == prompt_lens[r]
        }),
{
    let t = c.width as nat;
    lemma_padded_rows(seqs, t);
    lemma_scored_rows(seqs, prompt_lens, t, r, p);
    assert(seqs[r] == seqs[r]);
    assert(0 <= r * t && r * t + t <= seqs.len() * t) by (nonlinear_arith)
        requires
            0 <= r < seqs.len(),
    ;
    assert(padded_rows(seqs, t).subrange(r * t, r * t + t)[p] == padded(seqs[r], t)[p]);
}

} // verus!
