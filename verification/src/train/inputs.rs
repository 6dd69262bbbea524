//! What a training micro-batch reads and what it is scored by.
//!
//! Under scheduled sampling the first target inputs of every row come from the
//! model's own proposals. Targets, mask and lengths always come from the
//! unpatched truth: scoring patched positions against patched targets is
//! circular (self-agreement drives the loss to 0 regardless of correctness).

use vstd::prelude::*;

use super::patch_free_inputs;
use crate::data;
use crate::harness::batch;
use crate::harness::batch::{collate_seqs, sequence, Collated, TOP_BUCKET};
use crate::tasks::Instance;

verus! {

/// The training sequences of a micro-batch.
pub open spec fn true_sequences(micro: Seq<&Instance>) -> Seq<Seq<u8>> {
    micro.map_values(|x: &Instance| batch::sequence_of(x@))
}

/// The prompt lengths of a micro-batch.
pub open spec fn true_prompts(micro: Seq<&Instance>) -> Seq<usize> {
    micro.map_values(|x: &Instance| x.prompt@.len() as usize)
}

/// The sequences that are read: each row's first `free_k` target inputs are
/// the proposals for their positions, found in `pred` in rows of `t`.
pub open spec fn read_sequences(
    seqs: Seq<Seq<u8>>,
    prompt_lens: Seq<usize>,
    pred: Seq<i64>,
    t: nat,
    free_k: nat,
) -> Seq<Seq<u8>> {
    Seq::new(
        seqs.len(),
        |i: int|
            super::patched(
                seqs[i],
                prompt_lens[i] as nat,
                pred,
                super::flat(i, t, 0),
                free_k,
            ),
    )
}

/// Whether `c` trains `micro` on the proposals `pred`: its tokens are the
/// patched sequences; targets, mask and lengths are those of the true ones.
pub open spec fn is_step_batch(
    c: Collated,
    micro: Seq<&Instance>,
    pred: Seq<i64>,
    free_k: nat,
) -> bool {
    let seqs = true_sequences(micro);
    let prompts = true_prompts(micro);
    let t = batch::bucket(batch::longest(seqs));
    let shape = seq![micro.len() as usize, c.width];
    &&& c.width == t
    &&& data::cells(c.tokens) == batch::padded_rows(
        read_sequences(seqs, prompts, pred, t, free_k),
        t,
    )
    &&& data::dims(c.tokens) == shape
    &&& data::reads_as_longs(c.tokens)
    &&& data::cells(c.targets) == batch::padded_rows(seqs, t)
    &&& data::dims(c.targets) == shape
    &&& data::reads_as_longs(c.targets)
    &&& c.loss_mask@ == batch::scored_rows(seqs, prompts, t)
    &&& c.lengths@.len() == seqs.len()
    &&& forall|r: int| 0 <= r < seqs.len() ==> #[trigger] c.lengths@[r] == seqs[r].len()
    &&& c.prompt_lens@ == prompts
}

fn sequences_of(micro: &[&Instance]) -> (r: Vec<Vec<u8>>)
    ensures
        batch::contents(r@) == true_sequences(micro@),
{
    let mut out: Vec<Vec<u8>> = Vec::new();
    let mut i: usize = 0;
    while i < micro.len()
        invariant
            i <= micro@.len(),
            out@.len() == i,
            forall|j: int|
                0 <= j < i ==> (#[trigger] out@[j])@ == batch::sequence_of(micro@[j]@),
        decreases micro@.len() - i,
    {
        out.push(sequence(micro[i]));
        i = i + 1;
    }
    assert(batch::contents(out@) =~= true_sequences(micro@));
    out
}

fn prompts_of(micro: &[&Instance]) -> (r: Vec<usize>)
    ensures
        r@ == true_prompts(micro@),
{
    let mut out: Vec<usize> = Vec::new();
    let mut i: usize = 0;
    while i < micro.len()
        invariant
            i <= micro@.len(),
            out@ =~= true_prompts(micro@).take(i as int),
        decreases micro@.len() - i,
    {
        out.push(micro[i].prompt.len());
        i = i + 1;
    }
    assert(out@ =~= true_prompts(micro@));
    out
}

/// The truth of a micro-batch: what it is scored by, and what the proposals
/// are made from.
pub fn truth_of(micro: &[&Instance]) -> (r: Collated)
    requires
        micro@.len() > 0,
        batch::longest(true_sequences(micro@)) <= TOP_BUCKET,
    ensures
        batch::is_batch_of(r, true_sequences(micro@), true_prompts(micro@)),
{
    collate_seqs(sequences_of(micro), prompts_of(micro))
}

/// The batch that trains `micro`, its first `free_k` target inputs per row
/// taken from `pred`: one proposal per position of the padded truth, row by
/// row. With no free inputs `pred` is not looked at.
pub fn step_batch(micro: &[&Instance], pred: &[i64], free_k: usize) -> (r: Collated)
    requires
        micro@.len() > 0,
        batch::longest(true_sequences(micro@)) <= TOP_BUCKET,
        free_k > 0 ==> pred@.len() == micro@.len() * batch::bucket(
            batch::longest(true_sequences(micro@)),
        ),
    ensures
        is_step_batch(r, micro@, pred@, free_k as nat),
{
    let ghost seqs = true_sequences(micro@);
    let ghost prompts = true_prompts(micro@);
    let truth: Collated = truth_of(micro);
    let ghost t = truth.width as nat;
    let ghost read = read_sequences(seqs, prompts, pred@, t, free_k as nat);
    if free_k == 0 {
        assert(read =~= seqs) by {
            assert forall|i: int| 0 <= i < seqs.len() implies #[trigger] read[i] == seqs[i] by {
                assert(read[i] =~= seqs[i]);
            }
        }
        return truth;
    }
    let base: Vec<Vec<u8>> = sequences_of(micro);
    proof {
        lemma_proposed(base@, truth.prompt_lens@, pred@, t, free_k as nat);
    }
    let free: Vec<Vec<u8>> = patch_free_inputs(
        &base,
        &truth.prompt_lens,
        pred,
        truth.width,
        free_k,
    );
    proof {
        assert forall|i: int| 0 <= i < seqs.len() implies #[trigger] batch::contents(free@)[i]
            == read[i] by {
            assert(base@[i]@ == batch::contents(base@)[i]);
        }
        assert(batch::contents(free@) =~= read);
        lemma_same_longest(seqs, read);
    }
    let patched: Collated = collate_seqs(free, prompts_of(micro));
    Collated {
        tokens: patched.tokens,
        targets: truth.targets,
        loss_mask: truth.loss_mask,
        lengths: truth.lengths,
        prompt_lens: truth.prompt_lens,
        width: truth.width,
    }
}

proof fn lemma_longest_bounds(seqs: Seq<Seq<u8>>, i: int)
    requires
        0 <= i < seqs.len(),
    ensures
        seqs[i].len() <= batch::longest(seqs),
    decreases seqs.len(),
{
    if i < seqs.len() - 1 {
        lemma_longest_bounds(seqs.drop_last(), i);
    }
}

proof fn lemma_same_longest(a: Seq<Seq<u8>>, b: Seq<Seq<u8>>)
    requires
        a.len() == b.len(),
        forall|i: int| 0 <= i < a.len() ==> (#[trigger] a[i]).len() == b[i].len(),
    ensures
        batch::longest(a) == batch::longest(b),
    decreases a.len(),
{
    if a.len() > 0 {
        assert forall|i: int| 0 <= i < a.len() - 1 implies (#[trigger] a.drop_last()[i]).len()
            == b.drop_last()[i].len() by {
            assert(a.drop_last()[i] == a[i]);
        }
        lemma_same_longest(a.drop_last(), b.drop_last());
        assert(a[a.len() - 1].len() == b[b.len() - 1].len());
    }
}

/// A proposal per position of the padded truth covers every patched position.
proof fn lemma_proposed(
    base: Seq<Vec<u8>>,
    prompt_lens: Seq<usize>,
    pred: Seq<i64>,
    t: nat,
    free_k: nat,
)
    requires
        batch::longest(batch::contents(base)) <= t,
        pred.len() == base.len() * t,
    ensures
        super::proposes(base, prompt_lens, pred, t, free_k),
{
    assert forall|r: int, p: int|
        0 <= r < base.len() && prompt_lens[r] <= p < prompt_lens[r] + free_k && p
            < base[r]@.len() implies 0 <= #[trigger] super::flat(r, t, p) < pred.len() by {
        lemma_longest_bounds(batch::contents(base), r);
        let n = base.len() as int;
        assert(0 <= r * t + p < n * t) by (nonlinear_arith)
            requires
                0 <= r < n,
                0 <= p < t,
        ;
    }
}

/// Whatever is proposed, a micro-batch is scored alike: two batches that train
/// it agree in targets, mask and lengths, and while nothing runs free the
/// tokens are the targets.
pub proof fn lemma_scored_by_truth(
    a: Collated,
    b: Collated,
    micro: Seq<&Instance>,
    pred_a: Seq<i64>,
    free_a: nat,
    pred_b: Seq<i64>,
    free_b: nat,
)
    requires
        is_step_batch(a, micro, pred_a, free_a),
        is_step_batch(b, micro, pred_b, free_b),
    ensures
        data::cells(a.targets) == data::cells(b.targets),
        a.loss_mask@ == b.loss_mask@,
        a.lengths@ == b.lengths@,
        a.prompt_lens@ == b.prompt_lens@,
        a.width == b.width,
        free_a == 0 ==> data::cells(a.tokens) == data::cells(a.targets),
{
    assert(a.lengths@ =~= b.lengths@);
    if free_a == 0 {
        let seqs = true_sequences(micro);
        let t = batch::bucket(batch::longest(seqs));
        let read = read_sequences(seqs, true_prompts(micro), pred_a, t, 0);
        assert forall|i: int| 0 <= i < seqs.len() implies #[trigger] read[i] == seqs[i] by {
            assert(read[i] =~= seqs[i]);
        }
        assert(read =~= seqs);
    }
}

/// The greatest of `lengths`; nothing for none.
pub open spec fn greatest(lengths: Seq<usize>) -> nat
    decreases lengths.len(),
{
    if lengths.len() == 0 {
        0
    } else if lengths.last() > greatest(lengths.drop_last()) {
        lengths.last() as nat
    } else {
        greatest(lengths.drop_last())
    }
}

/// Whether no row of a batch is longer than the model takes.
pub fn batch_fits(lengths: &[usize], max_seq_len: usize) -> (r: bool)
    ensures
        r == (greatest(lengths@) <= max_seq_len),
{
    let mut t: usize = 0;
    let mut i: usize = 0;
    while i < lengths.len()
        invariant
            i <= lengths@.len(),
            t == greatest(lengths@.take(i as int)),
        decreases lengths@.len() - i,
    {
        assert(lengths@.take(i + 1).drop_last() =~= lengths@.take(i as int));
        if lengths[i] > t {
            t = lengths[i];
        }
        i = i + 1;
    }
    assert(lengths@.take(i as int) =~= lengths@);
    t <= max_seq_len
}

/// Place `r * t + p` lies in row `r` of a table with rows of `t`.
proof fn lemma_in_table(n: int, t: int, r: int, p: int)
    requires
        0 <= r < n,
        0 <= p < t,
    ensures
        0 <= r * t + p < n * t,
        r * t >= 0,
        r * t + t <= n * t,
{
    assert(0 <= r * t + p < n * t && r * t >= 0 && r * t + t <= n * t) by (nonlinear_arith)
        requires
            0 <= r < n,
            0 <= p < t,
    ;
}

/// A training batch, place by place: row `r` reads its instance's bytes, but for
/// the first `free_k` bytes of the answer, where it reads what was proposed
/// there; it is to give the instance's bytes, and is scored on the answer and
/// the terminator behind it.
pub proof fn lemma_step_batch_cells(
    c: Collated,
    micro: Seq<&Instance>,
    pred: Seq<i64>,
    free_k: nat,
    r: int,
    p: int,
)
    requires
        is_step_batch(c, micro, pred, free_k),
        0 <= r < micro.len(),
        0 <= p < c.width,
        micro[r].prompt@.len() <= usize::MAX,
    ensures
        ({
            let x = micro[r];
            let bytes = x.prompt@ + x.target@ + seq![1u8];
            let at = r * c.width + p;
            let free = x.prompt@.len() <= p < x.prompt@.len() + free_k;
            &&& data::cells(c.targets).len() == micro.len() * c.width
            &&& data::cells(c.targets)[at] == (if p < bytes.len() {
                bytes[p] as i64
            } else {
                0
            })
            &&& data::cells(c.tokens).len() == micro.len() * c.width
            &&& data::cells(c.tokens)[at] == (if p < bytes.len() && free {
                (pred[at] as u8) as i64
            } else if p < bytes.len() {
                bytes[p] as i64
            } else {
                0
            })
            &&& c.loss_mask@[at] <==> x.prompt@.len() <= p < bytes.len()
            &&& c.lengths@[r] == bytes.len()
            &&& c.prompt_lens@[r] == x.prompt@.len()
        }),
{
    let seqs = true_sequences(micro);
    let prompts = true_prompts(micro);
    let t = c.width as nat;
    let x = micro[r];
    let bytes = x.prompt@ + x.target@ + seq![1u8];
    assert(seqs[r] =~= bytes);
    let read = read_sequences(seqs, prompts, pred, t, free_k);
    lemma_in_table(micro.len() as int, t as int, r, p);
    batch::lemma_padded_rows(seqs, t);
    batch::lemma_padded_rows(read, t);
    batch::lemma_scored_rows(seqs, prompts, t, r, p);
    assert(seqs[r] == seqs[r] && read[r] == read[r]);
    assert(batch::padded_rows(seqs, t).subrange(r * t, r * t + t)[p] == batch::padded(seqs[r], t)[p]);
    assert(batch::padded_rows(read, t).subrange(r * t, r * t + t)[p] == batch::padded(read[r], t)[p]);
}

/// The truth of a micro-batch, place by place: tokens and targets are the
/// instances' bytes, and the answers and their terminators are scored.
pub proof fn lemma_truth_cells(c: Collated, micro: Seq<&Instance>, r: int, p: int)
    requires
        batch::is_batch_of(c, true_sequences(micro), true_prompts(micro)),
        0 <= r < micro.len(),
        0 <= p < c.width,
        micro[r].prompt@.len() <= usize::MAX,
    ensures
        ({
            let x = micro[r];
            let bytes = x.prompt@ + x.target@ + seq![1u8];
            let at = r * c.width + p;
            &&& data::cells(c.tokens)[at] == (if p < bytes.len() {
                bytes[p] as i64
            } else {
                0
            })
            &&& data::cells(c.targets) == data::cells(c.tokens)
            &&& c.loss_mask@[at] <==> x.prompt@.len() <= p < bytes.len()
            &&& c.lengths@[r] == bytes.len()
        }),
{
    let seqs = true_sequences(micro);
    let prompts = true_prompts(micro);
    let t = c.width as nat;
    let x = micro[r];
    assert(seqs[r] =~= x.prompt@ + x.target@ + seq![1u8]);
    lemma_in_table(micro.len() as int, t as int, r, p);
    batch::lemma_padded_rows(seqs, t);
    batch::lemma_scored_rows(seqs, prompts, t, r, p);
    assert(batch::padded_rows(seqs, t).subrange(r * t, r * t + t)[p] == batch::padded(seqs[r], t)[p]);
}

/// The greatest length: none exceeds it, and one comes up to it.
pub proof fn lemma_greatest(lengths: Seq<usize>) -> (at: int)
    ensures
        forall|i: int| 0 <= i < lengths.len() ==> #[trigger] lengths[i] <= greatest(lengths),
        lengths.len() > 0 ==> 0 <= at < lengths.len() && lengths[at] == greatest(lengths),
        lengths.len() == 0 ==> greatest(lengths) == 0,
    decreases lengths.len(),
{
    if lengths.len() == 0 {
        0
    } else {
        let front = lengths.drop_last();
        let before = lemma_greatest(front);
        assert forall|i: int| 0 <= i < lengths.len() implies #[trigger] lengths[i] <= greatest(
            lengths,
        ) by {
            if i < front.len() {
                assert(front[i] == lengths[i]);
            }
        }
        if lengths.last() > greatest(front) {
            lengths.len() - 1
        } else if front.len() > 0 {
            assert(front[before] == lengths[before]);
            before
        } else {
            assert(lengths.last() == lengths[0]);
            0
        }
    }
}

} // verus!
