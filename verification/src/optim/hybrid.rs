//! Routing gradients by parameter id.
//!
//! Optimizer adaptors skip parameters with no gradient, so each adaptor steps
//! only its own partition:
//! 1. [`split_grads`] partitions by the model's explicit id sets (dimension
//!    alone is insufficient: the embedding is also 2D but must use AdamW);
//! 2. [`precondition_grads`] orders the Newton-Muon right-preconditioner over
//!    the Muon partition before the Muon step.

use vstd::prelude::*;

use super::newton_muon::PrecondInput;
use crate::model::params;
use crate::model::params::GradSpec;

verus! {

/// Whether `ids` ascend strictly.
pub open spec fn ascends(ids: Seq<u64>) -> bool {
    forall|i: int, j: int| 0 <= i < j < ids.len() ==> #[trigger] ids[i] < #[trigger] ids[j]
}

/// `ids` with `x` put in its place, unless it is there.
pub open spec fn with_id(ids: Seq<u64>, x: u64) -> Seq<u64>
    decreases ids.len(),
{
    if ids.len() == 0 {
        seq![x]
    } else if ids[0] < x {
        seq![ids[0]] + with_id(ids.drop_first(), x)
    } else if ids[0] == x {
        ids
    } else {
        seq![x] + ids
    }
}

/// The distinct ids among `ids`, ascending.
pub open spec fn id_set(ids: Seq<u64>) -> Seq<u64>
    decreases ids.len(),
{
    if ids.len() == 0 {
        ids
    } else {
        with_id(id_set(ids.drop_last()), ids.last())
    }
}

proof fn lemma_with_id(ids: Seq<u64>, x: u64)
    requires
        ascends(ids),
    ensures
        ascends(with_id(ids, x)),
        forall|y: u64| #[trigger] with_id(ids, x).contains(y) <==> y == x || ids.contains(y),
    decreases ids.len(),
{
    let out = with_id(ids, x);
    if ids.len() == 0 {
        assert(out[0] == x);
    } else if ids[0] < x {
        let rest = ids.drop_first();
        assert(ascends(rest)) by {
            assert forall|i: int, j: int| 0 <= i < j < rest.len() implies #[trigger] rest[i]
                < #[trigger] rest[j] by {
                assert(rest[i] == ids[i + 1] && rest[j] == ids[j + 1]);
            }
        }
        lemma_with_id(rest, x);
        let tail = with_id(rest, x);
        assert(out[0] == ids[0]);
        assert forall|j: int| 0 < j < out.len() implies out[j] == tail[j - 1] by {}
        assert forall|y: u64| #[trigger] out.contains(y) <==> y == x || ids.contains(y) by {
            if out.contains(y) {
                let i = choose|i: int| 0 <= i < out.len() && out[i] == y;
                if i > 0 {
                    assert(tail[i - 1] == y);
                    assert(tail.contains(y));
                    if rest.contains(y) {
                        let n = choose|n: int| 0 <= n < rest.len() && rest[n] == y;
                        assert(ids[n + 1] == y);
                    }
                } else {
                    assert(ids[0] == y);
                }
            }
            if ids.contains(y) || y == x {
                if y == ids[0] {
                    assert(out[0] == y);
                } else {
                    if ids.contains(y) {
                        let n = choose|n: int| 0 <= n < ids.len() && ids[n] == y;
                        assert(rest[n - 1] == y);
                    }
                    assert(tail.contains(y));
                    let i = choose|i: int| 0 <= i < tail.len() && tail[i] == y;
                    assert(out[i + 1] == y);
                }
            }
        }
        assert forall|i: int, j: int| 0 <= i < j < out.len() implies #[trigger] out[i]
            < #[trigger] out[j] by {
            assert(out[j] == tail[j - 1]);
            if i > 0 {
                assert(out[i] == tail[i - 1]);
            } else {
                assert(tail.contains(out[j]));
                if out[j] != x {
                    let n = choose|n: int| 0 <= n < rest.len() && rest[n] == out[j];
                    assert(ids[n + 1] == out[j]);
                }
            }
        }
    } else if ids[0] == x {
        assert(ids.contains(x));
    } else {
        assert(out[0] == x);
        assert forall|j: int| 0 < j < out.len() implies out[j] == ids[j - 1] by {}
        assert forall|i: int, j: int| 0 <= i < j < out.len() implies #[trigger] out[i]
            < #[trigger] out[j] by {
            assert(out[j] == ids[j - 1]);
            if i > 0 {
                assert(out[i] == ids[i - 1]);
            } else if j > 1 {
                assert(ids[0] < ids[j - 1]);
            }
        }
        assert forall|y: u64| #[trigger] out.contains(y) <==> y == x || ids.contains(y) by {
            if ids.contains(y) {
                let n = choose|n: int| 0 <= n < ids.len() && ids[n] == y;
                assert(out[n + 1] == y);
            }
            if out.contains(y) {
                let i = choose|i: int| 0 <= i < out.len() && out[i] == y;
                if i > 0 {
                    assert(ids[i - 1] == y);
                }
            }
        }
    }
}

/// The distinct ids ascend strictly and are exactly those given.
pub proof fn lemma_id_set(ids: Seq<u64>)
    ensures
        ascends(id_set(ids)),
        forall|x: u64| #[trigger] id_set(ids).contains(x) <==> ids.contains(x),
    decreases ids.len(),
{
    if ids.len() > 0 {
        let front = ids.drop_last();
        lemma_id_set(front);
        lemma_with_id(id_set(front), ids.last());
        assert forall|x: u64| #[trigger] id_set(ids).contains(x) <==> ids.contains(x) by {
            if ids.contains(x) && x != ids.last() {
                let i = choose|i: int| 0 <= i < ids.len() && ids[i] == x;
                assert(front[i] == x);
            }
            if front.contains(x) {
                let i = choose|i: int| 0 <= i < front.len() && front[i] == x;
                assert(ids[i] == x);
            }
            if x == ids.last() {
                assert(ids[ids.len() - 1] == x);
            }
        }
    }
}

/// Those of `ids` that are among `others`, or those that are not.
pub open spec fn kept_ids(ids: Seq<u64>, others: Seq<u64>, among: bool) -> Seq<u64>
    decreases ids.len(),
{
    if ids.len() == 0 {
        ids
    } else if others.contains(ids.last()) == among {
        kept_ids(ids.drop_last(), others, among).push(ids.last())
    } else {
        kept_ids(ids.drop_last(), others, among)
    }
}

proof fn lemma_kept_ids(ids: Seq<u64>, others: Seq<u64>, among: bool)
    ensures
        forall|x: u64| #[trigger]
            kept_ids(ids, others, among).contains(x) <==> ids.contains(x) && others.contains(x)
                == among,
    decreases ids.len(),
{
    if ids.len() > 0 {
        let front = ids.drop_last();
        let before = kept_ids(front, others, among);
        let all = kept_ids(ids, others, among);
        lemma_kept_ids(front, others, among);
        assert forall|x: u64| #[trigger] all.contains(x) <==> ids.contains(x) && others.contains(x)
            == among by {
            if ids.contains(x) && x != ids.last() {
                let i = choose|i: int| 0 <= i < ids.len() && ids[i] == x;
                assert(front[i] == x);
            }
            if front.contains(x) {
                let i = choose|i: int| 0 <= i < front.len() && front[i] == x;
                assert(ids[i] == x);
            }
            if x == ids.last() {
                assert(ids[ids.len() - 1] == x);
            }
            if all.contains(x) {
                let i = choose|i: int| 0 <= i < all.len() && all[i] == x;
                if i < before.len() {
                    assert(before[i] == x);
                }
            }
            if before.contains(x) {
                let i = choose|i: int| 0 <= i < before.len() && before[i] == x;
                assert(all[i] == x);
            }
            if others.contains(x) == among && x == ids.last() {
                assert(all[all.len() - 1] == x);
            }
        }
    }
}

fn has(ids: &[u64], x: u64) -> (r: bool)
    ensures
        r == ids@.contains(x),
{
    let mut i: usize = 0;
    while i < ids.len()
        invariant
            i <= ids@.len(),
            forall|j: int| 0 <= j < i ==> ids@[j] != x,
        decreases ids@.len() - i,
    {
        if ids[i] == x {
            assert(ids@[i as int] == x);
            return true;
        }
        i = i + 1;
    }
    false
}

fn keep(ids: &[u64], others: &[u64], among: bool) -> (r: Vec<u64>)
    ensures
        r@ == kept_ids(ids@, others@, among),
{
    let mut out: Vec<u64> = Vec::new();
    let mut i: usize = 0;
    assert(ids@.take(0) =~= Seq::<u64>::empty());
    while i < ids.len()
        invariant
            i <= ids@.len(),
            out@ =~= kept_ids(ids@.take(i as int), others@, among),
        decreases ids@.len() - i,
    {
        assert(ids@.take(i + 1).drop_last() =~= ids@.take(i as int));
        if has(others, ids[i]) == among {
            out.push(ids[i]);
        }
        i = i + 1;
    }
    assert(ids@.take(i as int) =~= ids@);
    out
}

fn put(ids: &mut Vec<u64>, x: u64)
    ensures
        final(ids)@ == with_id(old(ids)@, x),
{
    let ghost all = ids@;
    let n: usize = ids.len();
    let mut j: usize = 0;
    assert(all.take(0) + with_id(all.skip(0), x) =~= with_id(all, x)) by {
        assert(all.skip(0) =~= all);
    }
    while j < n
        invariant
            j <= n == ids@.len(),
            ids@ == all,
            all == old(ids)@,
            with_id(all, x) == all.take(j as int) + with_id(all.skip(j as int), x),
        decreases n - j,
    {
        assert(all.skip(j as int)[0] == all[j as int]);
        if ids[j] >= x {
            if ids[j] == x {
                assert(all.take(j as int) + all.skip(j as int) =~= all);
            } else {
                ids.insert(j, x);
                assert(ids@ =~= all.take(j as int) + (seq![x] + all.skip(j as int)));
            }
            return;
        }
        proof {
            let rest = all.skip(j as int);
            assert(rest.drop_first() =~= all.skip(j + 1));
            assert(all.take(j as int) + (seq![rest[0]] + with_id(all.skip(j + 1), x)) =~= all.take(
                j + 1,
            ) + with_id(all.skip(j + 1), x));
        }
        j = j + 1;
    }
    ids.push(x);
    assert(all.skip(j as int) =~= Seq::<u64>::empty());
    assert(ids@ =~= all.take(j as int) + seq![x]);
}

/// The distinct ids among `ids`, ascending.
pub fn sorted_ids(ids: &[u64]) -> (r: Vec<u64>)
    ensures
        r@ == id_set(ids@),
{
    let mut out: Vec<u64> = Vec::new();
    let mut i: usize = 0;
    assert(ids@.take(0) =~= Seq::<u64>::empty());
    while i < ids.len()
        invariant
            i <= ids@.len(),
            out@ == id_set(ids@.take(i as int)),
        decreases ids@.len() - i,
    {
        assert(ids@.take(i + 1).drop_last() =~= ids@.take(i as int));
        put(&mut out, ids[i]);
        i = i + 1;
    }
    assert(ids@.take(i as int) =~= ids@);
    out
}

/// A partition of gradients by id.
#[derive(Debug)]
pub struct GradSplit {
    /// Moved out, in this order.
    pub moved: Vec<u64>,
    /// Left behind.
    pub rest: Vec<u64>,
}

/// Splits the gradients that are `present` into those of `muon_ids` and the
/// rest. Missing ids are skipped. The moved ids come in sorted order, so that
/// fused-kernel graphs are identical across steps (hash iteration order is
/// nondeterministic and would defeat the fusion cache).
pub fn split_grads(muon_ids: &[u64], present: &[u64]) -> (r: GradSplit)
    ensures
        r.moved@ == kept_ids(id_set(muon_ids@), present@, true),
        r.rest@ == kept_ids(present@, muon_ids@, false),
{
    let ids: Vec<u64> = sorted_ids(muon_ids);
    GradSplit { moved: keep(&ids, present, true), rest: keep(present, muon_ids, false) }
}

/// Every gradient goes to exactly one side, and the moved ones ascend.
pub proof fn lemma_split_partitions(muon_ids: Seq<u64>, present: Seq<u64>)
    ensures
        ({
            let moved = kept_ids(id_set(muon_ids), present, true);
            let rest = kept_ids(present, muon_ids, false);
            &&& forall|x: u64| #[trigger]
                moved.contains(x) <==> muon_ids.contains(x) && present.contains(x)
            &&& forall|x: u64| #[trigger]
                rest.contains(x) <==> !muon_ids.contains(x) && present.contains(x)
            &&& ascends(moved)
        }),
{
    lemma_id_set(muon_ids);
    lemma_kept_ids(id_set(muon_ids), present, true);
    lemma_kept_ids(present, muon_ids, false);
    lemma_kept_ascends(id_set(muon_ids), present, true);
}

proof fn lemma_kept_ascends(ids: Seq<u64>, others: Seq<u64>, among: bool)
    requires
        ascends(ids),
    ensures
        ascends(kept_ids(ids, others, among)),
    decreases ids.len(),
{
    if ids.len() > 0 {
        let front = ids.drop_last();
        assert(ascends(front)) by {
            assert forall|i: int, j: int| 0 <= i < j < front.len() implies #[trigger] front[i]
                < #[trigger] front[j] by {
                assert(front[i] == ids[i] && front[j] == ids[j]);
            }
        }
        lemma_kept_ascends(front, others, among);
        lemma_kept_ids(front, others, among);
        let before = kept_ids(front, others, among);
        let all = kept_ids(ids, others, among);
        assert forall|i: int, j: int| 0 <= i < j < all.len() implies #[trigger] all[i]
            < #[trigger] all[j] by {
            assert(all[i] == before[i]);
            if j < before.len() {
                assert(all[j] == before[j]);
            } else {
                assert(before.contains(before[i]));
                let n = choose|n: int| 0 <= n < front.len() && front[n] == before[i];
                assert(ids[n] < ids[ids.len() - 1]);
            }
        }
    }
}

/// The ids that have a role.
pub open spec fn role_ids(roles: Seq<(u64, PrecondInput)>) -> Seq<u64> {
    roles.map_values(|r: (u64, PrecondInput)| r.0)
}

/// The role of `id`: the last one given.
pub open spec fn role_for(roles: Seq<(u64, PrecondInput)>, id: u64) -> PrecondInput
    decreases roles.len(),
{
    if roles.len() == 0 || roles.last().0 == id {
        roles.last().1
    } else {
        role_for(roles.drop_last(), id)
    }
}

/// The order of preconditioning, and what is left without a role.
#[derive(Debug)]
pub struct PrecondPlan {
    /// Preconditioned in this order, each under its role.
    pub steps: Vec<(u64, PrecondInput)>,
    /// Without a role.
    pub leftover: Vec<u64>,
}

/// Plans the preconditioning of the gradients that are `present`, per role and
/// in sorted order. Ids without a gradient are skipped.
pub fn precondition_grads(roles: &[(u64, PrecondInput)], present: &[u64]) -> (r: PrecondPlan)
    ensures
        r.steps@.map_values(|s: (u64, PrecondInput)| s.0) == kept_ids(
            id_set(role_ids(roles@)),
            present@,
            true,
        ),
        forall|i: int|
            0 <= i < r.steps@.len() ==> (#[trigger] r.steps@[i]).1 == role_for(
                roles@,
                r.steps@[i].0,
            ),
        r.leftover@ == kept_ids(present@, role_ids(roles@), false),
{
    let mut ids: Vec<u64> = Vec::new();
    let mut i: usize = 0;
    while i < roles.len()
        invariant
            i <= roles@.len(),
            ids@ =~= role_ids(roles@).take(i as int),
        decreases roles@.len() - i,
    {
        ids.push(roles[i].0);
        i = i + 1;
    }
    assert(ids@ =~= role_ids(roles@));
    let sorted: Vec<u64> = sorted_ids(&ids);
    let order: Vec<u64> = keep(&sorted, present, true);
    proof {
        lemma_id_set(ids@);
        lemma_kept_ids(sorted@, present@, true);
    }
    let mut steps: Vec<(u64, PrecondInput)> = Vec::new();
    let mut j: usize = 0;
    while j < order.len()
        invariant
            j <= order@.len(),
            forall|x: u64| #[trigger] order@.contains(x) ==> role_ids(roles@).contains(x),
            steps@.len() == j,
            forall|k: int| 0 <= k < j ==> (#[trigger] steps@[k]).0 == order@[k],
            forall|k: int|
                0 <= k < j ==> (#[trigger] steps@[k]).1 == role_for(roles@, steps@[k].0),
        decreases order@.len() - j,
    {
        assert(order@.contains(order@[j as int]));
        let role: PrecondInput = find_role(roles, order[j]);
        steps.push((order[j], role));
        j = j + 1;
    }
    assert(steps@.map_values(|s: (u64, PrecondInput)| s.0) =~= order@);
    PrecondPlan { steps, leftover: keep(present, &ids, false) }
}

fn find_role(roles: &[(u64, PrecondInput)], id: u64) -> (r: PrecondInput)
    requires
        role_ids(roles@).contains(id),
    ensures
        r == role_for(roles@, id),
{
    let mut n: usize = roles.len();
    assert(roles@.take(n as int) =~= roles@);
    proof {
        let w = choose|w: int| 0 <= w < role_ids(roles@).len() && role_ids(roles@)[w] == id;
        assert(roles@[w].0 == id);
    }
    while n > 1 && roles[n - 1].0 != id
        invariant
            1 <= n <= roles@.len(),
            exists|w: int| 0 <= w < n && (#[trigger] roles@[w]).0 == id,
            role_for(roles@, id) == role_for(roles@.take(n as int), id),
        decreases n,
    {
        assert(roles@.take(n as int).drop_last() =~= roles@.take(n - 1));
        assert(roles@.take(n as int).last() == roles@[n - 1]);
        n = n - 1;
    }
    assert(roles@.take(n as int).last() == roles@[n - 1]);
    roles[n - 1].1
}

/// Where every Muon parameter has a role, nothing of the Muon partition is left
/// over: the precondition step covers exactly what the split moved.
pub proof fn lemma_no_leftover(
    muon_ids: Seq<u64>,
    roles: Seq<(u64, PrecondInput)>,
    present: Seq<u64>,
)
    requires
        forall|x: u64| #[trigger] muon_ids.contains(x) ==> role_ids(roles).contains(x),
    ensures
        kept_ids(
            kept_ids(id_set(muon_ids), present, true),
            role_ids(roles),
            false,
        ).len() == 0,
{
    let moved = kept_ids(id_set(muon_ids), present, true);
    let left = kept_ids(moved, role_ids(roles), false);
    lemma_split_partitions(muon_ids, present);
    lemma_kept_ids(moved, role_ids(roles), false);
    if left.len() > 0 {
        assert(left.contains(left[0]));
        assert(moved.contains(left[0]));
        assert(muon_ids.contains(left[0]));
        assert(false);
    }
}

/// How two accumulated gradients of one parameter become one.
#[derive(Debug, Clone, Copy, PartialEq, Eq, Structural)]
pub enum MergeHow {
    /// Both are there: add them.
    Sum,
    /// Only the accumulated one is there: keep it.
    KeepAcc,
    /// Only the next one is there: take it over.
    TakeNext,
}

/// One merge.
#[derive(Debug, Clone, Copy, PartialEq, Eq, Structural)]
pub struct MergeStep {
    pub id: u64,
    pub rank: usize,
    pub how: MergeHow,
}

/// The merges for `specs`, one spec after the other: what has been merged is
/// there from then on, and the next gradient of a merged parameter is used up.
pub open spec fn merge_steps(specs: Seq<GradSpec>, acc: Set<u64>, next: Set<u64>) -> Seq<MergeStep>
    decreases specs.len(),
{
    if specs.len() == 0 {
        Seq::empty()
    } else {
        let s = specs[0];
        let rest = specs.drop_first();
        if acc.contains(s.id) && next.contains(s.id) {
            seq![MergeStep { id: s.id, rank: s.rank, how: MergeHow::Sum }] + merge_steps(
                rest,
                acc,
                next.remove(s.id),
            )
        } else if acc.contains(s.id) {
            seq![MergeStep { id: s.id, rank: s.rank, how: MergeHow::KeepAcc }] + merge_steps(
                rest,
                acc,
                next,
            )
        } else if next.contains(s.id) {
            seq![MergeStep { id: s.id, rank: s.rank, how: MergeHow::TakeNext }] + merge_steps(
                rest,
                acc.insert(s.id),
                next.remove(s.id),
            )
        } else {
            merge_steps(rest, acc, next)
        }
    }
}

/// Plans the merge of `next` into `acc`, per parameter in `specs`. Gradient
/// accumulation across micro-batches: the loss is mean-reduced, so summed
/// micro-grads of 1/accum-scaled losses equal the full-batch grad.
pub fn merge_grads(specs: &[GradSpec], acc: &[u64], next: &[u64]) -> (r: Vec<MergeStep>)
    ensures
        r@ == merge_steps(specs@, acc@.to_set(), next@.to_set()),
{
    broadcast use vstd::seq_lib::group_seq_properties;

    let mut have: Vec<u64> = copy_ids(acc);
    let mut left: Vec<u64> = copy_ids(next);
    let ghost want = merge_steps(specs@, acc@.to_set(), next@.to_set());
    let mut out: Vec<MergeStep> = Vec::new();
    let mut i: usize = 0;
    assert(specs@.skip(0) =~= specs@);
    assert(want =~= out@ + merge_steps(specs@.skip(0), have@.to_set(), left@.to_set()));
    while i < specs.len()
        invariant
            i <= specs@.len(),
            want == out@ + merge_steps(
                specs@.skip(i as int),
                have@.to_set(),
                left@.to_set(),
            ),
        decreases specs@.len() - i,
    {
        let s: GradSpec = specs[i];
        let a: bool = has(&have, s.id);
        let b: bool = has(&left, s.id);
        let ghost rest = specs@.skip(i + 1);
        let ghost was = have@.to_set();
        let ghost were = left@.to_set();
        let ghost done = out@;
        assert(specs@.skip(i as int).drop_first() =~= rest);
        assert(specs@.skip(i as int)[0] == s);
        if a || b {
            let how: MergeHow = if a && b {
                MergeHow::Sum
            } else if a {
                MergeHow::KeepAcc
            } else {
                MergeHow::TakeNext
            };
            let step: MergeStep = MergeStep { id: s.id, rank: s.rank, how };
            out.push(step);
            if b {
                left = without_id(&left, s.id);
            }
            if !a {
                let ghost held = have@;
                have.push(s.id);
                assert(have@.to_set() =~= was.insert(s.id)) by {
                    lemma_push_set(held, s.id);
                }
            }
            proof {
                let tail = merge_steps(rest, have@.to_set(), left@.to_set());
                assert(done + (seq![step] + tail) =~= out@ + tail);
            }
        }
        i = i + 1;
    }
    assert(specs@.skip(i as int) =~= Seq::<GradSpec>::empty());
    assert(out@ =~= want);
    out
}

proof fn lemma_push_set(ids: Seq<u64>, x: u64)
    ensures
        ids.push(x).to_set() == ids.to_set().insert(x),
{
    assert forall|y: u64| ids.push(x).to_set().contains(y) <==> ids.to_set().insert(x).contains(
        y,
    ) by {
        if ids.contains(y) {
            let i = choose|i: int| 0 <= i < ids.len() && ids[i] == y;
            assert(ids.push(x)[i] == y);
        }
        if ids.push(x).contains(y) {
            let i = choose|i: int| 0 <= i < ids.push(x).len() && ids.push(x)[i] == y;
            if i < ids.len() {
                assert(ids[i] == y);
            }
        }
        assert(ids.push(x)[ids.len() as int] == x);
    }
    assert(ids.push(x).to_set() =~= ids.to_set().insert(x));
}

fn copy_ids(ids: &[u64]) -> (r: Vec<u64>)
    ensures
        r@ == ids@,
{
    let mut out: Vec<u64> = Vec::new();
    let mut i: usize = 0;
    while i < ids.len()
        invariant
            i <= ids@.len(),
            out@ =~= ids@.take(i as int),
        decreases ids@.len() - i,
    {
        out.push(ids[i]);
        i = i + 1;
    }
    out
}

fn without_id(ids: &Vec<u64>, x: u64) -> (r: Vec<u64>)
    ensures
        r@.to_set() == ids@.to_set().remove(x),
{
    let one: [u64; 1] = [x];
    let out: Vec<u64> = keep(ids, &one, false);
    proof {
        lemma_kept_ids(ids@, one@, false);
        assert forall|y: u64| out@.to_set().contains(y) <==> ids@.to_set().remove(x).contains(
            y,
        ) by {
            assert(out@.contains(y) <==> ids@.contains(y) && one@.contains(y) == false);
            assert(one@[0] == x);
        }
        assert(out@.to_set() =~= ids@.to_set().remove(x));
    }
    out
}

/// The parameters' roles cover the parameters routed to Muon.
pub proof fn lemma_params_have_roles(p: params::ParamIds)
    ensures
        forall|x: u64| #[trigger]
            params::muon_of(p).contains(x) ==> role_ids(params::roles_of(p)).contains(x),
{
    let ids = params::muon_of(p);
    let roles = role_ids(params::roles_of(p));
    assert forall|x: u64| #[trigger] ids.contains(x) implies roles.contains(x) by {
        let i = choose|i: int| 0 <= i < ids.len() && ids[i] == x;
        params::lemma_muon_covered(p, i);
        assert(roles[i] == x);
    }
}

/// Keeping ids keeps them in their order, and as often as they are there.
pub proof fn lemma_kept_filter(ids: Seq<u64>, others: Seq<u64>, among: bool)
    ensures
        kept_ids(ids, others, among) == ids.filter(|x: u64| others.contains(x) == among),
    decreases ids.len(),
{
    reveal(Seq::filter);
    if ids.len() > 0 {
        lemma_kept_filter(ids.drop_last(), others, among);
    }
}

/// The role of an id is the one that was given to it last.
pub proof fn lemma_role_is_last(roles: Seq<(u64, PrecondInput)>, id: u64) -> (at: int)
    requires
        role_ids(roles).contains(id),
    ensures
        0 <= at < roles.len(),
        roles[at] == (id, role_for(roles, id)),
        forall|i: int| at < i < roles.len() ==> (#[trigger] roles[i]).0 != id,
    decreases roles.len(),
{
    let w = choose|w: int| 0 <= w < role_ids(roles).len() && role_ids(roles)[w] == id;
    assert(roles[w].0 == id);
    let last = roles.len() - 1;
    if roles[last].0 == id {
        last
    } else {
        let front = roles.drop_last();
        assert(role_ids(front)[w] == id);
        let at = lemma_role_is_last(front, id);
        assert(front[at] == roles[at]);
        assert forall|i: int| at < i < roles.len() implies (#[trigger] roles[i]).0 != id by {
            if i < last {
                assert(front[i] == roles[i]);
            }
        }
        at
    }
}

/// Merging goes over the parameters in their order and skips those without a
/// gradient on either side: every other one is merged, under its own rank.
pub proof fn lemma_merge_covers(specs: Seq<GradSpec>, acc: Set<u64>, next: Set<u64>)
    ensures
        merge_steps(specs, acc, next).map_values(|m: MergeStep| (m.id, m.rank)) == specs.filter(
            |s: GradSpec| acc.contains(s.id) || next.contains(s.id),
        ).map_values(|s: GradSpec| (s.id, s.rank)),
    decreases specs.len(),
{
    let there = |s: GradSpec| acc.contains(s.id) || next.contains(s.id);
    let name = |s: GradSpec| (s.id, s.rank);
    let pair = |m: MergeStep| (m.id, m.rank);
    let steps = merge_steps(specs, acc, next);
    reveal_with_fuel(Seq::filter, 2);
    if specs.len() == 0 {
        assert(steps.map_values(pair) =~= specs.filter(there).map_values(name));
    } else {
        let s = specs[0];
        let rest = specs.drop_first();
        assert(specs =~= seq![s] + rest);
        Seq::filter_distributes_over_add(seq![s], rest, there);
        assert(seq![s].drop_last() =~= Seq::<GradSpec>::empty());
        assert(seq![s].filter(there) =~= if there(s) {
            seq![s]
        } else {
            Seq::<GradSpec>::empty()
        });
        let (held, left) = if acc.contains(s.id) && next.contains(s.id) {
            (acc, next.remove(s.id))
        } else if acc.contains(s.id) {
            (acc, next)
        } else if next.contains(s.id) {
            (acc.insert(s.id), next.remove(s.id))
        } else {
            (acc, next)
        };
        lemma_merge_covers(rest, held, left);
        assert((|s: GradSpec| held.contains(s.id) || left.contains(s.id)) =~= there);
        let tail = merge_steps(rest, held, left);
        if there(s) {
            assert(steps == seq![steps[0]] + tail);
            assert(steps.map_values(pair) =~= seq![(s.id, s.rank)] + tail.map_values(pair));
            assert(specs.filter(there).map_values(name) =~= seq![(s.id, s.rank)] + rest.filter(
                there,
            ).map_values(name));
        } else {
            assert(steps == tail);
            assert(specs.filter(there) =~= rest.filter(there));
        }
    }
}

/// How a parameter is merged, where no id is given twice: added up if both sides
/// have a gradient for it, and taken from the one that has it otherwise.
pub proof fn lemma_merge_how(specs: Seq<GradSpec>, acc: Set<u64>, next: Set<u64>, i: int)
    requires
        0 <= i < specs.len(),
        forall|a: int, b: int|
            0 <= a < b < specs.len() ==> (#[trigger] specs[a]).id != (#[trigger] specs[b]).id,
    ensures
        ({
            let (id, rank) = (specs[i].id, specs[i].rank);
            let steps = merge_steps(specs, acc, next);
            &&& acc.contains(id) && next.contains(id) ==> steps.contains(
                MergeStep { id, rank, how: MergeHow::Sum },
            )
            &&& acc.contains(id) && !next.contains(id) ==> steps.contains(
                MergeStep { id, rank, how: MergeHow::KeepAcc },
            )
            &&& !acc.contains(id) && next.contains(id) ==> steps.contains(
                MergeStep { id, rank, how: MergeHow::TakeNext },
            )
        }),
    decreases specs.len(),
{
    let s = specs[0];
    let rest = specs.drop_first();
    let steps = merge_steps(specs, acc, next);
    let (held, left) = if acc.contains(s.id) && next.contains(s.id) {
        (acc, next.remove(s.id))
    } else if acc.contains(s.id) {
        (acc, next)
    } else if next.contains(s.id) {
        (acc.insert(s.id), next.remove(s.id))
    } else {
        (acc, next)
    };
    let tail = merge_steps(rest, held, left);
    if i == 0 {
        if acc.contains(s.id) || next.contains(s.id) {
            assert(steps[0] == steps[0] && steps.len() > 0);
            assert(steps.contains(steps[0]));
        }
    } else {
        assert forall|a: int, b: int| 0 <= a < b < rest.len() implies (#[trigger] rest[a]).id != (
        #[trigger] rest[b]).id by {
            assert(rest[a] == specs[a + 1] && rest[b] == specs[b + 1]);
        }
        lemma_merge_how(rest, held, left, i - 1);
        assert(rest[i - 1] == specs[i]);
        assert(specs[0].id != specs[i].id);
        let n = steps.len() - tail.len();
        assert forall|m: MergeStep| tail.contains(m) implies steps.contains(m) by {
            let j = choose|j: int| 0 <= j < tail.len() && tail[j] == m;
            assert(steps[j + n] == m);
        }
    }
}

/// A parameter that is named again after it was merged is left as it is: what
/// the next batch had for it is used up.
pub proof fn lemma_merged_once(s: GradSpec, t: GradSpec, acc: Set<u64>, next: Set<u64>)
    requires
        s.id == t.id,
        acc.contains(s.id) || next.contains(s.id),
    ensures
        merge_steps(seq![s, t], acc, next).len() == 2,
        merge_steps(seq![s, t], acc, next)[1] == (MergeStep {
            id: t.id,
            rank: t.rank,
            how: MergeHow::KeepAcc,
        }),
{
    let specs = seq![s, t];
    let rest = specs.drop_first();
    assert(rest =~= seq![t]);
    assert(rest.drop_first() =~= Seq::<GradSpec>::empty());
    reveal_with_fuel(merge_steps, 3);
}

} // verus!
