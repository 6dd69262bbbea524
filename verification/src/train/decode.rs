//! Greedy evaluation: which instances decode together, what every round feeds
//! the model, and what its answers do to the rows.

use burn::tensor::TensorData;
use vstd::prelude::*;
use vstd::utf8::*;

use super::EVAL_BT_BUDGET;
use crate::data;
use crate::data::int_table;
use crate::harness::batch;
use crate::harness::batch::{bucket_len, EOS, PAD, TOP_BUCKET};
use crate::harness::metrics::Record;
use crate::tasks;
use crate::tasks::demo;
use crate::tasks::demo::shows;
use crate::tasks::{Demo, Instance};

verus! {

/// How many instances an evaluation groups before it looks at their lengths.
pub const EVAL_CHUNK: usize = 8;

/// Rows `start..end`.
#[derive(Debug, Clone, Copy, PartialEq, Eq, Structural)]
pub struct Span {
    pub start: usize,
    pub end: usize,
}

/// The smaller of two numbers.
pub open spec fn least(a: int, b: int) -> int {
    if a < b {
        a
    } else {
        b
    }
}

/// The greatest prompt length of `pool[from..to]`.
pub open spec fn longest_prompt(pool: Seq<Instance>, from: int, to: int) -> nat
    decreases to - from,
{
    if from >= to {
        0
    } else if pool[to - 1].prompt@.len() > longest_prompt(pool, from, to - 1) {
        pool[to - 1].prompt@.len()
    } else {
        longest_prompt(pool, from, to - 1)
    }
}

/// The length that the longest row of a group can come to: its prompt and
/// everything decoded, frozen at the model's limit.
pub open spec fn worst_row(
    pool: Seq<Instance>,
    from: int,
    to: int,
    max_new: nat,
    max_seq_len: nat,
) -> nat {
    let n = least((longest_prompt(pool, from, to) + max_new) as int, max_seq_len as int);
    if n < 1 {
        1
    } else {
        n as nat
    }
}

/// How many rows of a group decode together: as many as fit the budget at the
/// group's worst padded length.
pub open spec fn group_rows(
    pool: Seq<Instance>,
    from: int,
    to: int,
    max_new: nat,
    max_seq_len: nat,
) -> nat {
    let t = batch::bucket(worst_row(pool, from, to, max_new, max_seq_len));
    super::clamped(EVAL_BT_BUDGET as nat / t, 1, (to - from) as nat)
}

/// `from..to` in spans of `rows`.
pub open spec fn spans(from: int, to: int, rows: nat) -> Seq<Span>
    decreases to - from,
{
    if from >= to || rows == 0 {
        Seq::empty()
    } else {
        let next = least(from + rows, to);
        seq![Span { start: from as usize, end: next as usize }] + spans(next, to, rows)
    }
}

/// The decode plan of `pool[from..]`: groups of `chunk` instances, each in
/// spans of as many rows as fit the budget.
pub open spec fn planned(
    pool: Seq<Instance>,
    from: int,
    max_new: nat,
    chunk: nat,
    max_seq_len: nat,
) -> Seq<Span>
    decreases pool.len() - from,
{
    if from >= pool.len() || chunk == 0 {
        Seq::empty()
    } else {
        let to = least(from + chunk, pool.len() as int);
        spans(from, to, group_rows(pool, from, to, max_new, max_seq_len)) + planned(
            pool,
            to,
            max_new,
            chunk,
            max_seq_len,
        )
    }
}

/// A chunk size; at least one.
pub open spec fn chunk_of(chunk: nat) -> nat {
    if chunk < 1 {
        1
    } else {
        chunk
    }
}

/// Whether every row, decoded as far as it may, fits the top bucket.
pub open spec fn pool_fits(pool: Seq<Instance>, max_new: nat, max_seq_len: nat) -> bool {
    forall|i: int|
        0 <= i < pool.len() ==> least(
            (#[trigger] pool[i].prompt@.len() + max_new) as int,
            max_seq_len as int,
        ) <= TOP_BUCKET
}

proof fn lemma_worst_fits(pool: Seq<Instance>, from: int, to: int, max_new: nat, max_seq_len: nat)
    requires
        0 <= from < to <= pool.len(),
        pool_fits(pool, max_new, max_seq_len),
    ensures
        worst_row(pool, from, to, max_new, max_seq_len) <= TOP_BUCKET,
    decreases to - from,
{
    assert(least((pool[to - 1].prompt@.len() + max_new) as int, max_seq_len as int) <= TOP_BUCKET);
    if from < to - 1 {
        lemma_worst_fits(pool, from, to - 1, max_new, max_seq_len);
    } else {
        assert(longest_prompt(pool, from, from) == 0);
    }
}

/// Plans the decoding of `instances`: the sub-chunks are capped by B x T, not
/// row count alone. Rows can decode up to `max_seq_len` (prompt + `max_new`,
/// frozen at the cap), so the budget is taken with the padded worst case and
/// nothing is re-chunked mid-decode.
pub fn decode_plan(
    instances: &[Instance],
    max_new: usize,
    chunk: usize,
    max_seq_len: usize,
) -> (r: Vec<Span>)
    requires
        pool_fits(instances@, max_new as nat, max_seq_len as nat),
    ensures
        r@ == planned(
            instances@,
            0,
            max_new as nat,
            chunk_of(chunk as nat),
            max_seq_len as nat,
        ),
{
    let total: usize = instances.len();
    let step: usize = if chunk < 1 {
        1
    } else {
        chunk
    };
    let ghost c = chunk_of(chunk as nat);
    let ghost want = planned(instances@, 0, max_new as nat, c, max_seq_len as nat);
    let mut out: Vec<Span> = Vec::new();
    let mut from: usize = 0;
    while from < total
        invariant
            from <= total == instances@.len(),
            step == c == chunk_of(chunk as nat),
            pool_fits(instances@, max_new as nat, max_seq_len as nat),
            want == out@ + planned(
                instances@,
                from as int,
                max_new as nat,
                c,
                max_seq_len as nat,
            ),
        decreases total - from,
    {
        let to: usize = if step < total - from {
            from + step
        } else {
            total
        };
        assert(to == least(from + c, total as int));
        proof {
            lemma_worst_fits(
                instances@,
                from as int,
                to as int,
                max_new as nat,
                max_seq_len as nat,
            );
        }
        let rows: usize = rows_together(instances, from, to, max_new, max_seq_len);
        let ghost rest = planned(instances@, to as int, max_new as nat, c, max_seq_len as nat);
        let ghost done = out@;
        let ghost mine = spans(from as int, to as int, rows as nat);
        let mut at: usize = from;
        assert(done + mine =~= out@ + spans(at as int, to as int, rows as nat));
        while at < to
            invariant
                at <= to,
                rows > 0,
                done + mine == out@ + spans(at as int, to as int, rows as nat),
            decreases to - at,
        {
            let next: usize = if rows < to - at {
                at + rows
            } else {
                to
            };
            let span: Span = Span { start: at, end: next };
            proof {
                let tail = spans(next as int, to as int, rows as nat);
                assert(out@ + (seq![span] + tail) =~= out@.push(span) + tail);
            }
            out.push(span);
            at = next;
        }
        assert(out@ =~= done + mine);
        assert(done + (mine + rest) =~= out@ + rest);
        from = to;
    }
    assert(want =~= out@);
    out
}

/// How many rows of `instances[from..to]` decode together.
fn rows_together(
    instances: &[Instance],
    from: usize,
    to: usize,
    max_new: usize,
    max_seq_len: usize,
) -> (r: usize)
    requires
        from < to <= instances@.len(),
        worst_row(instances@, from as int, to as int, max_new as nat, max_seq_len as nat)
            <= TOP_BUCKET,
    ensures
        r == group_rows(instances@, from as int, to as int, max_new as nat, max_seq_len as nat),
        r >= 1,
{
    let mut longest: usize = 0;
    let mut i: usize = from;
    while i < to
        invariant
            from <= i <= to <= instances@.len(),
            longest == longest_prompt(instances@, from as int, i as int),
        decreases to - i,
    {
        let n: usize = instances[i].prompt.len();
        if n > longest {
            longest = n;
        }
        i = i + 1;
    }
    let whole: usize = if longest > usize::MAX - max_new {
        usize::MAX
    } else {
        longest + max_new
    };
    let capped: usize = if whole < max_seq_len {
        whole
    } else {
        max_seq_len
    };
    let worst: usize = if capped < 1 {
        1
    } else {
        capped
    };
    let t: usize = bucket_len(worst);
    let most: usize = EVAL_BT_BUDGET / t;
    let size: usize = to - from;
    if most < 1 {
        1
    } else if most > size {
        size
    } else {
        most
    }
}

/// Whether spans run from `from` to `to` without gap or overlap, none empty.
pub open spec fn tile(xs: Seq<Span>, from: int, to: int) -> bool
    decreases xs.len(),
{
    if xs.len() == 0 {
        from == to
    } else {
        xs[0].start == from && xs[0].start < xs[0].end && tile(
            xs.drop_first(),
            xs[0].end as int,
            to,
        )
    }
}

proof fn lemma_tile_add(a: Seq<Span>, b: Seq<Span>, from: int, mid: int, to: int)
    requires
        tile(a, from, mid),
        tile(b, mid, to),
    ensures
        tile(a + b, from, to),
    decreases a.len(),
{
    if a.len() == 0 {
        assert(a + b =~= b);
    } else {
        lemma_tile_add(a.drop_first(), b, a[0].end as int, mid, to);
        assert((a + b).drop_first() =~= a.drop_first() + b);
        assert((a + b)[0] == a[0]);
    }
}

proof fn lemma_spans_tile(from: int, to: int, rows: nat)
    requires
        0 <= from <= to <= usize::MAX,
        rows > 0,
    ensures
        tile(spans(from, to, rows), from, to),
    decreases to - from,
{
    if from < to {
        let next = least(from + rows, to);
        lemma_spans_tile(next, to, rows);
        let xs = spans(from, to, rows);
        assert(xs.drop_first() =~= spans(next, to, rows));
    }
}

/// Every instance decodes exactly once: the spans of a plan run from the first
/// instance to the last without gap or overlap.
pub proof fn lemma_plan_tiles(
    pool: Seq<Instance>,
    from: int,
    max_new: nat,
    chunk: nat,
    max_seq_len: nat,
)
    requires
        0 <= from <= pool.len() <= usize::MAX,
        chunk > 0,
    ensures
        tile(planned(pool, from, max_new, chunk, max_seq_len), from, pool.len() as int),
    decreases pool.len() - from,
{
    if from < pool.len() {
        let to = least(from + chunk, pool.len() as int);
        let rows = group_rows(pool, from, to, max_new, max_seq_len);
        lemma_spans_tile(from, to, rows);
        lemma_plan_tiles(pool, to, max_new, chunk, max_seq_len);
        lemma_tile_add(
            spans(from, to, rows),
            planned(pool, to, max_new, chunk, max_seq_len),
            from,
            to,
            pool.len() as int,
        );
    }
}

/// A group's sub-chunks stay within the decode budget at its worst padded
/// length, unless they are single rows.
pub proof fn lemma_group_budget(
    pool: Seq<Instance>,
    from: int,
    to: int,
    max_new: nat,
    max_seq_len: nat,
)
    requires
        from < to,
    ensures
        ({
            let rows = group_rows(pool, from, to, max_new, max_seq_len);
            let t = batch::bucket(worst_row(pool, from, to, max_new, max_seq_len));
            1 <= rows <= to - from && (rows * t <= EVAL_BT_BUDGET || rows == 1)
        }),
{
    let rows = group_rows(pool, from, to, max_new, max_seq_len);
    let t = batch::bucket(worst_row(pool, from, to, max_new, max_seq_len));
    assert(t == 64 || t == 128 || t == 256 || t == 512);
    let most = EVAL_BT_BUDGET as nat / t;
    if rows > 1 {
        assert(most * t <= EVAL_BT_BUDGET);
        assert(rows * t <= most * t) by (nonlinear_arith)
            requires
                rows <= most,
        ;
    }
}

/// One row of a decode: its ids so far, the bytes decoded, and whether it goes
/// on.
#[verifier::ext_equal]
pub struct RowModel {
    pub ids: Seq<i64>,
    pub out: Seq<u8>,
    pub active: bool,
}

/// A row before its first round.
pub open spec fn first_row(x: Instance) -> RowModel {
    RowModel { ids: tasks::byte_ids(x.prompt@), out: Seq::empty(), active: true }
}

/// A row at the head of a round: one that has reached the model's limit stops.
pub open spec fn row_capped(row: RowModel, max_seq_len: nat) -> RowModel {
    RowModel { active: row.active && row.ids.len() + 1 < max_seq_len, ..row }
}

/// A row after a round in which the model answered `id`: EOS stops it, any
/// other id extends it, and `max_new` decoded bytes stop it. A row that has
/// stopped stays as it is.
pub open spec fn row_after(row: RowModel, id: i64, max_new: nat) -> RowModel {
    if !row.active {
        row
    } else if id == EOS as i64 {
        RowModel { active: false, ..row }
    } else {
        RowModel {
            ids: row.ids.push(id),
            out: row.out.push(id as u8),
            active: row.out.len() + 1 < max_new,
        }
    }
}

/// A row as it is fed: a leading PAD, its ids, padding. So the logits at
/// position `len` predict the id after `len` ids.
pub open spec fn fed_row(ids: Seq<i64>, t: nat) -> Seq<i64> {
    Seq::new(
        t,
        |i: int|
            if 1 <= i <= ids.len() {
                ids[i - 1]
            } else {
                PAD as i64
            },
    )
}

/// All rows as they are fed, one after the other.
pub open spec fn fed_rows(rows: Seq<RowModel>, t: nat) -> Seq<i64>
    decreases rows.len(),
{
    if rows.len() == 0 {
        Seq::empty()
    } else {
        fed_rows(rows.drop_last(), t) + fed_row(rows.last().ids, t)
    }
}

/// The greatest fed length, the leading PAD included.
pub open spec fn longest_fed(rows: Seq<RowModel>) -> nat
    decreases rows.len(),
{
    if rows.len() == 0 {
        0
    } else if rows.last().ids.len() + 1 > longest_fed(rows.drop_last()) {
        rows.last().ids.len() + 1
    } else {
        longest_fed(rows.drop_last())
    }
}

/// Whether some row goes on.
pub open spec fn some_active(rows: Seq<RowModel>) -> bool {
    exists|i: int| 0 <= i < rows.len() && (#[trigger] rows[i]).active
}

/// Whether every row fits the top bucket.
pub open spec fn rows_fit(rows: Seq<RowModel>) -> bool {
    forall|i: int| 0 <= i < rows.len() ==> (#[trigger] rows[i]).ids.len() + 1 <= TOP_BUCKET
}

/// Whether the next round can be fed: there is none, or every row fits the top
/// bucket.
pub open spec fn can_feed(d: DecodeModel) -> bool {
    ||| d.rounds >= d.max_new
    ||| !some_active(rows_capped(d.rows, d.max_seq_len))
    ||| rows_fit(d.rows)
}

struct Row {
    ids: Vec<i64>,
    out: Vec<u8>,
    active: bool,
}

impl View for Row {
    type V = RowModel;

    closed spec fn view(&self) -> RowModel {
        RowModel { ids: self.ids@, out: self.out@, active: self.active }
    }
}

/// Batched greedy decode with per-row EOS masking. Rows decode in lockstep
/// (one fused forward per round for the whole chunk instead of one per
/// instance); finished rows freeze while the rest continue.
///
/// Per round: [`Decoder::next_input`] gives what to feed, the model answers,
/// [`Decoder::accept`] takes the answers. At the end [`Decoder::records`]
/// judges the rows. Per-row accuracy/copy are exact; steps/halt are batch
/// means (cells average them anyway).
pub struct Decoder {
    rows: Vec<Row>,
    max_new: usize,
    max_seq_len: usize,
    rounds: usize,
    passes: usize,
    steps: u128,
}

/// What a [`Decoder`] holds.
#[verifier::ext_equal]
pub struct DecodeModel {
    pub rows: Seq<RowModel>,
    pub max_new: nat,
    pub max_seq_len: nat,
    /// Rounds begun.
    pub rounds: nat,
    /// Rounds answered.
    pub passes: nat,
    /// Loop steps of all answered rounds together.
    pub steps: nat,
}

impl View for Decoder {
    type V = DecodeModel;

    closed spec fn view(&self) -> DecodeModel {
        DecodeModel {
            rows: self.rows@.map_values(|r: Row| r@),
            max_new: self.max_new as nat,
            max_seq_len: self.max_seq_len as nat,
            rounds: self.rounds as nat,
            passes: self.passes as nat,
            steps: self.steps as nat,
        }
    }
}

/// What one round feeds the model.
pub struct DecodeInput {
    /// `[rows, width]` ids.
    pub tokens: TensorData,
    /// The fed length of each row, the leading PAD included. The answer to a
    /// row is read at its last fed position.
    pub lens: Vec<usize>,
    pub width: usize,
    /// The rows whose answers are wanted, ascending.
    pub wanted: Vec<usize>,
}

/// Whether `input` feeds `rows`.
pub open spec fn feeds(input: DecodeInput, rows: Seq<RowModel>) -> bool {
    let t = batch::bucket(longest_fed(rows));
    &&& input.width == t
    &&& data::cells(input.tokens) == fed_rows(rows, t)
    &&& data::dims(input.tokens) == seq![rows.len() as usize, input.width]
    &&& data::reads_as_longs(input.tokens)
    &&& input.lens@.len() == rows.len()
    &&& forall|i: int| 0 <= i < rows.len() ==> #[trigger] input.lens@[i] == rows[i].ids.len() + 1
    &&& input.wanted@ == active_rows(rows)
}

/// The positions of the rows that go on.
pub open spec fn active_rows(rows: Seq<RowModel>) -> Seq<usize>
    decreases rows.len(),
{
    if rows.len() == 0 {
        Seq::empty()
    } else if rows.last().active {
        active_rows(rows.drop_last()).push((rows.len() - 1) as usize)
    } else {
        active_rows(rows.drop_last())
    }
}

/// All rows at the head of a round.
pub open spec fn rows_capped(rows: Seq<RowModel>, max_seq_len: nat) -> Seq<RowModel> {
    rows.map_values(|r: RowModel| row_capped(r, max_seq_len))
}

/// All rows after a round's answers.
pub open spec fn rows_after(rows: Seq<RowModel>, answers: Seq<i64>, max_new: nat) -> Seq<RowModel> {
    Seq::new(rows.len(), |i: int| row_after(rows[i], answers[i], max_new))
}

impl Decoder {
    /// The step total fits the number of answered rounds.
    pub closed spec fn inv(&self) -> bool {
        &&& self.passes <= self.rounds
        &&& self.steps <= self.passes * usize::MAX
    }

    /// A decode of `group` that writes at most `max_new` bytes per row.
    pub fn new(group: &[Instance], max_new: usize, max_seq_len: usize) -> (r: Self)
        ensures
            r.inv(),
            r@.rows == group@.map_values(|x: Instance| first_row(x)),
            r@.max_new == max_new,
            r@.max_seq_len == max_seq_len,
            r@.rounds == 0,
            r@.passes == 0,
            r@.steps == 0,
    {
        let mut rows: Vec<Row> = Vec::new();
        let mut i: usize = 0;
        while i < group.len()
            invariant
                i <= group@.len(),
                rows@.len() == i,
                forall|j: int| 0 <= j < i ==> (#[trigger] rows@[j])@ == first_row(group@[j]),
            decreases group@.len() - i,
        {
            let row = Row { ids: group[i].prompt_ids(), out: Vec::new(), active: true };
            assert(row@ =~= first_row(group@[i as int]));
            rows.push(row);
            i = i + 1;
        }
        let r = Decoder { rows, max_new, max_seq_len, rounds: 0, passes: 0, steps: 0 };
        assert(r@.rows =~= group@.map_values(|x: Instance| first_row(x)));
        r
    }

    /// Whether the next round can be fed.
    pub fn fits(&self) -> (r: bool)
        ensures
            r == can_feed(self@),
    {
        if self.rounds >= self.max_new {
            return true;
        }
        let ghost capped = rows_capped(self@.rows, self.max_seq_len as nat);
        let mut any: bool = false;
        let mut all: bool = true;
        let mut i: usize = 0;
        while i < self.rows.len()
            invariant
                i <= self.rows@.len(),
                capped == rows_capped(self@.rows, self.max_seq_len as nat),
                any == (exists|j: int| 0 <= j < i && (#[trigger] capped[j]).active),
                all == (forall|j: int|
                    0 <= j < i ==> (#[trigger] self@.rows[j]).ids.len() + 1 <= TOP_BUCKET),
            decreases self.rows@.len() - i,
        {
            assert(self@.rows[i as int] == self.rows@[i as int]@);
            let row: &Row = &self.rows[i];
            if row.active && below_limit(row.ids.len(), self.max_seq_len) {
                assert(capped[i as int].active);
                any = true;
            }
            if row.ids.len() >= TOP_BUCKET {
                all = false;
            }
            i = i + 1;
        }
        !any || all
    }

    /// Begins a round. `None` when all rounds are over or no row goes on.
    pub fn next_input(&mut self) -> (r: Option<DecodeInput>)
        requires
            old(self).inv(),
            can_feed(old(self)@),
        ensures
            final(self).inv(),
            old(self)@.rounds >= old(self)@.max_new ==> r is None && final(self)@ == old(self)@,
            old(self)@.rounds < old(self)@.max_new ==> {
                let rows = rows_capped(old(self)@.rows, old(self)@.max_seq_len);
                &&& final(self)@ == (DecodeModel {
                    rows,
                    rounds: old(self)@.rounds + 1,
                    ..old(self)@
                })
                &&& r is Some <==> some_active(rows)
                &&& r matches Some(input) ==> feeds(input, rows)
            },
    {
        if self.rounds >= self.max_new {
            return None;
        }
        self.rounds = self.rounds + 1;
        let ghost start = old(self)@.rows;
        let ghost limit = self.max_seq_len as nat;
        let ghost want = rows_capped(start, limit);
        let n: usize = self.rows.len();
        let mut any: bool = false;
        let mut capped: Vec<Row> = Vec::new();
        let mut i: usize = 0;
        while i < n
            invariant
                i <= n == self.rows@.len() == start.len(),
                self.rows@ == old(self).rows@,
                start == old(self)@.rows,
                limit == self.max_seq_len,
                want == rows_capped(start, limit),
                capped@.len() == i,
                forall|j: int| 0 <= j < i ==> (#[trigger] capped@[j])@ == want[j],
                any == (exists|j: int| 0 <= j < i && (#[trigger] want[j]).active),
            decreases n - i,
        {
            assert(start[i as int] == self.rows@[i as int]@);
            let row: &Row = &self.rows[i];
            let active: bool = row.active && below_limit(row.ids.len(), self.max_seq_len);
            let ids: Vec<i64> = row.ids.clone();
            let out: Vec<u8> = row.out.clone();
            assert(ids@ =~= row.ids@);
            assert(out@ =~= row.out@);
            let next = Row { ids, out, active };
            assert(next@ =~= want[i as int]);
            if active {
                any = true;
                assert(want[i as int].active);
            }
            capped.push(next);
            i = i + 1;
        }
        self.rows = capped;
        assert(self@.rows =~= want);
        if !any {
            return None;
        }
        assert(rows_fit(want)) by {
            assert forall|j: int| 0 <= j < want.len() implies (#[trigger] want[j]).ids.len() + 1
                <= TOP_BUCKET by {
                assert(want[j].ids == start[j].ids);
            }
        }
        Some(feed(&self.rows))
    }

    /// Ends a round: takes the model's answer to every row (that to a row
    /// which has stopped is not looked at) and the loop steps it took.
    pub fn accept(&mut self, answers: &[i64], steps_used: usize)
        requires
            old(self).inv(),
            old(self)@.passes < old(self)@.rounds,
            answers@.len() == old(self)@.rows.len(),
        ensures
            final(self).inv(),
            final(self)@ == (DecodeModel {
                rows: rows_after(old(self)@.rows, answers@, old(self)@.max_new),
                passes: old(self)@.passes + 1,
                steps: old(self)@.steps + steps_used as nat,
                ..old(self)@
            }),
    {
        let ghost start = self@.rows;
        let ghost want = rows_after(start, answers@, self.max_new as nat);
        let n: usize = self.rows.len();
        let mut next: Vec<Row> = Vec::new();
        let mut i: usize = 0;
        while i < n
            invariant
                i <= n == self.rows@.len() == start.len() == answers@.len(),
                *self == *old(self),
                start == self@.rows,
                want == rows_after(start, answers@, self.max_new as nat),
                next@.len() == i,
                forall|j: int| 0 <= j < i ==> (#[trigger] next@[j])@ == want[j],
            decreases n - i,
        {
            assert(start[i as int] == self.rows@[i as int]@);
            let row: Row = advance_row(&self.rows[i], answers[i], self.max_new);
            next.push(row);
            i = i + 1;
        }
        proof {
            let p = self.passes as int;
            let m = usize::MAX as int;
            assert(p * m + m == (p + 1) * m) by (nonlinear_arith);
            assert((p + 1) * m <= u128::MAX) by (nonlinear_arith)
                requires
                    0 <= p < m,
                    m == usize::MAX,
            ;
        }
        self.rows = next;
        self.passes = self.passes + 1;
        self.steps = self.steps + steps_used as u128;
        assert(self@.rows =~= want);
    }

    /// Mean loop steps per answered round.
    pub fn mean_steps(&self) -> (r: usize)
        requires
            self.inv(),
        ensures
            r == self@.steps / (if self@.passes < 1 {
                1nat
            } else {
                self@.passes
            }),
    {
        let n: usize = if self.passes < 1 {
            1
        } else {
            self.passes
        };
        let mean: u128 = self.steps / n as u128;
        proof {
            let s = self.steps as int;
            let d = n as int;
            let m = usize::MAX as int;
            assert(s <= d * m) by (nonlinear_arith)
                requires
                    s <= self.passes * m,
                    self.passes <= d,
                    m >= 0,
            ;
            assert(s / d <= m) by (nonlinear_arith)
                requires
                    s <= d * m,
                    d > 0,
            ;
        }
        mean as usize
    }

    /// Judges the rows against the instances they decoded, one record per row,
    /// with the halt means of the whole chunk.
    pub fn records<H: Copy>(
        &self,
        group: &[Instance],
        mean_halt: H,
        block_halt: &Vec<H>,
    ) -> (r: Vec<Record<H>>)
        requires
            self.inv(),
            group@.len() == self@.rows.len(),
        ensures
            r@.len() == group@.len(),
            forall|i: int|
                0 <= i < r@.len() ==> judged(
                    #[trigger] r@[i],
                    group@[i],
                    self@.rows[i].out,
                    self@.steps / (if self@.passes < 1 {
                        1nat
                    } else {
                        self@.passes
                    }),
                ) && r@[i].mean_halt == mean_halt && r@[i].block_halt@ == block_halt@,
    {
        let steps: usize = self.mean_steps();
        let mut out: Vec<Record<H>> = Vec::new();
        let mut i: usize = 0;
        while i < group.len()
            invariant
                i <= group@.len() == self.rows@.len(),
                out@.len() == i,
                forall|j: int|
                    0 <= j < i ==> judged(
                        #[trigger] out@[j],
                        group@[j],
                        self@.rows[j].out,
                        steps as nat,
                    ) && out@[j].mean_halt == mean_halt && out@[j].block_halt@ == block_halt@,
            decreases group@.len() - i,
        {
            assert(self@.rows[i as int] == self.rows@[i as int]@);
            let inst: &Instance = &group[i];
            let text: String = crate::text::lossy_text(&self.rows[i].out);
            let expected: String = crate::text::lossy_text(&inst.target);
            let (correct, copied) = judge(text.as_str(), expected.as_str(), &inst.info.demos);
            proof {
                let a = self.rows@[i as int].out@;
                let b = inst.target@;
                if valid_utf8(a) && valid_utf8(b) && text@ == expected@ {
                    assert(a == b);
                }
            }
            out.push(
                Record {
                    task: inst.info.task.to_string(),
                    track: inst.info.track,
                    k: inst.info.k,
                    correct,
                    copied,
                    steps_used: steps,
                    mean_halt,
                    block_halt: copy_all(block_halt),
                },
            );
            i = i + 1;
        }
        out
    }
}

/// Whether `r` judges the bytes `out` decoded for `x`: correct if they read as
/// the target does, copied if they read as some demo's whole output (a copy-rate
/// also counts parts of one). Where bytes and
/// target are valid UTF-8, correct means that they are the same bytes.
pub open spec fn judged<H>(r: Record<H>, x: Instance, out: Seq<u8>, steps: nat) -> bool {
    &&& r.task@ == x.info.task@
    &&& r.track == x.info.track
    &&& r.k == x.info.k
    &&& r.correct == (crate::text::lossy(out) == crate::text::lossy(x.target@))
    &&& valid_utf8(out) && valid_utf8(x.target@) ==> r.correct == (out == x.target@)
    &&& r.copied == demo::shown(demo::demo_texts(x.info.demos@), crate::text::lossy(out))
    &&& r.steps_used == steps
}

/// Judges a decoded text: whether it is the expected one, and whether some
/// demo shows it.
pub fn judge(text: &str, expected: &str, demos: &Vec<Demo>) -> (r: (bool, bool))
    ensures
        r.0 == (text@ == expected@),
        r.1 == demo::shown(demo::demo_texts(demos@), text@),
{
    (crate::text::same(text, expected), shows(demos, text))
}

fn copy_all<H: Copy>(xs: &Vec<H>) -> (r: Vec<H>)
    ensures
        r@ == xs@,
{
    let mut out: Vec<H> = Vec::new();
    let mut i: usize = 0;
    while i < xs.len()
        invariant
            i <= xs@.len(),
            out@ =~= xs@.take(i as int),
        decreases xs@.len() - i,
    {
        out.push(xs[i]);
        i = i + 1;
    }
    out
}

/// Whether a row of `n` ids and its leading PAD stay below the limit.
fn below_limit(n: usize, limit: usize) -> (r: bool)
    ensures
        r == (n + 1 < limit),
{
    limit > 0 && n < limit - 1
}

fn advance_row(row: &Row, id: i64, max_new: usize) -> (r: Row)
    ensures
        r@ == row_after(row@, id, max_new as nat),
{
    let mut ids: Vec<i64> = row.ids.clone();
    let mut out: Vec<u8> = row.out.clone();
    assert(ids@ =~= row.ids@);
    assert(out@ =~= row.out@);
    let mut active: bool = row.active;
    if active {
        if id == EOS as i64 {
            active = false;
        } else {
            ids.push(id);
            out.push(id as u8);
            active = out.len() < max_new;
        }
    }
    let r = Row { ids, out, active };
    assert(r@ =~= row_after(row@, id, max_new as nat));
    r
}

/// What a round feeds for `rows`.
fn feed(rows: &Vec<Row>) -> (r: DecodeInput)
    requires
        rows_fit(rows@.map_values(|x: Row| x@)),
    ensures
        feeds(r, rows@.map_values(|x: Row| x@)),
{
    let ghost all = rows@.map_values(|x: Row| x@);
    let n: usize = rows.len();
    let mut lens: Vec<usize> = Vec::new();
    let mut wanted: Vec<usize> = Vec::new();
    let mut longest: usize = 0;
    let mut i: usize = 0;
    while i < n
        invariant
            i <= n == rows@.len() == all.len(),
            all == rows@.map_values(|x: Row| x@),
            rows_fit(all),
            lens@.len() == i,
            longest <= TOP_BUCKET,
            longest == longest_fed(all.take(i as int)),
            wanted@ == active_rows(all.take(i as int)),
            forall|j: int| 0 <= j < i ==> #[trigger] lens@[j] == all[j].ids.len() + 1,
        decreases n - i,
    {
        assert(all.take(i + 1).drop_last() =~= all.take(i as int));
        assert(all[i as int] == rows@[i as int]@);
        assert(all[i as int].ids.len() + 1 <= TOP_BUCKET);
        let len: usize = rows[i].ids.len() + 1;
        lens.push(len);
        if len > longest {
            longest = len;
        }
        if rows[i].active {
            wanted.push(i);
        }
        i = i + 1;
    }
    assert(all.take(i as int) =~= all);
    let t: usize = bucket_len(longest);
    let mut flat: Vec<i64> = Vec::new();
    let mut r: usize = 0;
    assert(all.take(0) =~= Seq::<RowModel>::empty());
    while r < n
        invariant
            r <= n == rows@.len() == all.len(),
            all == rows@.map_values(|x: Row| x@),
            flat@ == fed_rows(all.take(r as int), t as nat),
        decreases n - r,
    {
        assert(all.take(r + 1).drop_last() =~= all.take(r as int));
        assert(all[r as int] == rows@[r as int]@);
        push_fed(&mut flat, &rows[r].ids, t);
        r = r + 1;
    }
    assert(all.take(r as int) =~= all);
    proof {
        lemma_fed_len(all, t as nat);
    }
    DecodeInput { tokens: int_table(flat, n, t), lens, width: t, wanted }
}

proof fn lemma_fed_len(rows: Seq<RowModel>, t: nat)
    ensures
        fed_rows(rows, t).len() == rows.len() * t,
    decreases rows.len(),
{
    if rows.len() > 0 {
        let n = rows.drop_last().len();
        lemma_fed_len(rows.drop_last(), t);
        assert(n * t + t == (n + 1) * t) by (nonlinear_arith);
    }
}

/// Appends one row as it is fed.
fn push_fed(out: &mut Vec<i64>, ids: &Vec<i64>, t: usize)
    ensures
        final(out)@ == old(out)@ + fed_row(ids@, t as nat),
{
    let ghost start = out@;
    let mut i: usize = 0;
    while i < t
        invariant
            i <= t,
            out@ =~= start + fed_row(ids@, t as nat).take(i as int),
        decreases t - i,
    {
        let id: i64 = if i >= 1 && i - 1 < ids.len() {
            ids[i - 1]
        } else {
            PAD as i64
        };
        out.push(id);
        i = i + 1;
    }
    assert(fed_row(ids@, t as nat).take(t as int) =~= fed_row(ids@, t as nat));
}

/// Whether `id`, decoded as `byte`, is no EOS: neither the id nor, where it is a
/// byte, what it is decoded as.
pub open spec fn goes_on(id: i64, byte: u8) -> bool {
    id != EOS as i64 && (0 <= id < 256 ==> byte != EOS)
}

/// Whether a row holds its prompt and what was decoded, no more decoded bytes
/// than allowed, and no EOS among them.
pub open spec fn row_keeps(row: RowModel, prompt: Seq<u8>, max_new: nat) -> bool {
    &&& row.ids.len() == prompt.len() + row.out.len()
    &&& row.ids.take(prompt.len() as int) == tasks::byte_ids(prompt)
    &&& forall|j: int|
        0 <= j < row.out.len() ==> #[trigger] row.out[j] == row.ids[prompt.len() + j] as u8
    &&& forall|j: int|
        0 <= j < row.out.len() ==> goes_on(row.ids[prompt.len() + j], #[trigger] row.out[j])
    &&& row.out.len() <= max_new
    &&& row.active ==> row.out.len() < max_new || row.out.len() == 0
}

/// Every round keeps the prompt in front of the decoded bytes, decodes no EOS
/// and no more than the row may. A row that has stopped never changes again.
pub proof fn lemma_rows_keep(row: RowModel, prompt: Seq<u8>, id: i64, max_new: nat, max_seq_len: nat)
    requires
        row_keeps(row, prompt, max_new),
        max_new > 0,
    ensures
        row_keeps(row_capped(row, max_seq_len), prompt, max_new),
        row_keeps(row_after(row, id, max_new), prompt, max_new),
        !row.active ==> row_capped(row, max_seq_len) == row && row_after(row, id, max_new) == row,
{
    let next = row_after(row, id, max_new);
    assert(next.ids.take(prompt.len() as int) =~= row.ids.take(prompt.len() as int));
    assert forall|j: int| 0 <= j < next.out.len() implies #[trigger] next.out[j] == next.ids[
        prompt.len() + j] as u8 by {
        if j < row.out.len() {
            assert(next.out[j] == row.out[j]);
        }
    }
    assert forall|j: int| 0 <= j < next.out.len() implies goes_on(
        next.ids[prompt.len() + j],
        #[trigger] next.out[j],
    ) by {
        if j < row.out.len() {
            assert(next.out[j] == row.out[j]);
        }
    }
}

/// Where the model answers bytes, what is decoded never holds the EOS byte.
pub proof fn lemma_decoded_without_eos(row: RowModel, prompt: Seq<u8>, max_new: nat, j: int)
    requires
        row_keeps(row, prompt, max_new),
        0 <= j < row.out.len(),
        0 <= row.ids[prompt.len() + j] < 256,
    ensures
        row.out[j] != EOS,
{
    assert(goes_on(row.ids[prompt.len() + j], row.out[j]));
}

/// Rows start out keeping their prompts.
pub proof fn lemma_first_row_keeps(x: Instance, max_new: nat)
    ensures
        row_keeps(first_row(x), x.prompt@, max_new),
{
    assert(first_row(x).ids.take(x.prompt@.len() as int) =~= tasks::byte_ids(x.prompt@));
}

/// A row that fits the top bucket still does after a round, if the model's
/// limit does not exceed it: only rows below the limit grow.
pub proof fn lemma_rows_stay_fit(row: RowModel, id: i64, max_new: nat, max_seq_len: nat)
    requires
        max_seq_len <= TOP_BUCKET,
        row.ids.len() + 1 <= TOP_BUCKET,
    ensures
        row_after(row_capped(row, max_seq_len), id, max_new).ids.len() + 1 <= TOP_BUCKET,
{
}

/// The longest prompt of a group: none is longer, and one is as long.
pub proof fn lemma_longest_prompt(pool: Seq<Instance>, from: int, to: int) -> (at: int)
    requires
        0 <= from < to <= pool.len(),
    ensures
        from <= at < to,
        pool[at].prompt@.len() == longest_prompt(pool, from, to),
        forall|i: int|
            from <= i < to ==> (#[trigger] pool[i]).prompt@.len() <= longest_prompt(pool, from, to),
    decreases to - from,
{
    if from == to - 1 {
        assert(longest_prompt(pool, from, from) == 0);
        from
    } else {
        let before = lemma_longest_prompt(pool, from, to - 1);
        if pool[to - 1].prompt@.len() > longest_prompt(pool, from, to - 1) {
            to - 1
        } else {
            before
        }
    }
}

/// How long a group's rows can get: as long as the longest prompt and all that
/// may be decoded, but never beyond the model's limit; and one at the least.
pub proof fn lemma_worst_row(pool: Seq<Instance>, from: int, to: int, max_new: nat, max_seq_len: nat)
    ensures
        ({
            let worst = worst_row(pool, from, to, max_new, max_seq_len);
            let whole = longest_prompt(pool, from, to) + max_new;
            &&& worst >= 1
            &&& whole <= max_seq_len && whole >= 1 ==> worst == whole
            &&& whole >= max_seq_len && max_seq_len >= 1 ==> worst == max_seq_len
            &&& whole == 0 || max_seq_len == 0 ==> worst == 1
        }),
{
}

/// A group decodes as many rows together as it can: one more would exceed the
/// group or the budget of 8192 padded positions.
pub proof fn lemma_group_rows_most(
    pool: Seq<Instance>,
    from: int,
    to: int,
    max_new: nat,
    max_seq_len: nat,
)
    requires
        from < to,
    ensures
        ({
            let rows = group_rows(pool, from, to, max_new, max_seq_len);
            let t = batch::bucket(worst_row(pool, from, to, max_new, max_seq_len));
            &&& 1 <= rows <= to - from
            &&& rows * t <= 8192
            &&& rows == to - from || (rows + 1) * t > 8192
        }),
{
    let rows = group_rows(pool, from, to, max_new, max_seq_len);
    let t = batch::bucket(worst_row(pool, from, to, max_new, max_seq_len));
    assert(t == 64 || t == 128 || t == 256 || t == 512);
    if t == 64 {
        assert(8192nat / t == 128);
    } else if t == 128 {
        assert(8192nat / t == 64);
    } else if t == 256 {
        assert(8192nat / t == 32);
    } else {
        assert(8192nat / t == 16);
    }
    let most = 8192nat / t;
    assert(most * t == 8192);
    assert(rows * t <= most * t) by (nonlinear_arith)
        requires
            rows <= most,
    ;
    assert((rows + 1) * t == rows * t + t) by (nonlinear_arith);
    if rows < to - from {
        assert(rows == most);
    }
}

/// Spans have `rows` rows each, but for the last one, which has what is left.
pub proof fn lemma_spans_full(from: int, to: int, rows: nat, i: int)
    requires
        0 <= from <= to <= usize::MAX,
        rows > 0,
        0 <= i < spans(from, to, rows).len(),
    ensures
        ({
            let x = spans(from, to, rows)[i];
            &&& x.start == from + i * rows
            &&& x.start < x.end <= to
            &&& i + 1 < spans(from, to, rows).len() ==> x.end == x.start + rows
            &&& i + 1 == spans(from, to, rows).len() ==> x.end == to && x.end - x.start <= rows
        }),
    decreases to - from,
{
    let xs = spans(from, to, rows);
    let next = least(from + rows, to);
    let rest = spans(next, to, rows);
    assert(xs =~= seq![xs[0]] + rest);
    assert(0 * rows == 0) by (nonlinear_arith);
    if i > 0 {
        lemma_spans_full(next, to, rows, i - 1);
        assert(xs[i] == rest[i - 1]);
        assert(next == from + rows);
        assert((i - 1) * rows + rows == i * rows) by (nonlinear_arith);
    } else if rest.len() > 0 {
        assert(next < to);
    } else {
        assert(next == to);
    }
}

/// A plan goes group by group: the first `chunk` instances, in spans of as many
/// rows as that group may decode together, and then the plan of the rest.
pub proof fn lemma_plan_groups(
    pool: Seq<Instance>,
    from: int,
    max_new: nat,
    chunk: nat,
    max_seq_len: nat,
)
    requires
        0 <= from < pool.len(),
        chunk > 0,
    ensures
        ({
            let to = if from + chunk < pool.len() {
                from + chunk
            } else {
                pool.len() as int
            };
            planned(pool, from, max_new, chunk, max_seq_len) == spans(
                from,
                to,
                group_rows(pool, from, to, max_new, max_seq_len),
            ) + planned(pool, to, max_new, chunk, max_seq_len)
        }),
        planned(pool, pool.len() as int, max_new, chunk, max_seq_len).len() == 0,
        chunk_of(chunk) == chunk,
        chunk_of(0) == 1,
{
}

/// A row at the head of a round goes on exactly if it did and has room for one
/// id more below the model's limit; nothing else of it changes.
pub proof fn lemma_row_capped(row: RowModel, max_seq_len: nat)
    ensures
        row_capped(row, max_seq_len).ids == row.ids,
        row_capped(row, max_seq_len).out == row.out,
        row_capped(row, max_seq_len).active <==> row.active && row.ids.len() + 2 <= max_seq_len,
{
}

/// What an answer does to a row: the terminator ends it and leaves no trace;
/// any other id is appended, as an id and as a byte, and ends it if that was the
/// last byte allowed. A row that has ended does not change.
pub proof fn lemma_row_answered(row: RowModel, id: i64, max_new: nat)
    ensures
        ({
            let next = row_after(row, id, max_new);
            &&& !row.active ==> next == row
            &&& row.active && id == 1 ==> next.ids == row.ids && next.out == row.out && !next.active
            &&& row.active && id != 1 ==> {
                &&& next.ids == row.ids + seq![id]
                &&& next.out == row.out + seq![id as u8]
                &&& next.active <==> row.out.len() + 1 < max_new
            }
        }),
{
    assert(row.ids.push(id) =~= row.ids + seq![id]);
    assert(row.out.push(id as u8) =~= row.out + seq![id as u8]);
}

/// Rounds go row by row: every row is capped, or answered, on its own.
pub proof fn lemma_rounds_by_row(
    rows: Seq<RowModel>,
    answers: Seq<i64>,
    max_new: nat,
    max_seq_len: nat,
    i: int,
)
    requires
        0 <= i < rows.len(),
    ensures
        rows_capped(rows, max_seq_len).len() == rows.len(),
        rows_capped(rows, max_seq_len)[i] == row_capped(rows[i], max_seq_len),
        rows_after(rows, answers, max_new).len() == rows.len(),
        rows_after(rows, answers, max_new)[i] == row_after(rows[i], answers[i], max_new),
{
}

/// A row as it is fed is a zero, its ids, and zeros; so the last id stands at the
/// place of its number.
pub proof fn lemma_fed_row_parts(ids: Seq<i64>, t: nat)
    requires
        ids.len() < t,
    ensures
        fed_row(ids, t) == seq![0i64] + ids + Seq::new((t - ids.len() - 1) as nat, |i: int| 0i64),
        ids.len() > 0 ==> fed_row(ids, t)[ids.len() as int] == ids.last(),
{
    assert(fed_row(ids, t) =~= seq![0i64] + ids + Seq::new(
        (t - ids.len() - 1) as nat,
        |i: int| 0i64,
    ));
}

/// The fed rows fill a rectangle, row by row.
pub proof fn lemma_fed_rows(rows: Seq<RowModel>, t: nat, r: int, p: int)
    requires
        0 <= r < rows.len(),
        0 <= p < t,
    ensures
        fed_rows(rows, t).len() == rows.len() * t,
        0 <= r * t + p < rows.len() * t,
        fed_rows(rows, t)[r * t + p] == fed_row(rows[r].ids, t)[p],
    decreases rows.len(),
{
    let front = rows.drop_last();
    let n = front.len();
    lemma_fed_len(rows, t);
    lemma_fed_len(front, t);
    assert(n * t + t == (n + 1) * t) by (nonlinear_arith);
    assert(0 <= r * t <= n * t) by (nonlinear_arith)
        requires
            0 <= r <= n,
            t >= 0,
    ;
    if r < n {
        lemma_fed_rows(front, t, r, p);
        assert(front[r] == rows[r]);
    } else {
        assert(fed_rows(rows, t)[r * t + p] == fed_row(rows.last().ids, t)[p]);
    }
}

/// The longest fed row is one more than the longest row: no row is fed more, and
/// one is fed as much.
pub proof fn lemma_longest_fed(rows: Seq<RowModel>) -> (at: int)
    ensures
        forall|i: int|
            0 <= i < rows.len() ==> (#[trigger] rows[i]).ids.len() + 1 <= longest_fed(rows),
        rows.len() > 0 ==> 0 <= at < rows.len() && rows[at].ids.len() + 1 == longest_fed(rows),
    decreases rows.len(),
{
    if rows.len() == 0 {
        0
    } else {
        let front = rows.drop_last();
        let before = lemma_longest_fed(front);
        assert forall|i: int| 0 <= i < rows.len() implies (#[trigger] rows[i]).ids.len() + 1
            <= longest_fed(rows) by {
            if i < front.len() {
                assert(front[i] == rows[i]);
            }
        }
        if rows.last().ids.len() + 1 > longest_fed(front) {
            rows.len() - 1
        } else {
            assert(front.len() > 0);
            assert(front[before] == rows[before]);
            before
        }
    }
}

/// The rows that go on are listed by their places, each once, in ascending
/// order, and no others are.
pub proof fn lemma_active_rows(rows: Seq<RowModel>)
    requires
        rows.len() <= usize::MAX,
    ensures
        forall|i: usize| #[trigger]
            active_rows(rows).contains(i) <==> i < rows.len() && rows[i as int].active,
        forall|i: int, j: int|
            0 <= i < j < active_rows(rows).len() ==> #[trigger] active_rows(rows)[i]
                < #[trigger] active_rows(rows)[j],
        some_active(rows) <==> active_rows(rows).len() > 0,
    decreases rows.len(),
{
    let all = active_rows(rows);
    if rows.len() > 0 {
        let front = rows.drop_last();
        let before = active_rows(front);
        let last = (rows.len() - 1) as usize;
        lemma_active_rows(front);
        assert forall|i: usize| #[trigger] all.contains(i) <==> i < rows.len()
            && rows[i as int].active by {
            if i < front.len() {
                assert(front[i as int] == rows[i as int]);
            }
            if rows.last().active {
                assert(all[before.len() as int] == last);
                if before.contains(i) {
                    let j = choose|j: int| 0 <= j < before.len() && before[j] == i;
                    assert(all[j] == i);
                }
                if all.contains(i) && i != last {
                    let j = choose|j: int| 0 <= j < all.len() && all[j] == i;
                    assert(before[j] == i);
                    assert(before.contains(i));
                }
            } else {
                assert(all == before);
                assert(before.contains(i) ==> i < front.len());
            }
        }
        assert forall|i: int, j: int| 0 <= i < j < all.len() implies #[trigger] all[i]
            < #[trigger] all[j] by {
            assert(before[i] == all[i]);
            if j < before.len() {
                assert(before[j] == all[j]);
            } else {
                assert(before.contains(before[i]));
            }
        }
    }
    if all.len() > 0 {
        assert(all.contains(all[0]));
        assert(rows[all[0] as int].active);
    }
    if some_active(rows) {
        let i = choose|i: int| 0 <= i < rows.len() && (#[trigger] rows[i]).active;
        assert(all.contains(i as usize));
    }
}

/// What a round feeds, place by place: every row's ids behind a zero, padded
/// with zeros to a common width that holds them all; and which answers are
/// looked at.
pub proof fn lemma_feed_cells(input: DecodeInput, rows: Seq<RowModel>, r: int, p: int)
    requires
        feeds(input, rows),
        rows_fit(rows),
        0 <= r < rows.len(),
        0 <= p < input.width,
    ensures
        data::cells(input.tokens)[r * input.width + p] == (if 1 <= p <= rows[r].ids.len() {
            rows[r].ids[p - 1]
        } else {
            0
        }),
        input.lens@[r] == rows[r].ids.len() + 1,
        input.lens@[r] <= input.width,
        rows.len() <= usize::MAX ==> (input.wanted@.contains(r as usize) <==> rows[r].active),
{
    let t = input.width as nat;
    let at = lemma_longest_fed(rows);
    assert(rows[at].ids.len() + 1 <= TOP_BUCKET);
    batch::lemma_bucket_is_least(longest_fed(rows), t);
    lemma_fed_rows(rows, t, r, p);
    if rows.len() <= usize::MAX {
        lemma_active_rows(rows);
        assert(input.wanted@.contains(r as usize) <==> (r as usize) < rows.len()
            && rows[(r as usize) as int].active);
    }
}

/// What a verdict says: it is of the instance's task, track and number of demos;
/// correct where the decoded text is the expected one, and then the decoded
/// bytes are the target if both are text; copied where some demo's output is the
/// decoded text as a whole.
pub proof fn lemma_verdict<H>(r: Record<H>, x: Instance, out: Seq<u8>, steps: nat)
    requires
        judged(r, x, out, steps),
    ensures
        r.task@ == x.info.task@ && r.track == x.info.track && r.k == x.info.k,
        r.steps_used == steps,
        r.correct <==> crate::text::lossy(out) == crate::text::lossy(x.target@),
        out == x.target@ ==> r.correct,
        valid_utf8(out) && valid_utf8(x.target@) && r.correct ==> out == x.target@,
        r.copied <==> exists|i: int|
            0 <= i < x.info.demos@.len() && (#[trigger] x.info.demos@[i]).output@
                == crate::text::lossy(out),
{
    let texts = demo::demo_texts(x.info.demos@);
    let text = crate::text::lossy(out);
    if r.copied {
        let i = choose|i: int| 0 <= i < texts.len() && (#[trigger] texts[i]).output == text;
        assert(x.info.demos@[i].output@ == text);
    }
    if exists|i: int|
        0 <= i < x.info.demos@.len() && (#[trigger] x.info.demos@[i]).output@ == text {
        let i = choose|i: int|
            0 <= i < x.info.demos@.len() && (#[trigger] x.info.demos@[i]).output@ == text;
        assert(texts[i].output == text);
    }
}

/// When the next round can be fed: when there is none left to run, or no row has
/// room to go on, or else when every row fits 512 places with its leading zero.
pub proof fn lemma_can_feed(d: DecodeModel)
    ensures
        d.rounds >= d.max_new ==> can_feed(d),
        d.rounds < d.max_new && (exists|i: int|
            0 <= i < d.rows.len() && (#[trigger] d.rows[i]).active && d.rows[i].ids.len() + 2
                <= d.max_seq_len) ==> (can_feed(d) <==> forall|i: int|
            0 <= i < d.rows.len() ==> (#[trigger] d.rows[i]).ids.len() < 512),
        (forall|i: int|
            0 <= i < d.rows.len() ==> !(#[trigger] d.rows[i]).active || d.rows[i].ids.len() + 2
                > d.max_seq_len) ==> can_feed(d),
{
    let capped = rows_capped(d.rows, d.max_seq_len);
    if exists|i: int|
        0 <= i < d.rows.len() && (#[trigger] d.rows[i]).active && d.rows[i].ids.len() + 2
            <= d.max_seq_len {
        let i = choose|i: int|
            0 <= i < d.rows.len() && (#[trigger] d.rows[i]).active && d.rows[i].ids.len() + 2
                <= d.max_seq_len;
        assert(capped[i].active);
    }
    if some_active(capped) {
        let i = choose|i: int| 0 <= i < capped.len() && (#[trigger] capped[i]).active;
        assert(d.rows[i].active && d.rows[i].ids.len() + 2 <= d.max_seq_len);
    }
    if rows_fit(d.rows) {
        assert forall|i: int| 0 <= i < d.rows.len() implies (#[trigger] d.rows[i]).ids.len() < 512 by {
            assert(d.rows[i].ids.len() + 1 <= TOP_BUCKET);
        }
    }
}

} // verus!
