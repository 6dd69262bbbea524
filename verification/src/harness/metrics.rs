//! Metric records + hand-rolled JSONL (no new deps).
//! New metric = one function over `&[Record]`.

use vstd::prelude::*;

use crate::tasks::Track;

verus! {

/// One evaluated instance. Logged by whoever runs the model; aggregated by
/// [`summarize`]. `H` is the type of a halt measurement.
#[derive(Debug, Clone)]
pub struct Record<H> {
    pub task: String,
    pub track: Track,
    pub k: usize,
    pub correct: bool,
    /// Model output appeared verbatim among demo outputs.
    pub copied: bool,
    pub steps_used: usize,
    pub mean_halt: H,
    /// Mean halt steps per block (where the compute happened).
    pub block_halt: Vec<H>,
}

/// The letter of a track.
pub open spec fn track_letter(track: Track) -> char {
    match track {
        Track::A => 'A',
        Track::B => 'B',
    }
}

/// `true` or `false`.
pub open spec fn truth_text(b: bool) -> Seq<char> {
    if b {
        "true"@
    } else {
        "false"@
    }
}

/// `xs` with commas between them.
pub open spec fn comma_joined(xs: Seq<String>) -> Seq<char>
    decreases xs.len(),
{
    if xs.len() == 0 {
        Seq::empty()
    } else if xs.len() == 1 {
        xs[0]@
    } else {
        comma_joined(xs.drop_last()).push(',') + xs.last()@
    }
}

/// A record whose measurements are already rendered, as one JSON object.
pub open spec fn json_text(r: Record<String>) -> Seq<char> {
    "{\"task\":\""@ + r.task@ + "\",\"track\":\""@ + seq![track_letter(r.track)] + "\",\"k\":"@
        + crate::text::digits(r.k as nat) + ",\"correct\":"@ + truth_text(r.correct)
        + ",\"copied\":"@ + truth_text(r.copied) + ",\"steps\":"@ + crate::text::digits(
        r.steps_used as nat,
    ) + ",\"halt\":"@ + r.mean_halt@ + ",\"bh\":["@ + comma_joined(r.block_halt@) + "]}"@
}

/// Appends `xs` with commas between them.
fn push_joined(out: &mut String, xs: &Vec<String>)
    ensures
        final(out)@ == old(out)@ + comma_joined(xs@),
{
    let ghost start = out@;
    let mut i: usize = 0;
    assert(xs@.take(0) =~= Seq::<String>::empty());
    while i < xs.len()
        invariant
            i <= xs@.len(),
            out@ =~= start + comma_joined(xs@.take(i as int)),
        decreases xs@.len() - i,
    {
        assert(xs@.take(i + 1).drop_last() =~= xs@.take(i as int));
        if i > 0 {
            out.push(',');
        }
        out.append(xs[i].as_str());
        i = i + 1;
    }
    assert(xs@.take(i as int) =~= xs@);
}

fn push_truth(out: &mut String, b: bool)
    ensures
        final(out)@ == old(out)@ + truth_text(b),
{
    if b {
        out.append("true");
    } else {
        out.append("false");
    }
}

impl Record<String> {
    /// The record as one JSON object.
    pub fn to_json(&self) -> (r: String)
        ensures
            r@ == json_text(*self),
    {
        let mut s: String = "{\"task\":\"".to_string();
        s.append(self.task.as_str());
        s.append("\",\"track\":\"");
        match self.track {
            Track::A => s.push('A'),
            Track::B => s.push('B'),
        }
        s.append("\",\"k\":");
        s.append(crate::text::decimal(self.k as u64).as_str());
        s.append(",\"correct\":");
        push_truth(&mut s, self.correct);
        s.append(",\"copied\":");
        push_truth(&mut s, self.copied);
        s.append(",\"steps\":");
        s.append(crate::text::decimal(self.steps_used as u64).as_str());
        s.append(",\"halt\":");
        s.append(self.mean_halt.as_str());
        s.append(",\"bh\":[");
        push_joined(&mut s, &self.block_halt);
        s.append("]}");
        assert(s@ =~= json_text(*self));
        s
    }
}

/// Which records a column is taken from.
#[derive(Debug, Clone, Copy, PartialEq, Eq, Structural)]
pub enum Part {
    All,
    Correct,
    Wrong,
}

/// Whether a record with that verdict is in the part.
pub open spec fn in_part(part: Part, correct: bool) -> bool {
    match part {
        Part::All => true,
        Part::Correct => correct,
        Part::Wrong => !correct,
    }
}

/// The measurements of block `i` over the records of a part that have one.
pub open spec fn halts_of<H>(records: Seq<Record<H>>, i: int, part: Part) -> Seq<H>
    decreases records.len(),
{
    if records.len() == 0 {
        Seq::empty()
    } else {
        let r = records.last();
        let before = halts_of(records.drop_last(), i, part);
        if in_part(part, r.correct) && i < r.block_halt@.len() {
            before.push(r.block_halt@[i])
        } else {
            before
        }
    }
}

/// The greatest number of blocks that a record measures.
pub open spec fn block_width<H>(records: Seq<Record<H>>) -> nat
    decreases records.len(),
{
    if records.len() == 0 {
        0
    } else if records.last().block_halt@.len() > block_width(records.drop_last()) {
        records.last().block_halt@.len()
    } else {
        block_width(records.drop_last())
    }
}

/// How many records are correct.
pub open spec fn correct_count<H>(records: Seq<Record<H>>) -> nat
    decreases records.len(),
{
    if records.len() == 0 {
        0
    } else {
        correct_count(records.drop_last()) + if records.last().correct {
            1nat
        } else {
            0nat
        }
    }
}

/// How many records are copies.
pub open spec fn copied_count<H>(records: Seq<Record<H>>) -> nat
    decreases records.len(),
{
    if records.len() == 0 {
        0
    } else {
        copied_count(records.drop_last()) + if records.last().copied {
            1nat
        } else {
            0nat
        }
    }
}

/// The steps of all records together.
pub open spec fn steps_total<H>(records: Seq<Record<H>>) -> nat
    decreases records.len(),
{
    if records.len() == 0 {
        0
    } else {
        steps_total(records.drop_last()) + records.last().steps_used as nat
    }
}

/// The counts and columns of some records, ready for averaging.
#[derive(Debug)]
pub struct Summary<H> {
    pub n: usize,
    pub correct: usize,
    pub copied: usize,
    pub steps: u128,
    /// One measurement per record.
    pub halts: Vec<H>,
    /// Per block: the measurements of all records that have one.
    pub block_halt: Vec<Vec<H>>,
    /// Per block, over the correct records (specialization signal: does the
    /// model spend compute differently when it gets it right?).
    pub block_halt_correct: Vec<Vec<H>>,
    /// Per block, over the wrong records.
    pub block_halt_wrong: Vec<Vec<H>>,
}

/// Whether `cols` holds the columns of a part, block by block.
pub open spec fn are_columns<H>(cols: Seq<Vec<H>>, records: Seq<Record<H>>, part: Part) -> bool {
    &&& cols.len() == block_width(records)
    &&& forall|i: int| 0 <= i < cols.len() ==> (#[trigger] cols[i])@ == halts_of(records, i, part)
}

/// One column: the measurements of block `i` over a part of the records.
pub fn halt_column<H: Copy>(records: &[Record<H>], i: usize, part: Part) -> (r: Vec<H>)
    ensures
        r@ == halts_of(records@, i as int, part),
{
    let mut out: Vec<H> = Vec::new();
    let mut j: usize = 0;
    while j < records.len()
        invariant
            j <= records@.len(),
            out@ =~= halts_of(records@.take(j as int), i as int, part),
        decreases records@.len() - j,
    {
        assert(records@.take(j + 1).drop_last() =~= records@.take(j as int));
        let wanted: bool = match part {
            Part::All => true,
            Part::Correct => records[j].correct,
            Part::Wrong => !records[j].correct,
        };
        if wanted && i < records[j].block_halt.len() {
            out.push(records[j].block_halt[i]);
        }
        j = j + 1;
    }
    assert(records@.take(j as int) =~= records@);
    out
}

fn columns<H: Copy>(records: &[Record<H>], width: usize, part: Part) -> (r: Vec<Vec<H>>)
    requires
        width == block_width(records@),
    ensures
        are_columns(r@, records@, part),
{
    let mut out: Vec<Vec<H>> = Vec::new();
    let mut i: usize = 0;
    while i < width
        invariant
            i <= width,
            out@.len() == i,
            forall|j: int| 0 <= j < i ==> (#[trigger] out@[j])@ == halts_of(records@, j, part),
        decreases width - i,
    {
        out.push(halt_column(records, i, part));
        i = i + 1;
    }
    out
}

/// Aggregates records. Filter beforehand for per-(task, track, k) slices.
pub fn summarize<H: Copy>(records: &[Record<H>]) -> (r: Summary<H>)
    ensures
        r.n == records@.len(),
        r.correct == correct_count(records@),
        r.copied == copied_count(records@),
        r.steps == steps_total(records@),
        r.halts@ == records@.map_values(|x: Record<H>| x.mean_halt),
        are_columns(r.block_halt@, records@, Part::All),
        are_columns(r.block_halt_correct@, records@, Part::Correct),
        are_columns(r.block_halt_wrong@, records@, Part::Wrong),
{
    let mut correct: usize = 0;
    let mut copied: usize = 0;
    let mut steps: u128 = 0;
    let mut width: usize = 0;
    let mut halts: Vec<H> = Vec::new();
    let total: usize = records.len();
    let mut i: usize = 0;
    while i < total
        invariant
            i <= total == records@.len(),
            correct <= i,
            copied <= i,
            steps <= i * usize::MAX,
            correct == correct_count(records@.take(i as int)),
            copied == copied_count(records@.take(i as int)),
            steps == steps_total(records@.take(i as int)),
            width == block_width(records@.take(i as int)),
            halts@ =~= records@.map_values(|x: Record<H>| x.mean_halt).take(i as int),
        decreases total - i,
    {
        assert(records@.take(i + 1).drop_last() =~= records@.take(i as int));
        if records[i].correct {
            correct = correct + 1;
        }
        if records[i].copied {
            copied = copied + 1;
        }
        let n: usize = records[i].block_halt.len();
        if n > width {
            width = n;
        }
        let more: usize = records[i].steps_used;
        assert(i * usize::MAX + usize::MAX == (i + 1) * usize::MAX) by (nonlinear_arith);
        assert((i + 1) * usize::MAX <= u128::MAX) by (nonlinear_arith)
            requires
                i < usize::MAX,
        ;
        steps = steps + more as u128;
        halts.push(records[i].mean_halt);
        i = i + 1;
    }
    assert(records@.take(i as int) =~= records@);
    Summary {
        n: total,
        correct,
        copied,
        steps,
        halts,
        block_halt: columns(records, width, Part::All),
        block_halt_correct: columns(records, width, Part::Correct),
        block_halt_wrong: columns(records, width, Part::Wrong),
    }
}

/// Whether at least `part` of `whole` of `n` sorted values are among the first
/// `count`.
pub open spec fn covers_share(count: nat, n: nat, part: nat, whole: nat) -> bool {
    count * whole >= n * part
}

/// The place of the nearest-rank quantile `part / whole` among `n` sorted
/// values: the last of the fewest values, but at least one, that are that share
/// of them. `None` if there are no values.
pub fn nearest_rank(n: usize, part: usize, whole: usize) -> (r: Option<usize>)
    requires
        part <= whole,
        whole > 0,
    ensures
        r is Some <==> n > 0,
        r matches Some(i) ==> i < n && covers_share(
            i as nat + 1,
            n as nat,
            part as nat,
            whole as nat,
        ) && (i > 0 ==> !covers_share(i as nat, n as nat, part as nat, whole as nat)),
{
    if n == 0 {
        return None;
    }
    assert(n * part <= n * whole) by (nonlinear_arith)
        requires
            part <= whole,
    ;
    assert(n * whole <= usize::MAX * usize::MAX) by (nonlinear_arith)
        requires
            n <= usize::MAX,
            whole <= usize::MAX,
    ;
    assert(usize::MAX * usize::MAX + usize::MAX <= u128::MAX) by (nonlinear_arith);
    assert(0 <= n * part) by (nonlinear_arith);
    let need: u128 = n as u128 * part as u128;
    let w: u128 = whole as u128;
    let count: u128 = need / w + if need % w == 0 {
        0
    } else {
        1
    };
    proof {
        let q = need as int / w as int;
        let rest = need as int % w as int;
        vstd::arithmetic::div_mod::lemma_fundamental_div_mod(need as int, w as int);
        assert(w * q == q * w) by (nonlinear_arith);
        assert((q + 1) * w == q * w + w) by (nonlinear_arith);
        assert((q - 1) * w == q * w - w) by (nonlinear_arith);
        if rest == 0 {
            if q > n {
                assert(q * w > n * w) by (nonlinear_arith)
                    requires
                        q > n,
                        w > 0,
                ;
            }
        } else if q >= n {
            assert(q * w >= n * w) by (nonlinear_arith)
                requires
                    q >= n,
                    w > 0,
            ;
        }
    }
    if count == 0 {
        assert(1nat * whole >= n * part);
        Some(0)
    } else {
        Some((count - 1) as usize)
    }
}

/// No more records are correct, or copies, than there are; and the correct and
/// the wrong records' measurements of a block are together as many as all of
/// them.
pub proof fn lemma_summary_counts<H>(records: Seq<Record<H>>, i: int)
    requires
        i >= 0,
    ensures
        correct_count(records) <= records.len(),
        copied_count(records) <= records.len(),
        halts_of(records, i, Part::Correct).len() + halts_of(records, i, Part::Wrong).len()
            == halts_of(records, i, Part::All).len(),
        halts_of(records, i, Part::All).len() <= records.len(),
    decreases records.len(),
{
    if records.len() > 0 {
        lemma_summary_counts(records.drop_last(), i);
    }
}

/// Append-only JSONL sink.
#[derive(Debug)]
pub struct Jsonl {
    pub lines: Vec<String>,
}

/// The lines one after the other, each ended by a line feed.
pub open spec fn jsonl_text(lines: Seq<String>) -> Seq<char>
    decreases lines.len(),
{
    if lines.len() == 0 {
        Seq::empty()
    } else {
        (jsonl_text(lines.drop_last()) + lines.last()@).push('\n')
    }
}

impl Default for Jsonl {
    /// A sink without lines.
    fn default() -> (r: Self)
        ensures
            r.lines@.len() == 0,
    {
        Jsonl { lines: Vec::new() }
    }
}

impl Jsonl {
    /// Appends a record's line.
    pub fn push(&mut self, record: &Record<String>)
        ensures
            final(self).lines@.len() == old(self).lines@.len() + 1,
            final(self).lines@.drop_last() == old(self).lines@,
            final(self).lines@.last()@ == json_text(*record),
    {
        self.lines.push(record.to_json());
        assert(self.lines@.drop_last() =~= old(self).lines@);
    }

    /// All lines.
    pub fn text(&self) -> (r: String)
        ensures
            r@ == jsonl_text(self.lines@),
    {
        let mut s: String = String::new();
        let mut i: usize = 0;
        assert(self.lines@.take(0) =~= Seq::<String>::empty());
        while i < self.lines.len()
            invariant
                i <= self.lines@.len(),
                s@ =~= jsonl_text(self.lines@.take(i as int)),
            decreases self.lines@.len() - i,
        {
            assert(self.lines@.take(i + 1).drop_last() =~= self.lines@.take(i as int));
            s.append(self.lines[i].as_str());
            s.push('\n');
            i = i + 1;
        }
        assert(self.lines@.take(i as int) =~= self.lines@);
        s
    }
}

/// How many line feeds `s` holds.
pub open spec fn line_feeds(s: Seq<char>) -> nat
    decreases s.len(),
{
    if s.len() == 0 {
        0
    } else {
        line_feeds(s.drop_last()) + if s.last() == '\n' {
            1nat
        } else {
            0nat
        }
    }
}

proof fn lemma_line_feeds_add(a: Seq<char>, b: Seq<char>)
    ensures
        line_feeds(a + b) == line_feeds(a) + line_feeds(b),
    decreases b.len(),
{
    if b.len() == 0 {
        assert(a + b =~= a);
    } else {
        assert((a + b).drop_last() =~= a + b.drop_last());
        lemma_line_feeds_add(a, b.drop_last());
    }
}

/// A log of records is one line per record: where no line holds a line feed
/// itself, the text holds as many as there are records.
pub proof fn lemma_one_line_per_record(lines: Seq<String>)
    requires
        forall|i: int| 0 <= i < lines.len() ==> line_feeds((#[trigger] lines[i])@) == 0,
    ensures
        line_feeds(jsonl_text(lines)) == lines.len(),
    decreases lines.len(),
{
    if lines.len() > 0 {
        let front = lines.drop_last();
        let before = jsonl_text(front);
        let line = lines.last()@;
        assert forall|i: int| 0 <= i < front.len() implies line_feeds((#[trigger] front[i])@)
            == 0 by {
            assert(front[i] == lines[i]);
        }
        lemma_one_line_per_record(front);
        lemma_line_feeds_add(before, line);
        assert(line_feeds(lines[lines.len() - 1]@) == 0);
        assert(jsonl_text(lines).drop_last() =~= before + line);
    }
}

proof fn lemma_no_line_feed(s: Seq<char>)
    requires
        forall|i: int| 0 <= i < s.len() ==> #[trigger] s[i] != '\n',
    ensures
        line_feeds(s) == 0,
    decreases s.len(),
{
    if s.len() > 0 {
        lemma_no_line_feed(s.drop_last());
    }
}

proof fn lemma_digits_no_line_feed(n: nat)
    ensures
        line_feeds(crate::text::digits(n)) == 0,
    decreases n,
{
    let d = crate::text::digits(n);
    if n < 10 {
        lemma_no_line_feed(d);
    } else {
        lemma_digits_no_line_feed(n / 10);
        assert(d.drop_last() =~= crate::text::digits(n / 10));
    }
}

proof fn lemma_joined_no_line_feed(xs: Seq<String>)
    requires
        forall|i: int| 0 <= i < xs.len() ==> line_feeds((#[trigger] xs[i])@) == 0,
    ensures
        line_feeds(comma_joined(xs)) == 0,
    decreases xs.len(),
{
    if xs.len() > 1 {
        let front = xs.drop_last();
        assert forall|i: int| 0 <= i < front.len() implies line_feeds((#[trigger] front[i])@)
            == 0 by {
            assert(front[i] == xs[i]);
        }
        lemma_joined_no_line_feed(front);
        let head = comma_joined(front).push(',');
        assert(head.drop_last() =~= comma_joined(front));
        lemma_line_feeds_add(head, xs.last()@);
        assert(line_feeds(xs[xs.len() - 1]@) == 0);
    } else if xs.len() == 1 {
        assert(line_feeds(xs[0]@) == 0);
    }
}

/// A record's line holds no line feed, unless its task name or one of its
/// rendered measurements does.
pub proof fn lemma_record_is_one_line(r: Record<String>)
    requires
        line_feeds(r.task@) == 0,
        line_feeds(r.mean_halt@) == 0,
        forall|i: int| 0 <= i < r.block_halt@.len() ==> line_feeds((#[trigger] r.block_halt@[i])@) == 0,
    ensures
        line_feeds(json_text(r)) == 0,
{
    reveal_strlit("{\"task\":\"");
    reveal_strlit("\",\"track\":\"");
    reveal_strlit("\",\"k\":");
    reveal_strlit(",\"correct\":");
    reveal_strlit(",\"copied\":");
    reveal_strlit(",\"steps\":");
    reveal_strlit(",\"halt\":");
    reveal_strlit(",\"bh\":[");
    reveal_strlit("]}");
    reveal_strlit("true");
    reveal_strlit("false");
    lemma_no_line_feed("{\"task\":\""@);
    lemma_no_line_feed("\",\"track\":\""@);
    lemma_no_line_feed("\",\"k\":"@);
    lemma_no_line_feed(",\"correct\":"@);
    lemma_no_line_feed(",\"copied\":"@);
    lemma_no_line_feed(",\"steps\":"@);
    lemma_no_line_feed(",\"halt\":"@);
    lemma_no_line_feed(",\"bh\":["@);
    lemma_no_line_feed("]}"@);
    lemma_no_line_feed("true"@);
    lemma_no_line_feed("false"@);
    lemma_no_line_feed(seq![track_letter(r.track)]);
    lemma_digits_no_line_feed(r.k as nat);
    lemma_digits_no_line_feed(r.steps_used as nat);
    lemma_joined_no_line_feed(r.block_halt@);
    let a0 = "{\"task\":\""@ + r.task@;
    let a1 = a0 + "\",\"track\":\""@;
    let a2 = a1 + seq![track_letter(r.track)];
    let a3 = a2 + "\",\"k\":"@;
    let a4 = a3 + crate::text::digits(r.k as nat);
    let a5 = a4 + ",\"correct\":"@;
    let a6 = a5 + truth_text(r.correct);
    let a7 = a6 + ",\"copied\":"@;
    let a8 = a7 + truth_text(r.copied);
    let a9 = a8 + ",\"steps\":"@;
    let b0 = a9 + crate::text::digits(r.steps_used as nat);
    let b1 = b0 + ",\"halt\":"@;
    let b2 = b1 + r.mean_halt@;
    let b3 = b2 + ",\"bh\":["@;
    let b4 = b3 + comma_joined(r.block_halt@);
    lemma_line_feeds_add("{\"task\":\""@, r.task@);
    lemma_line_feeds_add(a0, "\",\"track\":\""@);
    lemma_line_feeds_add(a1, seq![track_letter(r.track)]);
    lemma_line_feeds_add(a2, "\",\"k\":"@);
    lemma_line_feeds_add(a3, crate::text::digits(r.k as nat));
    lemma_line_feeds_add(a4, ",\"correct\":"@);
    lemma_line_feeds_add(a5, truth_text(r.correct));
    lemma_line_feeds_add(a6, ",\"copied\":"@);
    lemma_line_feeds_add(a7, truth_text(r.copied));
    lemma_line_feeds_add(a8, ",\"steps\":"@);
    lemma_line_feeds_add(a9, crate::text::digits(r.steps_used as nat));
    lemma_line_feeds_add(b0, ",\"halt\":"@);
    lemma_line_feeds_add(b1, r.mean_halt@);
    lemma_line_feeds_add(b2, ",\"bh\":["@);
    lemma_line_feeds_add(b3, comma_joined(r.block_halt@));
    lemma_line_feeds_add(b4, "]}"@);
}

/// The correct records are those that say so, whatever else they say; so are
/// the copies.
pub proof fn lemma_counts_are_of_flags<H>(records: Seq<Record<H>>)
    ensures
        correct_count(records) == records.filter(|r: Record<H>| r.correct).len(),
        copied_count(records) == records.filter(|r: Record<H>| r.copied).len(),
    decreases records.len(),
{
    reveal(Seq::filter);
    if records.len() > 0 {
        lemma_counts_are_of_flags(records.drop_last());
    }
}

/// Summaries add up: what two lists of records count together is what each of
/// them counts, and one record counts its own verdicts and steps.
pub proof fn lemma_summaries_add<H>(a: Seq<Record<H>>, b: Seq<Record<H>>)
    ensures
        correct_count(a + b) == correct_count(a) + correct_count(b),
        copied_count(a + b) == copied_count(a) + copied_count(b),
        steps_total(a + b) == steps_total(a) + steps_total(b),
        forall|r: Record<H>|
            #![trigger seq![r]]
            correct_count(seq![r]) == (if r.correct {
                1nat
            } else {
                0
            }) && copied_count(seq![r]) == (if r.copied {
                1nat
            } else {
                0
            }) && steps_total(seq![r]) == r.steps_used,
    decreases b.len(),
{
    assert forall|r: Record<H>|
        #![trigger seq![r]]
        correct_count(seq![r]) == (if r.correct {
            1nat
        } else {
            0
        }) && copied_count(seq![r]) == (if r.copied {
            1nat
        } else {
            0
        }) && steps_total(seq![r]) == r.steps_used by {
        let one = seq![r];
        assert(one.drop_last() =~= Seq::<Record<H>>::empty());
        assert(correct_count(one.drop_last()) == 0);
        assert(copied_count(one.drop_last()) == 0);
        assert(steps_total(one.drop_last()) == 0);
    }
    if b.len() == 0 {
        assert(a + b =~= a);
    } else {
        lemma_summaries_add(a, b.drop_last());
        assert((a + b).drop_last() =~= a + b.drop_last());
        assert((a + b).last() == b.last());
    }
}

/// The column of a block: the measurements of the records that have one there,
/// in their order, of all records, of the correct ones or of the wrong ones.
pub proof fn lemma_columns_are_picked<H>(records: Seq<Record<H>>, i: int)
    requires
        i >= 0,
    ensures
        halts_of(records, i, Part::All) == records.filter_map(
            |r: Record<H>|
                if i < r.block_halt@.len() {
                    Some(r.block_halt@[i])
                } else {
                    None
                },
        ),
        halts_of(records, i, Part::Correct) == records.filter_map(
            |r: Record<H>|
                if r.correct && i < r.block_halt@.len() {
                    Some(r.block_halt@[i])
                } else {
                    None
                },
        ),
        halts_of(records, i, Part::Wrong) == records.filter_map(
            |r: Record<H>|
                if !r.correct && i < r.block_halt@.len() {
                    Some(r.block_halt@[i])
                } else {
                    None
                },
        ),
    decreases records.len(),
{
    if records.len() > 0 {
        lemma_columns_are_picked(records.drop_last(), i);
    }
}

/// A summary has a column for every block that some record measures, and none
/// besides.
pub proof fn lemma_width_is_greatest<H>(records: Seq<Record<H>>)
    ensures
        forall|j: int|
            0 <= j < records.len() ==> (#[trigger] records[j]).block_halt@.len() <= block_width(
                records,
            ),
        block_width(records) > 0 ==> exists|j: int|
            0 <= j < records.len() && (#[trigger] records[j]).block_halt@.len() == block_width(
                records,
            ),
    decreases records.len(),
{
    if records.len() > 0 {
        let front = records.drop_last();
        lemma_width_is_greatest(front);
        assert forall|j: int| 0 <= j < records.len() implies (#[trigger] records[j]).block_halt@.len()
            <= block_width(records) by {
            if j < front.len() {
                assert(front[j] == records[j]);
            }
        }
        if block_width(records) > 0 {
            if records.last().block_halt@.len() > block_width(front) {
                assert(records[records.len() - 1].block_halt@.len() == block_width(records));
            } else {
                let j = choose|j: int|
                    0 <= j < front.len() && (#[trigger] front[j]).block_halt@.len() == block_width(
                        front,
                    );
                assert(records[j] == front[j]);
            }
        }
    }
}

/// Commas stand between the parts and nowhere else.
pub proof fn lemma_comma_joined(xs: Seq<String>, x: String)
    ensures
        comma_joined(seq![x]) == x@,
        xs.len() > 0 ==> comma_joined(xs.push(x)) == comma_joined(xs) + seq![','] + x@,
        comma_joined(Seq::<String>::empty()) == Seq::<char>::empty(),
{
    if xs.len() > 0 {
        assert(xs.push(x).drop_last() =~= xs);
        assert(comma_joined(xs.push(x)) =~= comma_joined(xs) + seq![','] + x@);
    }
}

/// A log is its lines one after the other, with a line feed behind each.
pub proof fn lemma_jsonl_lines(lines: Seq<String>)
    ensures
        jsonl_text(lines) == lines.map_values(|l: String| l@.push('\n')).flatten(),
    decreases lines.len(),
{
    let each = |l: String| l@.push('\n');
    let all = lines.map_values(each);
    all.lemma_flatten_and_flatten_alt_are_equivalent();
    if lines.len() > 0 {
        let front = lines.drop_last();
        lemma_jsonl_lines(front);
        front.map_values(each).lemma_flatten_and_flatten_alt_are_equivalent();
        assert(all.drop_last() =~= front.map_values(each));
        assert(all.last() == each(lines.last()));
        assert(jsonl_text(lines) =~= jsonl_text(front) + each(lines.last()));
    } else {
        assert(jsonl_text(lines) =~= all.flatten_alt());
    }
}

/// The fields of a record's line, by name and in their order: the task in
/// quotes, the track's letter in quotes, the number of demos, whether it is
/// correct and whether it is a copy, the steps, and the measurements as they
/// were rendered.
pub proof fn lemma_json_fields(r: Record<String>)
    ensures
        json_text(r) == "{\"task\":\""@ + (r.task@ + ("\",\"track\":\""@ + ((if r.track == Track::A {
            seq!['A']
        } else {
            seq!['B']
        }) + ("\",\"k\":"@ + (crate::text::digits(r.k as nat) + (",\"correct\":"@ + ((if r.correct {
            "true"@
        } else {
            "false"@
        }) + (",\"copied\":"@ + ((if r.copied {
            "true"@
        } else {
            "false"@
        }) + (",\"steps\":"@ + (crate::text::digits(r.steps_used as nat) + (",\"halt\":"@ + (
        r.mean_halt@ + (",\"bh\":["@ + (comma_joined(r.block_halt@) + "]}"@))))))))))))))),
{
    let track = if r.track == Track::A {
        seq!['A']
    } else {
        seq!['B']
    };
    let correct = if r.correct {
        "true"@
    } else {
        "false"@
    };
    let copied = if r.copied {
        "true"@
    } else {
        "false"@
    };
    assert(seq![track_letter(r.track)] =~= track);
    let a = "{\"task\":\""@;
    let b = a + r.task@;
    let c = b + "\",\"track\":\""@;
    let d = c + track;
    let e = d + "\",\"k\":"@;
    let f = e + crate::text::digits(r.k as nat);
    let g = f + ",\"correct\":"@;
    let h = g + correct;
    let i = h + ",\"copied\":"@;
    let j = i + copied;
    let k = j + ",\"steps\":"@;
    let l = k + crate::text::digits(r.steps_used as nat);
    let m = l + ",\"halt\":"@;
    let n = m + r.mean_halt@;
    let o = n + ",\"bh\":["@;
    let p = o + comma_joined(r.block_halt@);
    let q = p + "]}"@;
    let r16 = "]}"@;
    let r15 = comma_joined(r.block_halt@) + r16;
    let r14 = ",\"bh\":["@ + r15;
    let r13 = r.mean_halt@ + r14;
    let r12 = ",\"halt\":"@ + r13;
    let r11 = crate::text::digits(r.steps_used as nat) + r12;
    let r10 = ",\"steps\":"@ + r11;
    let r9 = copied + r10;
    let r8 = ",\"copied\":"@ + r9;
    let r7 = correct + r8;
    let r6 = ",\"correct\":"@ + r7;
    let r5 = crate::text::digits(r.k as nat) + r6;
    let r4 = "\",\"k\":"@ + r5;
    let r3 = track + r4;
    let r2 = "\",\"track\":\""@ + r3;
    let r1 = r.task@ + r2;
    lemma_regroup(a, r.task@, r2);
    lemma_regroup(b, "\",\"track\":\""@, r3);
    lemma_regroup(c, track, r4);
    lemma_regroup(d, "\",\"k\":"@, r5);
    lemma_regroup(e, crate::text::digits(r.k as nat), r6);
    lemma_regroup(f, ",\"correct\":"@, r7);
    lemma_regroup(g, correct, r8);
    lemma_regroup(h, ",\"copied\":"@, r9);
    lemma_regroup(i, copied, r10);
    lemma_regroup(j, ",\"steps\":"@, r11);
    lemma_regroup(k, crate::text::digits(r.steps_used as nat), r12);
    lemma_regroup(l, ",\"halt\":"@, r13);
    lemma_regroup(m, r.mean_halt@, r14);
    lemma_regroup(n, ",\"bh\":["@, r15);
    lemma_regroup(o, comma_joined(r.block_halt@), r16);
    assert(json_text(r) == q);
}

/// Texts in a row can be read in any grouping.
proof fn lemma_regroup(a: Seq<char>, b: Seq<char>, c: Seq<char>)
    ensures
        a + (b + c) == (a + b) + c,
{
    assert(a + (b + c) =~= (a + b) + c);
}

/// A share is covered by so many values exactly if they are not fewer than that
/// share of all of them; all values cover every share, and more values cover no
/// less.
pub proof fn lemma_covers_share(count: nat, n: nat, part: nat, whole: nat)
    ensures
        covers_share(count, n, part, whole) <==> n * part <= count * whole,
        part <= whole ==> covers_share(n, n, part, whole),
        covers_share(count, n, part, whole) ==> covers_share(count + 1, n, part, whole),
        n > 0 && part > 0 ==> !covers_share(0, n, part, whole),
{
    assert(part <= whole ==> n * part <= n * whole) by (nonlinear_arith);
    assert((count + 1) * whole == count * whole + whole) by (nonlinear_arith);
    assert(n > 0 && part > 0 ==> n * part > 0) by (nonlinear_arith);
    assert(0nat * whole == 0);
}

/// The columns of a part, value by value: one for every block that some record
/// measures, each with the measurements of that block by the records of the part
/// that have one, in their order.
pub proof fn lemma_columns<H>(cols: Seq<Vec<H>>, records: Seq<Record<H>>, part: Part, i: int)
    requires
        are_columns(cols, records, part),
    ensures
        forall|j: int|
            0 <= j < records.len() ==> (#[trigger] records[j]).block_halt@.len() <= cols.len(),
        cols.len() > 0 ==> exists|j: int|
            0 <= j < records.len() && (#[trigger] records[j]).block_halt@.len() == cols.len(),
        0 <= i < cols.len() && part == Part::All ==> cols[i]@ == records.filter_map(
            |r: Record<H>|
                if i < r.block_halt@.len() {
                    Some(r.block_halt@[i])
                } else {
                    None
                },
        ),
        0 <= i < cols.len() && part == Part::Correct ==> cols[i]@ == records.filter_map(
            |r: Record<H>|
                if r.correct && i < r.block_halt@.len() {
                    Some(r.block_halt@[i])
                } else {
                    None
                },
        ),
        0 <= i < cols.len() && part == Part::Wrong ==> cols[i]@ == records.filter_map(
            |r: Record<H>|
                if !r.correct && i < r.block_halt@.len() {
                    Some(r.block_halt@[i])
                } else {
                    None
                },
        ),
{
    lemma_width_is_greatest(records);
    if 0 <= i < cols.len() {
        lemma_columns_are_picked(records, i);
        assert(cols[i]@ == halts_of(records, i, part));
    }
}

} // verus!
