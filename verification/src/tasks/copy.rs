//! Copy / reverse / repeat transduction over character strings.
//!
//! Rule = (op, alphabet). Track A: {copy, reverse} over {a,b,c} (trained).
//! Track B: {copy, reverse, repeat} over {x,y,z}: novel op plus novel
//! symbols, defined only by prompt demos. Regime split: demo strings 2..8,
//! query strings 8..20.

use vstd::prelude::*;
use vstd::utf8::*;

use super::demo;
use super::rng;
use super::rng::HarnessRng;
use super::{flip_symbol, BoxedRule, Demo, DemoPolicy, Query, Rule, Task, Track};
use super::{DemoText, PolicyModel, QueryText, RuleModel, TaskModel};

verus! {

#[derive(Debug, Clone, Copy, PartialEq, Eq, Structural)]
pub enum CopyOp {
    Copy,
    Reverse,
    Repeat,
}

/// What `op` makes of `input`.
pub open spec fn transduced(op: CopyOp, input: Seq<char>) -> Seq<char> {
    match op {
        CopyOp::Copy => input,
        CopyOp::Reverse => Seq::new(input.len(), |i: int| input[input.len() - 1 - i]),
        CopyOp::Repeat => input + input,
    }
}

/// The length that query strings stay below. Repeat doubles length: its
/// queries are shorter so that targets stay small.
pub open spec fn query_limit(op: CopyOp) -> nat {
    match op {
        CopyOp::Repeat => 10,
        _ => 20,
    }
}

/// What the rule that applies `op` to strings over `alphabet` is.
pub open spec fn copy_model(op: CopyOp, alphabet: Seq<u8>) -> RuleModel {
    RuleModel {
        ready: alphabet.len() > 0,
        demo: |s: u64|
            {
                let input = rng::token_text(s, alphabet, 2, 8);
                (DemoText { input, output: transduced(op, input) }, rng::token_after(s, 2, 8))
            },
        query: |s: u64|
            {
                let hi = query_limit(op);
                let input = rng::token_text(s, alphabet, 8, hi);
                (QueryText { input, target: transduced(op, input) }, rng::token_after(s, 8, hi))
            },
        decides: |input: Seq<char>, output: Seq<char>| true,
        accepts: |input: Seq<char>, output: Seq<char>|
            crate::text::trimmed(output) == transduced(op, input),
        corrupted: |s: u64, output: Seq<char>| super::flipped(s, output),
        policy: PolicyModel::ExcludeAnswer,
        header: None,
    }
}

/// The operations of a track.
pub open spec fn track_ops(track: Track) -> Seq<CopyOp> {
    match track {
        Track::A => seq![CopyOp::Copy, CopyOp::Reverse],
        Track::B => seq![CopyOp::Copy, CopyOp::Reverse, CopyOp::Repeat],
    }
}

/// The operation that a track samples from state `s`.
pub open spec fn sampled_op(s: u64, track: Track) -> CopyOp {
    track_ops(track)[rng::draw_below(s, 0, track_ops(track).len()) as int]
}

pub struct CopyTask;

impl Task for CopyTask {
    open spec fn model(&self) -> TaskModel {
        TaskModel {
            name: "copy-rev-rep"@,
            stage: 0,
            policy: PolicyModel::ExcludeAnswer,
            rule: |s: u64, track: Track|
                (
                    copy_model(sampled_op(s, track), super::track_letters(track)),
                    rng::advance(s, 1),
                ),
        }
    }

    fn name(&self) -> (r: &'static str) {
        "copy-rev-rep"
    }

    fn stage(&self) -> (r: u8) {
        0
    }

    fn demo_policy(&self) -> (r: DemoPolicy) {
        DemoPolicy::ExcludeAnswer
    }

    fn sample_rule(&self, rng: &mut HarnessRng, track: Track) -> (r: BoxedRule) {
        let mut ops: Vec<CopyOp> = Vec::new();
        ops.push(CopyOp::Copy);
        ops.push(CopyOp::Reverse);
        match track {
            Track::A => {},
            Track::B => {
                ops.push(CopyOp::Repeat);
            },
        }
        assert(ops@ =~= track_ops(track));
        let op: CopyOp = *rng.pick(&ops);
        BoxedRule { rule: Box::new(CopyRule { op, alphabet: super::letters(track) }) }
    }
}

pub struct CopyRule {
    pub op: CopyOp,
    pub alphabet: Vec<u8>,
}

impl CopyRule {
    /// What the rule's operation makes of `input`.
    pub fn apply(&self, input: &str) -> (r: String)
        ensures
            r@ == transduced(self.op, input@),
    {
        match self.op {
            CopyOp::Copy => input.to_string(),
            CopyOp::Reverse => {
                let cs: Vec<char> = crate::text::chars_of(input);
                let mut out: String = String::new();
                let mut i: usize = cs.len();
                while i > 0
                    invariant
                        i <= cs@.len(),
                        cs@ == input@,
                        out@ =~= transduced(CopyOp::Reverse, input@).take(cs@.len() - i),
                    decreases i,
                {
                    i = i - 1;
                    out.push(cs[i]);
                }
                assert(out@ =~= transduced(CopyOp::Reverse, input@));
                out
            },
            CopyOp::Repeat => {
                let mut out: String = input.to_string();
                out.append(input);
                out
            },
        }
    }
}

impl Rule for CopyRule {
    open spec fn model(&self) -> RuleModel {
        copy_model(self.op, self.alphabet@)
    }

    fn render_demo(&self, rng: &mut HarnessRng) -> (d: Demo) {
        let input: String = rng.token_string(&self.alphabet, 2, 8);
        let output: String = self.apply(input.as_str());
        Demo { input, output }
    }

    fn render_query(&self, rng: &mut HarnessRng) -> (q: Query) {
        let hi: usize = match self.op {
            CopyOp::Repeat => 10,
            _ => 20,
        };
        let input: String = rng.token_string(&self.alphabet, 8, hi);
        let target: String = self.apply(input.as_str());
        Query { input, target }
    }

    fn verify(&self, input: &str, output: &str) -> (r: bool) {
        let got: Vec<char> = crate::text::trim(output);
        let want: Vec<char> = crate::text::chars_of(self.apply(input).as_str());
        crate::text::same_chars(&got, &want)
    }

    fn corrupt(&self, rng: &mut HarnessRng, output: &str) -> (r: String) {
        flip_symbol(rng, output)
    }

    fn demo_policy(&self) -> (r: DemoPolicy) {
        DemoPolicy::ExcludeAnswer
    }

    fn oracle_header(&self) -> (r: Option<String>) {
        None
    }
}

/// A rule over symbols that are no white space accepts the answer to each of
/// its queries, and nothing else but that answer with white space around it.
pub proof fn lemma_copy_judges_own_queries(op: CopyOp, alphabet: Seq<u8>, s: u64, output: Seq<char>)
    requires
        alphabet.len() > 0,
        super::prints(alphabet),
    ensures
        ({
            let m = copy_model(op, alphabet);
            let q = (m.query)(s).0;
            &&& (m.accepts)(q.input, q.target)
            &&& (m.accepts)(q.input, output) ==> crate::text::trimmed(output) == q.target
        }),
{
    let hi = query_limit(op);
    let input = rng::token_text(s, alphabet, 8, hi);
    super::lemma_token_symbols(s, alphabet, 8, hi, 0);
    super::lemma_token_symbols(s, alphabet, 8, hi, input.len() - 1);
    assert(!crate::text::is_white(input[0]));
    assert(!crate::text::is_white(input[input.len() - 1]));
    crate::text::lemma_trimmed_id(transduced(op, input));
}

/// Sampled rules meet the conditions of [`lemma_copy_judges_own_queries`].
pub proof fn lemma_copy_letters_print(track: Track)
    ensures
        super::track_letters(track).len() > 0,
        super::prints(super::track_letters(track)),
{
}

/// Track A never samples the operation that it holds out.
pub proof fn lemma_copy_holds_out_repeat(s: u64)
    ensures
        sampled_op(s, Track::A) != CopyOp::Repeat,
{
}

/// Demo strings are shorter than query strings, and targets stay below
/// 20 characters.
pub proof fn lemma_copy_regimes(op: CopyOp, alphabet: Seq<u8>, s: u64)
    ensures
        2 <= (copy_model(op, alphabet).demo)(s).0.input.len() < 8,
        8 <= (copy_model(op, alphabet).query)(s).0.input.len() < 20,
        8 <= (copy_model(op, alphabet).query)(s).0.target.len() < 20,
{
}

/// Reversing twice gives the string back.
pub proof fn lemma_reverse_twice(input: Seq<char>)
    ensures
        transduced(CopyOp::Reverse, transduced(CopyOp::Reverse, input)) == input,
{
    assert(transduced(CopyOp::Reverse, transduced(CopyOp::Reverse, input)) =~= input);
}

/// An answer over ASCII symbols has as many bytes as characters.
proof fn lemma_copy_bytes(op: CopyOp, alphabet: Seq<u8>, s: u64, lo: nat, hi: nat)
    requires
        alphabet.len() > 0,
        lo < hi,
        forall|i: int| 0 <= i < alphabet.len() ==> #[trigger] alphabet[i] < 128,
    ensures
        ({
            let answer = transduced(op, rng::token_text(s, alphabet, lo, hi));
            encode_utf8(answer).len() == answer.len()
        }),
{
    let input = rng::token_text(s, alphabet, lo, hi);
    let answer = transduced(op, input);
    super::lemma_token_ascii(s, alphabet, lo, hi);
    assert forall|i: int| 0 <= i < answer.len() implies '\0' <= #[trigger] answer[i]
        <= '\u{7f}' by {
        let j = match op {
            CopyOp::Copy => i,
            CopyOp::Reverse => input.len() - 1 - i,
            CopyOp::Repeat => if i < input.len() {
                i
            } else {
                i - input.len()
            },
        };
        assert(answer[i] == input[j]);
    }
    is_ascii_chars_encode_utf8(answer);
}

/// No demo of an instance of the copy task ever shows the answer: whatever the
/// protocol and the generator states.
pub proof fn lemma_copy_hides_answer(p: demo::ProtocolModel, track: Track, s: u64, t: u64)
    ensures
        ({
            let m = (CopyTask.model().rule)(s, track).0;
            let x = demo::built(p, CopyTask.model().name, 0, track, m, t).0;
            !demo::shown(x.demos, x.expected)
        }),
{
    let op = sampled_op(s, track);
    let alphabet = super::track_letters(track);
    let m = copy_model(op, alphabet);
    let bound: nat = match op {
        CopyOp::Repeat => 16,
        _ => 8,
    };
    let short = |o: Seq<char>| encode_utf8(o).len() < bound;
    assert forall|u: u64| short((#[trigger] (m.demo)(u)).0.output) by {
        lemma_copy_bytes(op, alphabet, u, 2, 8);
    }
    assert forall|u: u64| !short((#[trigger] (m.query)(u)).0.target) by {
        lemma_copy_bytes(op, alphabet, u, 8, query_limit(op));
    }
    assert forall|u: u64, o: Seq<char>| short(o) implies short(
        (#[trigger] (m.corrupted)(u, o)).0,
    ) by {
        super::lemma_flip_is_wrong(u, o);
    }
    demo::lemma_kinds_apart(p, CopyTask.model().name, 0, track, m, t, short);
}

/// Everything that a rule sampled by a track says is printable.
pub proof fn lemma_copy_printable(track: Track, s: u64)
    ensures
        demo::speaks_plainly((CopyTask.model().rule)(s, track).0),
{
    let op = sampled_op(s, track);
    let alphabet = super::track_letters(track);
    let m = copy_model(op, alphabet);
    assert forall|t: u64|
        super::printable((#[trigger] (m.demo)(t)).0.input) && super::printable(
            (m.demo)(t).0.output,
        ) by {
        super::lemma_token_printable(t, alphabet, 2, 8);
        lemma_transduced_printable(op, (m.demo)(t).0.input);
    }
    assert forall|t: u64|
        super::printable((#[trigger] (m.query)(t)).0.input) && super::printable(
            (m.query)(t).0.target,
        ) by {
        super::lemma_token_printable(t, alphabet, 8, query_limit(op));
        lemma_transduced_printable(op, (m.query)(t).0.input);
    }
    assert forall|t: u64, o: Seq<char>| super::printable(o) implies super::printable(
        (#[trigger] (m.corrupted)(t, o)).0,
    ) by {
        super::lemma_flip_printable(t, o);
    }
}

proof fn lemma_transduced_printable(op: CopyOp, input: Seq<char>)
    requires
        super::printable(input),
    ensures
        super::printable(transduced(op, input)),
{
    let answer = transduced(op, input);
    assert forall|i: int| 0 <= i < answer.len() implies ' ' <= #[trigger] answer[i] <= '~' by {
        let j = match op {
            CopyOp::Copy => i,
            CopyOp::Reverse => input.len() - 1 - i,
            CopyOp::Repeat => if i < input.len() {
                i
            } else {
                i - input.len()
            },
        };
        assert(answer[i] == input[j]);
    }
}

/// Every demo that a rule of the task renders is right by that rule.
pub proof fn lemma_copy_demos_right(track: Track, s: u64)
    ensures
        super::demos_right((CopyTask.model().rule)(s, track).0),
{
    let op = sampled_op(s, track);
    let alphabet = super::track_letters(track);
    let m = copy_model(op, alphabet);
    assert forall|t: u64| super::right_by(m, (#[trigger] (m.demo)(t)).0) by {
        let input = rng::token_text(t, alphabet, 2, 8);
        super::lemma_token_symbols(t, alphabet, 2, 8, 0);
        super::lemma_token_symbols(t, alphabet, 2, 8, input.len() - 1);
        crate::text::lemma_trimmed_id(transduced(op, input));
    }
}

/// What the operations do: copying gives the input back, reversing puts its
/// last character first and so on, repeating says it twice over.
pub proof fn lemma_operations(input: Seq<char>)
    ensures
        transduced(CopyOp::Copy, input) == input,
        transduced(CopyOp::Reverse, input) == input.reverse(),
        transduced(CopyOp::Repeat, input) == input + input,
{
    assert(transduced(CopyOp::Reverse, input) =~= input.reverse());
}

/// Reversing turns a text around: the reverse of two texts is the reverse of
/// the second and then of the first; copying and only copying keeps the texts
/// in place; repeating doubles the length.
pub proof fn lemma_operations_split(a: Seq<char>, b: Seq<char>)
    ensures
        transduced(CopyOp::Copy, a + b) == transduced(CopyOp::Copy, a) + transduced(
            CopyOp::Copy,
            b,
        ),
        transduced(CopyOp::Reverse, a + b) == transduced(CopyOp::Reverse, b) + transduced(
            CopyOp::Reverse,
            a,
        ),
        transduced(CopyOp::Repeat, a).len() == 2 * a.len(),
{
    assert(transduced(CopyOp::Reverse, a + b) =~= transduced(CopyOp::Reverse, b) + transduced(
        CopyOp::Reverse,
        a,
    ));
}

/// What a sampled rule renders: its operation is drawn from those of its
/// track; inputs are drawn strings over `abc` or `xyz`, of length 2 to 7 for
/// demos and 8 to 19 for queries, to 9 where the answer is twice as long; the
/// answer is what the operation makes of the input.
pub proof fn lemma_copy_renders(track: Track, s: u64, t: u64)
    ensures
        ({
            let (m, after) = (CopyTask.model().rule)(s, track);
            let op = match track {
                Track::A => if rng::draw(s, 0) % 2 == 0 {
                    CopyOp::Copy
                } else {
                    CopyOp::Reverse
                },
                Track::B => if rng::draw(s, 0) % 3 == 0 {
                    CopyOp::Copy
                } else if rng::draw(s, 0) % 3 == 1 {
                    CopyOp::Reverse
                } else {
                    CopyOp::Repeat
                },
            };
            let letters = match track {
                Track::A => seq![97u8, 98u8, 99u8],
                Track::B => seq![120u8, 121u8, 122u8],
            };
            let hi: nat = if op == CopyOp::Repeat {
                10
            } else {
                20
            };
            let (d, u) = (m.demo)(t);
            let (q, v) = (m.query)(t);
            &&& after == rng::advance(s, 1)
            &&& d.input == rng::token_text(t, letters, 2, 8)
            &&& q.input == rng::token_text(t, letters, 8, hi)
            &&& d.output == (match op {
                CopyOp::Copy => d.input,
                CopyOp::Reverse => d.input.reverse(),
                CopyOp::Repeat => d.input + d.input,
            })
            &&& q.target == (match op {
                CopyOp::Copy => q.input,
                CopyOp::Reverse => q.input.reverse(),
                CopyOp::Repeat => q.input + q.input,
            })
            &&& u == rng::advance(t, d.input.len() + 1)
            &&& v == rng::advance(t, q.input.len() + 1)
        }),
{
    let m = (CopyTask.model().rule)(s, track).0;
    lemma_operations((m.demo)(t).0.input);
    lemma_operations((m.query)(t).0.input);
}

/// How the task judges, corrupts and deals: answers by what the sampled
/// operation makes of the input, whatever the input; outputs by the stock
/// corruption; demos so that none shows the answer.
pub proof fn lemma_copy_judges(track: Track, s: u64, t: u64, input: Seq<char>, output: Seq<char>)
    ensures
        ({
            let m = (CopyTask.model().rule)(s, track).0;
            let answer = crate::text::trimmed(output);
            let pick = rng::draw(s, 0) % if track == Track::A {
                2
            } else {
                3
            };
            &&& m.ready
            &&& (m.decides)(input, output)
            &&& m.policy == PolicyModel::ExcludeAnswer
            &&& m.header is None
            &&& pick == 0 ==> ((m.accepts)(input, output) <==> answer == input)
            &&& pick == 1 ==> ((m.accepts)(input, output) <==> answer == input.reverse())
            &&& pick == 2 ==> ((m.accepts)(input, output) <==> answer == input + input)
            &&& (m.corrupted)(t, output) == super::flipped(t, output)
        }),
{
    lemma_operations(input);
}

} // verus!
