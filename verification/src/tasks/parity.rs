//! Parity: is the count of a target symbol odd?
//!
//! Regime split: demos use lengths 4..12, queries 16..32 (length held out).
//! Track split: A counts `1`s (trained), B counts `0`s (rule seen only via
//! prompt demos). Same procedure, different target: minimal unseen-rule probe.

use vstd::prelude::*;
use vstd::utf8::*;

use super::demo;
use super::rng;
use super::rng::HarnessRng;
use super::{flip_symbol, BoxedRule, Demo, DemoPolicy, Query, Rule, Task, Track};
use super::{DemoText, PolicyModel, QueryText, RuleModel, TaskModel};

verus! {

/// The bytes `0` and `1`.
pub open spec fn bits() -> Seq<u8> {
    seq![48u8, 49u8]
}

/// How often `x` occurs in `xs`.
pub open spec fn occurrences(xs: Seq<u8>, x: u8) -> nat
    decreases xs.len(),
{
    if xs.len() == 0 {
        0
    } else {
        occurrences(xs.drop_last(), x) + if xs.last() == x {
            1nat
        } else {
            0nat
        }
    }
}

/// `1` where `symbol` occurs an odd number of times in `input`, else `0`.
pub open spec fn parity_text(symbol: u8, input: Seq<char>) -> Seq<char> {
    if occurrences(encode_utf8(input), symbol) % 2 == 1 {
        seq!['1']
    } else {
        seq!['0']
    }
}

/// Even coverage of `0` and `1`.
pub open spec fn binary_policy() -> PolicyModel {
    PolicyModel::Balanced { classes: seq![seq!['0'], seq!['1']] }
}

/// What the rule that counts `symbol` is.
pub open spec fn parity_model(symbol: u8) -> RuleModel {
    RuleModel {
        ready: true,
        demo: |s: u64|
            {
                let input = rng::token_text(s, bits(), 4, 12);
                (DemoText { input, output: parity_text(symbol, input) }, rng::token_after(s, 4, 12))
            },
        query: |s: u64|
            {
                let input = rng::token_text(s, bits(), 16, 32);
                (QueryText { input, target: parity_text(symbol, input) }, rng::token_after(s, 16, 32))
            },
        decides: |input: Seq<char>, output: Seq<char>| true,
        accepts: |input: Seq<char>, output: Seq<char>|
            crate::text::trimmed(output) == parity_text(symbol, input),
        corrupted: |s: u64, output: Seq<char>| super::flipped(s, output),
        policy: binary_policy(),
        header: None,
    }
}

/// The symbol that a track counts.
pub open spec fn track_symbol(track: Track) -> u8 {
    match track {
        Track::A => 49,
        Track::B => 48,
    }
}

pub struct ParityTask;

fn binary_classes() -> (r: DemoPolicy)
    ensures
        r@ == binary_policy(),
{
    let mut classes: Vec<String> = Vec::new();
    classes.push("0".to_string());
    classes.push("1".to_string());
    proof {
        reveal_strlit("0");
        reveal_strlit("1");
        assert(classes@[0]@ =~= seq!['0']);
        assert(classes@[1]@ =~= seq!['1']);
        assert(super::texts(classes@) =~= seq![seq!['0'], seq!['1']]);
    }
    DemoPolicy::Balanced { classes }
}

impl Task for ParityTask {
    open spec fn model(&self) -> TaskModel {
        TaskModel {
            name: "parity"@,
            stage: 0,
            policy: binary_policy(),
            rule: |s: u64, track: Track| (parity_model(track_symbol(track)), s),
        }
    }

    fn name(&self) -> (r: &'static str) {
        "parity"
    }

    fn stage(&self) -> (r: u8) {
        0
    }

    /// Binary outputs need balance, not exclusion: excluding the answer would
    /// leave every demo showing the opposite class, a trivial flip shortcut.
    fn demo_policy(&self) -> (r: DemoPolicy) {
        binary_classes()
    }

    fn sample_rule(&self, _rng: &mut HarnessRng, track: Track) -> (r: BoxedRule) {
        let symbol: u8 = match track {
            Track::A => 49,
            Track::B => 48,
        };
        BoxedRule { rule: Box::new(ParityRule { symbol }) }
    }
}

pub struct ParityRule {
    pub symbol: u8,
}

impl ParityRule {
    /// The parity of the symbol's count in `input`, as a digit.
    pub fn parity(&self, input: &str) -> (r: String)
        ensures
            r@ == parity_text(self.symbol, input@),
    {
        let bytes: Vec<u8> = crate::text::bytes_of(input);
        let mut odd: bool = false;
        let mut i: usize = 0;
        while i < bytes.len()
            invariant
                i <= bytes@.len(),
                odd == (occurrences(bytes@.take(i as int), self.symbol) % 2 == 1),
            decreases bytes@.len() - i,
        {
            assert(bytes@.take(i + 1).drop_last() =~= bytes@.take(i as int));
            if bytes[i] == self.symbol {
                odd = !odd;
            }
            i = i + 1;
        }
        assert(bytes@.take(i as int) =~= bytes@);
        proof {
            reveal_strlit("0");
            reveal_strlit("1");
            assert("0"@ =~= seq!['0']);
            assert("1"@ =~= seq!['1']);
        }
        if odd {
            "1".to_string()
        } else {
            "0".to_string()
        }
    }
}

impl Rule for ParityRule {
    open spec fn model(&self) -> RuleModel {
        parity_model(self.symbol)
    }

    fn render_demo(&self, rng: &mut HarnessRng) -> (d: Demo) {
        let alphabet: [u8; 2] = [48, 49];
        assert(alphabet@ =~= bits());
        let input: String = rng.token_string(&alphabet, 4, 12);
        let output: String = self.parity(input.as_str());
        Demo { input, output }
    }

    fn render_query(&self, rng: &mut HarnessRng) -> (q: Query) {
        let alphabet: [u8; 2] = [48, 49];
        assert(alphabet@ =~= bits());
        let input: String = rng.token_string(&alphabet, 16, 32);
        let target: String = self.parity(input.as_str());
        Query { input, target }
    }

    fn verify(&self, input: &str, output: &str) -> (r: bool) {
        let got: Vec<char> = crate::text::trim(output);
        let want: Vec<char> = crate::text::chars_of(self.parity(input).as_str());
        crate::text::same_chars(&got, &want)
    }

    fn corrupt(&self, rng: &mut HarnessRng, output: &str) -> (r: String) {
        flip_symbol(rng, output)
    }

    /// Mirrors the task's policy: instances are built under the rule's.
    fn demo_policy(&self) -> (r: DemoPolicy) {
        binary_classes()
    }

    fn oracle_header(&self) -> (r: Option<String>) {
        None
    }
}

/// The rule accepts the answer to each of its queries, and the other digit is
/// not accepted.
pub proof fn lemma_parity_judges_own_queries(symbol: u8, s: u64)
    ensures
        ({
            let m = parity_model(symbol);
            let q = (m.query)(s).0;
            let wrong = if q.target == seq!['1'] {
                seq!['0']
            } else {
                seq!['1']
            };
            (m.accepts)(q.input, q.target) && !(m.accepts)(q.input, wrong)
        }),
{
    let q = (parity_model(symbol).query)(s).0;
    crate::text::lemma_trimmed_id(seq!['1']);
    crate::text::lemma_trimmed_id(seq!['0']);
    assert(seq!['1'][0] != seq!['0'][0]);
}

/// Demos are 4 to 11 characters long and queries 16 to 31, so their lengths
/// never meet.
pub proof fn lemma_parity_regimes(symbol: u8, s: u64)
    ensures
        4 <= (parity_model(symbol).demo)(s).0.input.len() < 12,
        16 <= (parity_model(symbol).query)(s).0.input.len() < 32,
{
}

/// Everything that the rule of a track says is printable.
pub proof fn lemma_parity_printable(track: Track)
    ensures
        demo::speaks_plainly((ParityTask.model().rule)(0, track).0),
        demo::speaks_plainly(parity_model(track_symbol(track))),
{
    let m = parity_model(track_symbol(track));
    assert forall|t: u64|
        super::printable((#[trigger] (m.demo)(t)).0.input) && super::printable(
            (m.demo)(t).0.output,
        ) by {
        super::lemma_token_printable(t, bits(), 4, 12);
    }
    assert forall|t: u64|
        super::printable((#[trigger] (m.query)(t)).0.input) && super::printable(
            (m.query)(t).0.target,
        ) by {
        super::lemma_token_printable(t, bits(), 16, 32);
    }
    assert forall|t: u64, o: Seq<char>| super::printable(o) implies super::printable(
        (#[trigger] (m.corrupted)(t, o)).0,
    ) by {
        super::lemma_flip_printable(t, o);
    }
}

/// Every demo that a rule of the task renders is right by that rule.
pub proof fn lemma_parity_demos_right(track: Track)
    ensures
        super::demos_right(parity_model(track_symbol(track))),
{
    crate::text::lemma_trimmed_id(seq!['1']);
    crate::text::lemma_trimmed_id(seq!['0']);
}

/// Counting is counting: the symbols that `occurrences` counts are those that
/// are left when the others are taken out.
pub proof fn lemma_occurrences_filter(xs: Seq<u8>, x: u8)
    ensures
        occurrences(xs, x) == xs.filter(|b: u8| b == x).len(),
    decreases xs.len(),
{
    reveal(Seq::filter);
    if xs.len() > 0 {
        lemma_occurrences_filter(xs.drop_last(), x);
    }
}

/// What the task asks on each track: strings of `0`s and `1`s, as drawn, and for
/// each whether its `1`s (track A) or its `0`s (track B) are odd in number, in
/// demos and queries alike; and this is also what answers are judged by,
/// whatever the input.
pub proof fn lemma_parity_asks(s: u64, track: Track, t: u64, input: Seq<char>, output: Seq<char>)
    ensures
        ({
            let (m, after) = (ParityTask.model().rule)(s, track);
            let symbol: u8 = if track == Track::A {
                49
            } else {
                48
            };
            let odd = |x: Seq<char>| encode_utf8(x).filter(|b: u8| b == symbol).len() % 2 == 1;
            let d = (m.demo)(t).0;
            let q = (m.query)(t).0;
            &&& after == s
            &&& m.ready
            &&& (m.decides)(input, output)
            &&& m.header is None
            &&& m.policy == (PolicyModel::Balanced { classes: seq![seq!['0'], seq!['1']] })
            &&& d.input.len() == 4 + rng::draw(t, 0) % 8
            &&& forall|i: int|
                0 <= i < d.input.len() ==> #[trigger] d.input[i] == if rng::draw(t, (i + 1) as nat)
                    % 2 == 0 {
                    '0'
                } else {
                    '1'
                }
            &&& d.output == if odd(d.input) {
                seq!['1']
            } else {
                seq!['0']
            }
            &&& (m.demo)(t).1 == rng::advance(t, d.input.len() + 1)
            &&& q.input.len() == 16 + rng::draw(t, 0) % 16
            &&& forall|i: int|
                0 <= i < q.input.len() ==> #[trigger] q.input[i] == if rng::draw(t, (i + 1) as nat)
                    % 2 == 0 {
                    '0'
                } else {
                    '1'
                }
            &&& q.target == if odd(q.input) {
                seq!['1']
            } else {
                seq!['0']
            }
            &&& (m.query)(t).1 == rng::advance(t, q.input.len() + 1)
            &&& (m.accepts)(input, output) <==> crate::text::trimmed(output) == if odd(input) {
                seq!['1']
            } else {
                seq!['0']
            }
            &&& (m.corrupted)(t, output) == super::flipped(t, output)
        }),
{
    let symbol = track_symbol(track);
    let m = parity_model(symbol);
    let d = (m.demo)(t).0;
    let q = (m.query)(t).0;
    rng::lemma_token_draws(t, bits(), 4, 12);
    rng::lemma_token_draws(t, bits(), 16, 32);
    lemma_occurrences_filter(encode_utf8(d.input), symbol);
    lemma_occurrences_filter(encode_utf8(q.input), symbol);
    lemma_occurrences_filter(encode_utf8(input), symbol);
    assert(bits()[0] as char == '0' && bits()[1] as char == '1');
}

} // verus!
