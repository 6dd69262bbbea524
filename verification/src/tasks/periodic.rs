//! Periodic continuation: extend a repeating motif.
//!
//! Rule = (motif, period). Query asks for the next `k` symbols.
//! Regime split: demo strings 6..16 chars, query strings 16..48.
//! Track split: A uses periods {2, 3} over {a,b,c}; B uses {4, 5} over
//! {x,y,z} (longer periods on unseen symbols).

use vstd::prelude::*;
use vstd::utf8::*;

use super::demo;
use super::rng;
use super::rng::HarnessRng;
use super::{flip_symbol, BoxedRule, Demo, DemoPolicy, Query, Rule, Task, Track};
use super::{DemoText, PolicyModel, QueryText, RuleModel, TaskModel};

verus! {

/// The `n` symbols from position `from` of the endless repetition of `motif`.
pub open spec fn stretch(motif: Seq<u8>, from: nat, n: nat) -> Seq<char> {
    Seq::new(n, |i: int| motif[(from + i) % (motif.len() as int)] as char)
}

/// What the rule that repeats `motif` is.
pub open spec fn periodic_model(motif: Seq<u8>) -> RuleModel {
    RuleModel {
        ready: motif.len() > 0,
        demo: |s: u64|
            {
                let from = 6 + rng::draw_below(s, 0, 10);
                let n = 1 + rng::draw_below(s, 1, 3);
                (
                    DemoText {
                        input: stretch(motif, 0, from),
                        output: stretch(motif, from, n),
                    },
                    rng::advance(s, 2),
                )
            },
        query: |s: u64|
            {
                let from = 16 + rng::draw_below(s, 0, 32);
                let n = 1 + rng::draw_below(s, 1, 4);
                (
                    QueryText {
                        input: stretch(motif, 0, from),
                        target: stretch(motif, from, n),
                    },
                    rng::advance(s, 2),
                )
            },
        decides: |input: Seq<char>, output: Seq<char>|
            motif.len() > 0 || (input.len() == 0 && crate::text::trimmed(output).len() == 0),
        accepts: |input: Seq<char>, output: Seq<char>|
            {
                let answer = crate::text::trimmed(output);
                answer.len() > 0 && answer == stretch(
                    motif,
                    encode_utf8(input).len(),
                    encode_utf8(answer).len(),
                )
            },
        corrupted: |s: u64, output: Seq<char>| super::flipped(s, output),
        policy: PolicyModel::ExcludeAnswer,
        header: None,
    }
}

/// The periods of a track.
pub open spec fn track_periods(track: Track) -> Seq<usize> {
    match track {
        Track::A => seq![2usize, 3usize],
        Track::B => seq![4usize, 5usize],
    }
}

/// The motif that a track draws from state `s` before it is looked at.
pub open spec fn raw_motif(s: u64, track: Track) -> Seq<u8> {
    let alphabet = super::track_letters(track);
    let period = track_periods(track)[rng::draw_below(s, 0, 2) as int];
    Seq::new(
        period as nat,
        |i: int| alphabet[rng::draw_below(s, (i + 1) as nat, alphabet.len()) as int],
    )
}

/// Whether `xs` holds one symbol only.
pub open spec fn constant(xs: Seq<u8>) -> bool {
    forall|i: int| 0 <= i < xs.len() ==> #[trigger] xs[i] == xs[0]
}

/// The symbols of `xs` that differ from `x`, in their order.
pub open spec fn without(xs: Seq<u8>, x: u8) -> Seq<u8>
    decreases xs.len(),
{
    if xs.len() == 0 {
        xs
    } else if xs.last() == x {
        without(xs.drop_last(), x)
    } else {
        without(xs.drop_last(), x).push(xs.last())
    }
}

/// The motif sampled by a track from state `s`, and the state after it: a
/// motif of one symbol gets another one at its end.
#[verifier::opaque]
pub open spec fn sampled_motif(s: u64, track: Track) -> (Seq<u8>, u64) {
    let raw = raw_motif(s, track);
    let after = rng::advance(s, 1 + raw.len());
    if constant(raw) {
        let rest = without(super::track_letters(track), raw[0]);
        (
            raw.update(raw.len() - 1, rest[rng::draw_below(after, 0, rest.len()) as int]),
            rng::advance(after, 1),
        )
    } else {
        (raw, after)
    }
}

/// Two symbols of a track's alphabet differ from any one of them.
proof fn lemma_without_letter(track: Track, i: int)
    requires
        0 <= i < 3,
    ensures
        ({
            let alphabet = super::track_letters(track);
            let rest = without(alphabet, alphabet[i]);
            &&& rest.len() == 2
            &&& forall|j: int|
                0 <= j < rest.len() ==> #[trigger] rest[j] != alphabet[i] && alphabet.contains(rest[j])
        }),
{
    let alphabet = super::track_letters(track);
    let x = alphabet[i];
    let a2 = alphabet.drop_last();
    let a1 = a2.drop_last();
    let a0 = a1.drop_last();
    assert(a2[0] == alphabet[0] && a2[1] == alphabet[1] && a2.len() == 2);
    assert(a1[0] == alphabet[0] && a1.len() == 1);
    assert(without(a0, x) =~= Seq::<u8>::empty());
    reveal_with_fuel(without, 4);
    let rest = without(alphabet, x);
    assert(alphabet.contains(alphabet[0]) && alphabet.contains(alphabet[1]) && alphabet.contains(
        alphabet[2],
    ));
}

/// The symbols of `xs` that differ from `x`.
fn others(xs: &[u8], x: u8) -> (r: Vec<u8>)
    ensures
        r@ == without(xs@, x),
{
    let mut out: Vec<u8> = Vec::new();
    let mut i: usize = 0;
    while i < xs.len()
        invariant
            i <= xs@.len(),
            out@ =~= without(xs@.take(i as int), x),
        decreases xs@.len() - i,
    {
        assert(xs@.take(i + 1).drop_last() =~= xs@.take(i as int));
        if xs[i] != x {
            out.push(xs[i]);
        }
        i = i + 1;
    }
    assert(xs@.take(i as int) =~= xs@);
    out
}

/// Whether `xs` holds one symbol only.
fn is_constant(xs: &[u8]) -> (r: bool)
    requires
        xs@.len() > 0,
    ensures
        r == constant(xs@),
{
    let mut i: usize = 0;
    while i < xs.len()
        invariant
            i <= xs@.len(),
            xs@.len() > 0,
            forall|j: int| 0 <= j < i ==> #[trigger] xs@[j] == xs@[0],
        decreases xs@.len() - i,
    {
        if xs[i] != xs[0] {
            return false;
        }
        i = i + 1;
    }
    true
}

pub struct PeriodicTask;

impl Task for PeriodicTask {
    open spec fn model(&self) -> TaskModel {
        TaskModel {
            name: "periodic"@,
            stage: 0,
            policy: PolicyModel::ExcludeAnswer,
            rule: |s: u64, track: Track|
                (periodic_model(sampled_motif(s, track).0), sampled_motif(s, track).1),
        }
    }

    fn name(&self) -> (r: &'static str) {
        "periodic"
    }

    fn stage(&self) -> (r: u8) {
        0
    }

    fn demo_policy(&self) -> (r: DemoPolicy) {
        DemoPolicy::ExcludeAnswer
    }

    fn sample_rule(&self, rng: &mut HarnessRng, track: Track) -> (r: BoxedRule) {
        let alphabet: Vec<u8> = super::letters(track);
        let mut periods: Vec<usize> = Vec::new();
        match track {
            Track::A => {
                periods.push(2);
                periods.push(3);
            },
            Track::B => {
                periods.push(4);
                periods.push(5);
            },
        }
        assert(periods@ =~= track_periods(track));
        let ghost s = rng@;
        let period: usize = *rng.pick(&periods);
        let mut motif: Vec<u8> = Vec::new();
        let mut i: usize = 0;
        while i < period
            invariant
                i <= period,
                alphabet@ == super::track_letters(track),
                period == raw_motif(s, track).len(),
                motif@ =~= raw_motif(s, track).take(i as int),
                rng@ == rng::advance(s, (1 + i) as nat),
            decreases period - i,
        {
            proof {
                rng::lemma_next_draw(s, (1 + i) as nat);
            }
            motif.push(*rng.pick(&alphabet));
            i = i + 1;
        }
        assert(motif@ =~= raw_motif(s, track));
        proof {
            reveal(sampled_motif);
        }
        if is_constant(&motif) {
            proof {
                let j = rng::draw_below(s, 1, 3) as int;
                assert(motif@[0] == alphabet@[j]);
                lemma_without_letter(track, j);
            }
            let rest: Vec<u8> = others(&alphabet, motif[0]);
            let last: usize = motif.len() - 1;
            let symbol: u8 = *rng.pick(&rest);
            motif.set(last, symbol);
        }
        BoxedRule { rule: Box::new(PeriodicRule { motif }) }
    }
}

pub struct PeriodicRule {
    pub motif: Vec<u8>,
}

impl PeriodicRule {
    /// The `n` symbols from position `from` on.
    fn run(&self, from: usize, n: usize) -> (r: String)
        requires
            self.motif@.len() > 0 || n == 0,
        ensures
            r@ == stretch(self.motif@, from as nat, n as nat),
    {
        let mut out: String = String::new();
        if n == 0 {
            assert(out@ =~= stretch(self.motif@, from as nat, 0));
            return out;
        }
        let m: usize = self.motif.len();
        let mut phase: usize = from % m;
        let mut i: usize = 0;
        while i < n
            invariant
                i <= n,
                m == self.motif@.len() > 0,
                phase == (from + i) % (m as int),
                out@ =~= stretch(self.motif@, from as nat, n as nat).take(i as int),
            decreases n - i,
        {
            out.push(self.motif[phase] as char);
            proof {
                lemma_phase_step(from + i, m as int);
            }
            phase = if phase + 1 == m {
                0
            } else {
                phase + 1
            };
            i = i + 1;
        }
        out
    }

    /// The motif repeated to `prefix_len` symbols, and the `out_len` symbols
    /// that come next.
    pub fn extend(&self, prefix_len: usize, out_len: usize) -> (r: (String, String))
        requires
            self.motif@.len() > 0 || (prefix_len == 0 && out_len == 0),
            prefix_len + out_len <= usize::MAX,
        ensures
            r.0@ == stretch(self.motif@, 0, prefix_len as nat),
            r.1@ == stretch(self.motif@, prefix_len as nat, out_len as nat),
    {
        (self.run(0, prefix_len), self.run(prefix_len, out_len))
    }
}

proof fn lemma_phase_step(x: int, m: int)
    requires
        x >= 0,
        m > 0,
    ensures
        (x + 1) % m == if x % m + 1 == m {
            0
        } else {
            x % m + 1
        },
{
    vstd::arithmetic::div_mod::lemma_fundamental_div_mod(x, m);
    let q = x / m;
    let r = x % m;
    assert(m * q == q * m && m * q + m == (q + 1) * m) by (nonlinear_arith);
    assert(0 <= r < m);
    if r + 1 == m {
        vstd::arithmetic::div_mod::lemma_fundamental_div_mod_converse(x + 1, m, q + 1, 0);
    } else {
        vstd::arithmetic::div_mod::lemma_fundamental_div_mod_converse(x + 1, m, q, r + 1);
    }
}

impl Rule for PeriodicRule {
    open spec fn model(&self) -> RuleModel {
        periodic_model(self.motif@)
    }

    fn render_demo(&self, rng: &mut HarnessRng) -> (d: Demo) {
        let ghost s = rng@;
        let prefix_len: usize = rng.range(6, 16);
        let out_len: usize = rng.range(1, 4);
        proof {
            rng::lemma_advance_adds(s, 1, 1);
            assert(rng::draw(rng::advance(s, 1), 0) == rng::draw(s, 1));
        }
        let (input, output) = self.extend(prefix_len, out_len);
        Demo { input, output }
    }

    fn render_query(&self, rng: &mut HarnessRng) -> (q: Query) {
        let ghost s = rng@;
        let prefix_len: usize = rng.range(16, 48);
        let out_len: usize = rng.range(1, 5);
        proof {
            rng::lemma_advance_adds(s, 1, 1);
            assert(rng::draw(rng::advance(s, 1), 0) == rng::draw(s, 1));
        }
        let (input, target) = self.extend(prefix_len, out_len);
        Query { input, target }
    }

    fn verify(&self, input: &str, output: &str) -> (r: bool) {
        let got: Vec<char> = crate::text::trim(output);
        if got.len() == 0 {
            return false;
        }
        let answer: String = crate::text::from_chars(&got);
        let before: Vec<u8> = crate::text::bytes_of(input);
        let bytes: Vec<u8> = crate::text::bytes_of(answer.as_str());
        let expected: String = self.run(before.len(), bytes.len());
        crate::text::same(answer.as_str(), expected.as_str())
    }

    fn corrupt(&self, rng: &mut HarnessRng, output: &str) -> (r: String) {
        flip_symbol(rng, output)
    }

    fn demo_policy(&self) -> (r: DemoPolicy) {
        DemoPolicy::ExcludeAnswer
    }

    fn oracle_header(&self) -> (r: Option<String>) {
        None
    }
}

/// A sampled motif is made of its track's symbols, has one of its track's
/// periods, and holds at least two different symbols.
pub proof fn lemma_sampled_motif(s: u64, track: Track)
    ensures
        ({
            let motif = sampled_motif(s, track).0;
            &&& motif.len() == track_periods(track)[0] || motif.len() == track_periods(track)[1]
            &&& !constant(motif)
            &&& forall|i: int|
                0 <= i < motif.len() ==> super::track_letters(track).contains(#[trigger] motif[i])
        }),
{
    reveal(sampled_motif);
    let alphabet = super::track_letters(track);
    let raw = raw_motif(s, track);
    let motif = sampled_motif(s, track).0;
    assert forall|i: int| 0 <= i < raw.len() implies alphabet.contains(#[trigger] raw[i]) by {
        assert(alphabet[rng::draw_below(s, (i + 1) as nat, 3) as int] == raw[i]);
    }
    if constant(raw) {
        let j = rng::draw_below(s, 1, 3) as int;
        assert(raw[0] == alphabet[j]);
        lemma_without_letter(track, j);
        let last = raw.len() - 1;
        assert(motif[0] == raw[0]);
        assert(motif[last] != motif[0]);
    }
}

/// An ASCII motif without white space: the rule accepts the answer to each of
/// its queries, and query and answer read on from one another as the motif
/// repeated.
pub proof fn lemma_periodic_continues(motif: Seq<u8>, s: u64)
    requires
        motif.len() > 0,
        super::prints(motif),
        forall|i: int| 0 <= i < motif.len() ==> #[trigger] motif[i] < 128,
    ensures
        ({
            let m = periodic_model(motif);
            let q = (m.query)(s).0;
            &&& 16 <= q.input.len() < 48
            &&& 1 <= q.target.len() < 5
            &&& (m.accepts)(q.input, q.target)
            &&& q.input + q.target == stretch(motif, 0, q.input.len() + q.target.len())
        }),
{
    let q = (periodic_model(motif).query)(s).0;
    let from = q.input.len();
    let n = q.target.len();
    lemma_stretch_ascii(motif, 0, from);
    lemma_stretch_ascii(motif, from, n);
    crate::text::lemma_trimmed_id(q.target);
    assert(q.input + q.target =~= stretch(motif, 0, from + n));
}

/// A stretch of an ASCII motif without white space has one byte per character
/// and no white space.
proof fn lemma_stretch_ascii(motif: Seq<u8>, from: nat, n: nat)
    requires
        motif.len() > 0,
        super::prints(motif),
        forall|i: int| 0 <= i < motif.len() ==> #[trigger] motif[i] < 128,
    ensures
        encode_utf8(stretch(motif, from, n)).len() == n,
        forall|i: int| 0 <= i < n ==> !crate::text::is_white(#[trigger] stretch(motif, from, n)[i]),
{
    let t = stretch(motif, from, n);
    assert forall|i: int| 0 <= i < n implies '\0' <= #[trigger] t[i] <= '\u{7f}'
        && !crate::text::is_white(t[i]) by {
        let j = (from + i) % (motif.len() as int);
        assert(0 <= j < motif.len());
        assert(motif[j] < 128);
    }
    is_ascii_chars_encode_utf8(t);
}

/// Sampled motifs meet the conditions of [`lemma_periodic_continues`].
pub proof fn lemma_sampled_motif_prints(s: u64, track: Track)
    ensures
        super::prints(sampled_motif(s, track).0),
        forall|i: int|
            0 <= i < sampled_motif(s, track).0.len() ==> #[trigger] sampled_motif(s, track).0[i] < 128,
{
    lemma_sampled_motif(s, track);
    let motif = sampled_motif(s, track).0;
    assert forall|i: int| 0 <= i < motif.len() implies #[trigger] motif[i] < 128
        && !crate::text::is_white(motif[i] as char) by {
        assert(super::track_letters(track).contains(motif[i]));
    }
}

/// Demo strings are 6 to 15 characters long and query strings 16 to 47, so
/// their lengths never meet; demos go on for 1 to 3 characters, queries for 1
/// to 4.
pub proof fn lemma_periodic_regimes(motif: Seq<u8>, s: u64)
    ensures
        6 <= (periodic_model(motif).demo)(s).0.input.len() < 16,
        1 <= (periodic_model(motif).demo)(s).0.output.len() < 4,
        16 <= (periodic_model(motif).query)(s).0.input.len() < 48,
        1 <= (periodic_model(motif).query)(s).0.target.len() < 5,
{
}

/// Everything that a rule sampled by a track says is printable.
pub proof fn lemma_periodic_printable(track: Track, s: u64)
    ensures
        demo::speaks_plainly((PeriodicTask.model().rule)(s, track).0),
{
    let motif = sampled_motif(s, track).0;
    lemma_sampled_motif(s, track);
    assert forall|i: int| 0 <= i < motif.len() implies 32 <= #[trigger] motif[i] < 127 by {
        assert(super::track_letters(track).contains(motif[i]));
    }
    lemma_motif_printable(motif);
}

proof fn lemma_motif_printable(motif: Seq<u8>)
    requires
        motif.len() > 0,
        super::printable_bytes(motif),
    ensures
        demo::speaks_plainly(periodic_model(motif)),
{
    let m = periodic_model(motif);
    assert forall|t: u64|
        super::printable((#[trigger] (m.demo)(t)).0.input) && super::printable(
            (m.demo)(t).0.output,
        ) by {
        let d = (m.demo)(t).0;
        lemma_stretch_printable(motif, 0, d.input.len());
        lemma_stretch_printable(motif, d.input.len(), d.output.len());
    }
    assert forall|t: u64|
        super::printable((#[trigger] (m.query)(t)).0.input) && super::printable(
            (m.query)(t).0.target,
        ) by {
        let q = (m.query)(t).0;
        lemma_stretch_printable(motif, 0, q.input.len());
        lemma_stretch_printable(motif, q.input.len(), q.target.len());
    }
    assert forall|t: u64, o: Seq<char>| super::printable(o) implies super::printable(
        (#[trigger] (m.corrupted)(t, o)).0,
    ) by {
        super::lemma_flip_printable(t, o);
    }
}

proof fn lemma_stretch_printable(motif: Seq<u8>, from: nat, n: nat)
    requires
        motif.len() > 0,
        super::printable_bytes(motif),
    ensures
        super::printable(stretch(motif, from, n)),
{
    let t = stretch(motif, from, n);
    assert forall|i: int| 0 <= i < t.len() implies ' ' <= #[trigger] t[i] <= '~' by {
        let j = (from + i) % (motif.len() as int);
        assert(0 <= j < motif.len());
        assert(32 <= motif[j] < 127);
    }
}

/// Every demo that a rule of the task renders is right by that rule.
pub proof fn lemma_periodic_demos_right(track: Track, s: u64)
    ensures
        super::demos_right((PeriodicTask.model().rule)(s, track).0),
{
    let motif = sampled_motif(s, track).0;
    lemma_sampled_motif(s, track);
    lemma_sampled_motif_prints(s, track);
    lemma_motif_demos_right(motif);
}

proof fn lemma_motif_demos_right(motif: Seq<u8>)
    requires
        motif.len() > 0,
        super::prints(motif),
        forall|i: int| 0 <= i < motif.len() ==> #[trigger] motif[i] < 128,
    ensures
        super::demos_right(periodic_model(motif)),
{
    let m = periodic_model(motif);
    assert forall|t: u64| super::right_by(m, (#[trigger] (m.demo)(t)).0) by {
        let d = (m.demo)(t).0;
        lemma_stretch_ascii(motif, 0, d.input.len());
        lemma_stretch_ascii(motif, d.input.len(), d.output.len());
        crate::text::lemma_trimmed_id(d.output);
    }
}

/// A stretch, by what it is a part of: the first one is the motif itself, one
/// period on everything is the same, and two stretches that meet are one.
pub proof fn lemma_stretch(motif: Seq<u8>, from: nat, a: nat, b: nat)
    requires
        motif.len() > 0,
    ensures
        stretch(motif, 0, motif.len()) == motif.map_values(|x: u8| x as char),
        stretch(motif, from + motif.len(), a) == stretch(motif, from, a),
        stretch(motif, from, a) + stretch(motif, from + a, b) == stretch(motif, from, a + b),
        stretch(motif, from, a).len() == a,
{
    let n = motif.len() as int;
    assert forall|i: int| 0 <= i < n implies #[trigger] stretch(motif, 0, motif.len())[i]
        == motif[i] as char by {
        vstd::arithmetic::div_mod::lemma_small_mod(i as nat, n as nat);
    }
    assert(stretch(motif, 0, motif.len()) =~= motif.map_values(|x: u8| x as char));
    assert forall|i: int| 0 <= i < a implies #[trigger] stretch(motif, from + motif.len(), a)[i]
        == stretch(motif, from, a)[i] by {
        vstd::arithmetic::div_mod::lemma_mod_add_multiples_vanish(from + i, n);
        assert(from + motif.len() + i == n + (from + i));
    }
    assert(stretch(motif, from + motif.len(), a) =~= stretch(motif, from, a));
    assert(stretch(motif, from, a) + stretch(motif, from + a, b) =~= stretch(motif, from, a + b));
}

/// Taking a symbol out leaves the others in their order.
pub proof fn lemma_without_filter(xs: Seq<u8>, x: u8)
    ensures
        without(xs, x) == xs.filter(|b: u8| b != x),
    decreases xs.len(),
{
    reveal(Seq::filter);
    if xs.len() > 0 {
        lemma_without_filter(xs.drop_last(), x);
    }
}

/// The motif of a rule, draw by draw: the first one picks the period, two or
/// three on track A and four or five on track B; each of the next ones a symbol.
/// Only where all of these came out the same is there one draw more, which puts
/// one of the other two symbols at the end.
pub proof fn lemma_motif_draws(s: u64, track: Track, raw: Seq<u8>)
    requires
        raw.len() == rng::draw(s, 0) % 2 + if track == Track::A {
            2int
        } else {
            4int
        },
        forall|i: int|
            0 <= i < raw.len() ==> #[trigger] raw[i] == super::track_letters(track)[(rng::draw(
                s,
                (i + 1) as nat,
            ) % 3) as int],
    ensures
        ({
            let same = forall|i: int| 0 <= i < raw.len() ==> #[trigger] raw[i] == raw[0];
            let x = raw[0];
            let rest = super::track_letters(track).filter(|b: u8| b != x);
            let (motif, after) = sampled_motif(s, track);
            &&& motif.len() == raw.len()
            &&& !same ==> motif == raw && after == rng::advance(s, raw.len() + 1)
            &&& same ==> {
                &&& motif.drop_last() == raw.drop_last()
                &&& rest.len() == 2
                &&& motif.last() == rest[(rng::draw(s, raw.len() + 1) % 2) as int]
                &&& after == rng::advance(s, raw.len() + 2)
            }
        }),
{
    let n = raw.len();
    lemma_raw_motif(s, track, raw);
    let motif = sampled_motif(s, track).0;
    rng::lemma_next_draw(s, n + 1);
    assert(raw[0] == super::track_letters(track)[(rng::draw(s, 1) % 3) as int]);
    lemma_motif_of(s, track, raw, rng::advance(s, n + 1), (rng::draw(s, 1) % 3) as int);
}

proof fn lemma_motif_of(s: u64, track: Track, raw: Seq<u8>, then: u64, j: int)
    requires
        0 <= j < 3,
        raw.len() > 0,
        raw_motif(s, track) == raw,
        raw[0] == super::track_letters(track)[j],
        then == rng::advance(s, raw.len() + 1),
    ensures
        ({
            let x = raw[0];
            let rest = super::track_letters(track).filter(|b: u8| b != x);
            let (motif, after) = sampled_motif(s, track);
            &&& motif.len() == raw.len()
            &&& !constant(raw) ==> motif == raw && after == then
            &&& constant(raw) ==> {
                &&& motif.drop_last() == raw.drop_last()
                &&& rest.len() == 2
                &&& motif.last() == rest[(rng::draw(then, 0) % 2) as int]
                &&& after == rng::advance(then, 1)
            }
        }),
{
    reveal(sampled_motif);
    if constant(raw) {
        lemma_mended(raw, track, j, then, sampled_motif(s, track).0);
    }
}

/// A motif of one symbol gets another one at its end; any other stays.
proof fn lemma_mended(raw: Seq<u8>, track: Track, j: int, v: u64, motif: Seq<u8>)
    requires
        0 <= j < 3,
        raw.len() > 0,
        raw[0] == super::track_letters(track)[j],
        motif == ({
            let rest = without(super::track_letters(track), raw[0]);
            raw.update(raw.len() - 1, rest[rng::draw_below(v, 0, rest.len()) as int])
        }),
    ensures
        ({
            let x = raw[0];
            let rest = super::track_letters(track).filter(|b: u8| b != x);
            &&& motif.len() == raw.len()
            &&& motif.drop_last() == raw.drop_last()
            &&& rest.len() == 2
            &&& motif.last() == rest[(rng::draw(v, 0) % 2) as int]
        }),
{
    lemma_without_letter(track, j);
    lemma_without_filter(super::track_letters(track), raw[0]);
    assert(motif.drop_last() =~= raw.drop_last());
}

/// The motif that is drawn at first has a period of its track, and its symbols
/// are as drawn.
proof fn lemma_raw_motif(s: u64, track: Track, raw: Seq<u8>)
    requires
        raw.len() == rng::draw(s, 0) % 2 + if track == Track::A {
            2int
        } else {
            4int
        },
        forall|i: int|
            0 <= i < raw.len() ==> #[trigger] raw[i] == super::track_letters(track)[(rng::draw(
                s,
                (i + 1) as nat,
            ) % 3) as int],
    ensures
        raw_motif(s, track) == raw,
{
    assert(track_periods(track)[rng::draw_below(s, 0, 2) as int] == raw.len());
    assert(raw_motif(s, track) =~= raw);
}

/// What the task asks on each track: the motif repeated to a drawn length, and
/// as many more of its symbols as drawn, in demos and queries alike. Answers are
/// judged by whether the motif goes on that way, for as long as they are.
pub proof fn lemma_periodic_asks(s: u64, track: Track, t: u64, input: Seq<char>, output: Seq<char>)
    ensures
        ({
            let (motif, after) = sampled_motif(s, track);
            let (m, last) = (PeriodicTask.model().rule)(s, track);
            let d = (m.demo)(t).0;
            let q = (m.query)(t).0;
            let answer = crate::text::trimmed(output);
            &&& last == after
            &&& m.ready
            &&& (m.decides)(input, output)
            &&& m.policy == PolicyModel::ExcludeAnswer
            &&& m.header is None
            &&& d.input.len() == 6 + rng::draw(t, 0) % 10
            &&& d.output.len() == 1 + rng::draw(t, 1) % 3
            &&& d.input + d.output == stretch(motif, 0, d.input.len() + d.output.len())
            &&& (m.demo)(t).1 == rng::advance(t, 2)
            &&& q.input.len() == 16 + rng::draw(t, 0) % 32
            &&& q.target.len() == 1 + rng::draw(t, 1) % 4
            &&& q.input + q.target == stretch(motif, 0, q.input.len() + q.target.len())
            &&& (m.query)(t).1 == rng::advance(t, 2)
            &&& (m.accepts)(input, output) <==> answer.len() > 0 && answer == stretch(
                motif,
                encode_utf8(input).len(),
                encode_utf8(answer).len(),
            )
            &&& (m.corrupted)(t, output) == super::flipped(t, output)
        }),
{
    let motif = sampled_motif(s, track).0;
    lemma_sampled_motif(s, track);
    let m = periodic_model(motif);
    let d = (m.demo)(t).0;
    let q = (m.query)(t).0;
    assert(d.input + d.output =~= stretch(motif, 0, d.input.len() + d.output.len()));
    assert(q.input + q.target =~= stretch(motif, 0, q.input.len() + q.target.len()));
}

} // verus!
